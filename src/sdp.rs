use crate::text::{
    before_char, chars_from, chars_of, contains, contains_seq, ending, has_prefix, is_ws,
    is_ws_char, join, join_lines, lemma_lines_join, lemma_lines_no_newline, lemma_words_no_ws,
    lemma_words_strip_cr, lines, list_contains, no_newline, prefix_before, replace_all,
    replace_seq, same_chars, split_lines, split_words, starts_with, string_of, views, words,
};
use vstd::prelude::*;

verus! {

/// Video codecs the client can ask for.
#[derive(Debug, Clone, Copy, PartialEq, Eq, Structural)]
pub enum VideoCodec {
    H264,
    H265,
    AV1,
}

/// `a` followed by `b`.
fn concat(a: &Vec<char>, b: &Vec<char>) -> (r: Vec<char>)
    ensures
        r@ == a@ + b@,
{
    let mut out: Vec<char> = Vec::new();
    let mut i: usize = 0;
    while i < a.len()
        invariant
            i <= a@.len(),
            out@ == a@.subrange(0, i as int),
        decreases a@.len() - i,
    {
        out.push(a[i]);
        i = i + 1;
        proof {
            assert(out@ =~= a@.subrange(0, i as int));
        }
    }
    let mut j: usize = 0;
    while j < b.len()
        invariant
            j <= b@.len(),
            out@ == a@ + b@.subrange(0, j as int),
        decreases b@.len() - j,
    {
        out.push(b[j]);
        j = j + 1;
        proof {
            assert(out@ =~= a@ + b@.subrange(0, j as int));
        }
    }
    proof {
        assert(a@.subrange(0, a@.len() as int) =~= a@);
        assert(b@.subrange(0, b@.len() as int) =~= b@);
    }
    out
}

/// The unset address an offer puts in its connection line.
pub open spec fn conn_unset_address() -> Seq<char> {
    "c=IN IP4 0.0.0.0"@
}

pub open spec fn conn_prefix() -> Seq<char> {
    "c=IN IP4 "@
}

/// Puts the server's address in place of the unset connection-line address.
/// No candidate is added: those come from the server by trickle signaling.
pub fn fix_server_ip(sdp: &str, server_ip: &str) -> (r: String)
    ensures
        r@ == replace_all(sdp@, conn_unset_address(), conn_prefix() + server_ip@),
{
    let text = chars_of(sdp);
    let pattern = chars_of("c=IN IP4 0.0.0.0");
    let prefix = chars_of("c=IN IP4 ");
    let ip = chars_of(server_ip);
    let replacement = concat(&prefix, &ip);
    let fixed = replace_seq(&text, &pattern, &replacement);
    string_of(&fixed)
}

/// Turns every `setup:passive` of an answer into `setup:active`, so that this
/// side starts the DTLS handshake against an ICE-lite server.
pub fn fix_dtls_setup_for_ice_lite(answer_sdp: &str) -> (r: String)
    ensures
        r@ == replace_all(answer_sdp@, "setup:passive"@, "setup:active"@),
{
    let text = chars_of(answer_sdp);
    let pattern = chars_of("setup:passive");
    let replacement = chars_of("setup:active");
    let fixed = replace_seq(&text, &pattern, &replacement);
    string_of(&fixed)
}

/// `s` without leading whitespace.
pub open spec fn trim_start(s: Seq<char>) -> Seq<char>
    decreases s.len(),
{
    if s.len() > 0 && is_ws(s[0]) {
        trim_start(s.subrange(1, s.len() as int))
    } else {
        s
    }
}

/// `s` without trailing whitespace.
pub open spec fn trim_end(s: Seq<char>) -> Seq<char>
    decreases s.len(),
{
    if s.len() > 0 && is_ws(s.last()) {
        trim_end(s.drop_last())
    } else {
        s
    }
}

pub open spec fn trim(s: Seq<char>) -> Seq<char> {
    trim_end(trim_start(s))
}

fn trimmed(s: &Vec<char>) -> (r: Vec<char>)
    ensures
        r@ == trim(s@),
{
    let mut start: usize = 0;
    proof {
        assert(s@.subrange(0, s@.len() as int) =~= s@);
    }
    while start < s.len() && is_ws_char(s[start])
        invariant
            start <= s@.len(),
            trim_start(s@) == trim_start(s@.subrange(start as int, s@.len() as int)),
        decreases s@.len() - start,
    {
        proof {
            let rest = s@.subrange(start as int, s@.len() as int);
            assert(rest.subrange(1, rest.len() as int) =~= s@.subrange(start + 1, s@.len() as int));
        }
        start = start + 1;
    }
    let mut end: usize = s.len();
    while end > start && is_ws_char(s[end - 1])
        invariant
            start <= end <= s@.len(),
            trim_start(s@) == s@.subrange(start as int, s@.len() as int) || start < s@.len(),
            trim(s@) == trim_end(s@.subrange(start as int, end as int)),
        decreases end - start,
    {
        proof {
            assert(s@.subrange(start as int, end as int).drop_last() =~= s@.subrange(
                start as int,
                end - 1,
            ));
        }
        end = end - 1;
    }
    let mut out: Vec<char> = Vec::new();
    let mut i: usize = start;
    while i < end
        invariant
            start <= i <= end <= s@.len(),
            out@ == s@.subrange(start as int, i as int),
        decreases end - i,
    {
        out.push(s[i]);
        i = i + 1;
        proof {
            assert(out@ =~= s@.subrange(start as int, i as int));
        }
    }
    out
}

/// Line `k` belongs to the session-level part: no media line comes at or
/// before it.
pub open spec fn session_level(ls: Seq<Seq<char>>, k: int) -> bool {
    forall|j: int| 0 <= j <= k ==> !starts_with(#[trigger] ls[j], "m="@)
}

/// Whether a session-level `a=ice-lite` line (before the first media line)
/// marks the offerer as ICE-lite.
pub fn is_ice_lite(sdp: &str) -> (r: bool)
    ensures
        r == exists|k: int|
            0 <= k < lines(sdp@).len() && session_level(lines(sdp@), k) && trim(
                #[trigger] lines(sdp@)[k],
            ) == "a=ice-lite"@,
{
    let text = chars_of(sdp);
    let ls = split_lines(&text);
    let marker = chars_of("a=ice-lite");
    let media = chars_of("m=");
    let ghost l = lines(sdp@);
    let mut k: usize = 0;
    while k < ls.len()
        invariant
            views(ls@) == l,
            l == lines(sdp@),
            marker@ == "a=ice-lite"@,
            media@ == "m="@,
            k <= ls@.len(),
            session_level(l, k - 1),
            forall|j: int| 0 <= j < k ==> trim(#[trigger] l[j]) != "a=ice-lite"@,
        decreases ls@.len() - k,
    {
        proof {
            assert(views(ls@)[k as int] == ls@[k as int]@);
        }
        if has_prefix(&ls[k], &media) {
            proof {
                assert forall|j: int| 0 <= j < l.len() && session_level(l, j) implies trim(
                    #[trigger] l[j],
                ) != "a=ice-lite"@ by {
                    if j >= k {
                        assert(!starts_with(l[k as int], "m="@));
                    }
                }
            }
            return false;
        }
        let t = trimmed(&ls[k]);
        if same_chars(&t, &marker) {
            proof {
                assert(session_level(l, k as int));
            }
            return true;
        }
        k = k + 1;
    }
    false
}

/// Whether line `k` lies in a video section: the nearest media line at or
/// before it is an `m=video` line.
pub open spec fn in_video(ls: Seq<Seq<char>>, k: int) -> bool
    decreases k + 1,
{
    if k < 0 {
        false
    } else if starts_with(ls[k], "m=video"@) {
        true
    } else if starts_with(ls[k], "m="@) {
        false
    } else {
        in_video(ls, k - 1)
    }
}

/// The codec named by the first `a=rtpmap` line of the first video section,
/// scanning from line `k` with `inv` telling whether line `k - 1` was in it.
pub open spec fn first_video_codec(ls: Seq<Seq<char>>, k: int, inv: bool) -> Option<Seq<char>>
    decreases ls.len() - k,
{
    if k < 0 || k >= ls.len() {
        None
    } else {
        let l = ls[k];
        if !starts_with(l, "m=video"@) && starts_with(l, "m="@) && inv {
            None
        } else {
            let iv = starts_with(l, "m=video"@) || inv;
            if iv && starts_with(l, "a=rtpmap:"@) && words(l).len() >= 2 {
                Some(before_char(words(l)[1], '/'))
            } else {
                first_video_codec(ls, k + 1, iv)
            }
        }
    }
}

/// The codec name of the first `a=rtpmap` line of the video section, up to
/// its `/`.
pub fn extract_video_codec(sdp: &str) -> (r: Option<String>)
    ensures
        match first_video_codec(lines(sdp@), 0, false) {
            Some(c) => r matches Some(s) && s@ == c,
            None => r is None,
        },
{
    let text = chars_of(sdp);
    let ls = split_lines(&text);
    let m_video = chars_of("m=video");
    let m_any = chars_of("m=");
    let rtpmap = chars_of("a=rtpmap:");
    let ghost l = lines(sdp@);
    let mut in_video = false;
    let mut k: usize = 0;
    while k < ls.len()
        invariant
            views(ls@) == l,
            l == lines(sdp@),
            m_video@ == "m=video"@,
            m_any@ == "m="@,
            rtpmap@ == "a=rtpmap:"@,
            k <= ls@.len(),
            first_video_codec(l, 0, false) == first_video_codec(l, k as int, in_video),
        decreases ls@.len() - k,
    {
        let line = &ls[k];
        proof {
            assert(l[k as int] == line@);
        }
        let is_video = has_prefix(line, &m_video);
        if !is_video && has_prefix(line, &m_any) && in_video {
            return None;
        }
        in_video = is_video || in_video;
        if in_video && has_prefix(line, &rtpmap) {
            let w = split_words(line);
            if w.len() >= 2 {
                let codec = prefix_before(&w[1], '/');
                proof {
                    assert(views(w@)[1] == w@[1]@);
                }
                return Some(string_of(&codec));
            }
        }
        k = k + 1;
    }
    None
}

/// ASCII upper case of `c`.
pub open spec fn upper_char(c: char) -> char {
    if 'a' <= c && c <= 'z' {
        ((c as u8) - 32u8) as char
    } else {
        c
    }
}

/// Codec name as the payload map keys it: upper case, `HEVC` read as `H265`.
pub open spec fn normalize(name: Seq<char>) -> Seq<char> {
    let u = Seq::new(name.len(), |i: int| upper_char(name[i]));
    if u == "HEVC"@ {
        "H265"@
    } else {
        u
    }
}

fn normalize_codec_name(name: &Vec<char>) -> (r: Vec<char>)
    ensures
        r@ == normalize(name@),
{
    let mut u: Vec<char> = Vec::new();
    let mut i: usize = 0;
    while i < name.len()
        invariant
            i <= name@.len(),
            u@ == Seq::new(i as nat, |k: int| upper_char(name@[k])),
        decreases name@.len() - i,
    {
        let c = name[i];
        let up = if 'a' <= c && c <= 'z' {
            ((c as u8) - 32) as char
        } else {
            c
        };
        u.push(up);
        i = i + 1;
        proof {
            assert(u@ =~= Seq::new(i as nat, |k: int| upper_char(name@[k])));
        }
    }
    let hevc = chars_of("HEVC");
    if same_chars(&u, &hevc) {
        chars_of("H265")
    } else {
        u
    }
}

pub open spec fn codec_name(codec: VideoCodec) -> Seq<char> {
    match codec {
        VideoCodec::H264 => "H264"@,
        VideoCodec::H265 => "H265"@,
        VideoCodec::AV1 => "AV1"@,
    }
}

/// Payload type and normalized codec name of an `a=rtpmap` line.
pub open spec fn rtpmap_entry(l: Seq<char>) -> Option<(Seq<char>, Seq<char>)> {
    if starts_with(l, "a=rtpmap:"@) {
        let w = words(l.subrange(9, l.len() as int));
        if w.len() >= 2 {
            Some((w[0], normalize(before_char(w[1], '/'))))
        } else {
            None
        }
    } else {
        None
    }
}

/// Payload types that the video `a=rtpmap` lines among the first `n` lines
/// map to codec `name`, in order.
pub open spec fn preferred(ls: Seq<Seq<char>>, name: Seq<char>, n: int) -> Seq<Seq<char>>
    decreases n,
{
    if n <= 0 {
        Seq::empty()
    } else {
        let p = preferred(ls, name, n - 1);
        match rtpmap_entry(ls[n - 1]) {
            Some((pt, c)) => if in_video(ls, n - 1) && c == name {
                p.push(pt)
            } else {
                p
            },
            None => p,
        }
    }
}

/// The payload type an `a=rtpmap`, `a=fmtp` or `a=rtcp-fb` line is about
/// (empty when the line names none).
pub open spec fn attr_pt(l: Seq<char>) -> Option<Seq<char>> {
    let rest = if starts_with(l, "a=rtpmap:"@) {
        Some(l.subrange(9, l.len() as int))
    } else if starts_with(l, "a=fmtp:"@) {
        Some(l.subrange(7, l.len() as int))
    } else if starts_with(l, "a=rtcp-fb:"@) {
        Some(l.subrange(10, l.len() as int))
    } else {
        None
    };
    match rest {
        Some(r) => if words(r).len() > 0 {
            Some(words(r)[0])
        } else {
            Some(Seq::empty())
        },
        None => None,
    }
}

/// The words of `ws` that `pref` lists, in order.
pub open spec fn keep_listed(ws: Seq<Seq<char>>, pref: Seq<Seq<char>>) -> Seq<Seq<char>>
    decreases ws.len(),
{
    if ws.len() == 0 {
        Seq::empty()
    } else if pref.contains(ws.last()) {
        keep_listed(ws.drop_last(), pref).push(ws.last())
    } else {
        keep_listed(ws.drop_last(), pref)
    }
}

/// An `m=video` line listing only the payload types in `pref`; unchanged when
/// it lists none of them or has no payload list.
pub open spec fn video_line(l: Seq<char>, pref: Seq<Seq<char>>) -> Seq<char> {
    let parts = words(l);
    let kept = keep_listed(parts.subrange(3, parts.len() as int), pref);
    if parts.len() >= 4 && kept.len() > 0 {
        join(parts.subrange(0, 3), " "@) + " "@ + join(kept, " "@)
    } else {
        l
    }
}

/// The first `n` lines with the `m=video` line rewritten and the video
/// section's attribute lines for payload types outside `pref` dropped.
pub open spec fn filtered(ls: Seq<Seq<char>>, pref: Seq<Seq<char>>, n: int) -> Seq<Seq<char>>
    decreases n,
{
    if n <= 0 {
        Seq::empty()
    } else {
        let f = filtered(ls, pref, n - 1);
        let l = ls[n - 1];
        if starts_with(l, "m=video"@) {
            f.push(video_line(l, pref))
        } else if in_video(ls, n - 1) && attr_pt(l) is Some && !pref.contains(attr_pt(l)->Some_0) {
            f
        } else {
            f.push(l)
        }
    }
}

/// The line ending a description uses: `\r\n` if it has one, else `\n`.
pub open spec fn line_ending(s: Seq<char>) -> Seq<char> {
    if contains(s, "\r\n"@) {
        "\r\n"@
    } else {
        "\n"@
    }
}

fn line_ending_of(text: &Vec<char>) -> (r: Vec<char>)
    ensures
        r@ == line_ending(text@),
{
    let crlf = chars_of("\r\n");
    if contains_seq(text, &crlf) {
        crlf
    } else {
        chars_of("\n")
    }
}

fn keep_listed_words(ws: &Vec<Vec<char>>, pref: &Vec<Vec<char>>) -> (r: Vec<Vec<char>>)
    ensures
        views(r@) == keep_listed(views(ws@), views(pref@)),
{
    let mut out: Vec<Vec<char>> = Vec::new();
    let mut k: usize = 0;
    while k < ws.len()
        invariant
            k <= ws@.len(),
            views(out@) == keep_listed(views(ws@).subrange(0, k as int), views(pref@)),
        decreases ws@.len() - k,
    {
        let ghost before = views(ws@).subrange(0, k as int);
        let ghost after = views(ws@).subrange(0, k + 1);
        proof {
            assert(after.drop_last() =~= before);
            assert(after.last() == ws@[k as int]@);
        }
        if list_contains(pref, &ws[k]) {
            out.push(chars_from(&ws[k], 0));
            proof {
                assert(ws@[k as int]@.subrange(0, ws@[k as int]@.len() as int) =~= ws@[k as int]@);
                assert(views(out@) =~= keep_listed(after, views(pref@)));
            }
        } else {
            proof {
                assert(views(out@) =~= keep_listed(after, views(pref@)));
            }
        }
        k = k + 1;
    }
    proof {
        assert(views(ws@).subrange(0, ws@.len() as int) =~= views(ws@));
    }
    out
}

fn rewrite_video_line(l: &Vec<char>, pref: &Vec<Vec<char>>) -> (r: Vec<char>)
    ensures
        r@ == video_line(l@, views(pref@)),
{
    let parts = split_words(l);
    if parts.len() < 4 {
        return chars_from(l, 0);
    }
    let mut head: Vec<Vec<char>> = Vec::new();
    let mut k: usize = 0;
    while k < 3
        invariant
            parts@.len() >= 4,
            k <= 3,
            head@.len() == k,
            views(head@) == views(parts@).subrange(0, k as int),
        decreases 3 - k,
    {
        let w = chars_from(&parts[k], 0);
        proof {
            assert(parts@[k as int]@.subrange(0, parts@[k as int]@.len() as int) =~= parts@[k as int]@);
            assert(views(parts@)[k as int] == w@);
        }
        let ghost prev = head@;
        let ghost wv = w@;
        head.push(w);
        proof {
            assert(head@[k as int]@ == wv);
            assert(views(head@)[k - 0] == wv);
            assert forall|i: int| 0 <= i < k + 1 implies views(head@)[i - 0] == views(parts@)[i] by {
                if i < k {
                    assert(views(prev)[i - 0] == views(parts@).subrange(0, k as int)[i - 0]);
                }
            }
        }
        k = k + 1;
        proof {
            assert(views(head@) =~= views(parts@).subrange(0, k as int));
        }
    }
    let mut rest: Vec<Vec<char>> = Vec::new();
    while k < parts.len()
        invariant
            3 <= k <= parts@.len(),
            rest@.len() == k - 3,
            views(rest@) == views(parts@).subrange(3, k as int),
        decreases parts@.len() - k,
    {
        let w = chars_from(&parts[k], 0);
        proof {
            assert(parts@[k as int]@.subrange(0, parts@[k as int]@.len() as int) =~= parts@[k as int]@);
            assert(views(parts@)[k as int] == w@);
        }
        let ghost prev = rest@;
        let ghost wv = w@;
        rest.push(w);
        proof {
            assert(rest@[k - 3]@ == wv);
            assert(views(rest@)[k - 3] == wv);
            assert forall|i: int| 3 <= i < k + 1 implies views(rest@)[i - 3] == views(parts@)[i] by {
                if i < k {
                    assert(views(prev)[i - 3] == views(parts@).subrange(3, k as int)[i - 3]);
                }
            }
        }
        k = k + 1;
        proof {
            assert(views(rest@) =~= views(parts@).subrange(3, k as int));
        }
    }
    let kept = keep_listed_words(&rest, pref);
    if kept.len() == 0 {
        proof {
            assert(l@.subrange(0, l@.len() as int) =~= l@);
        }
        return chars_from(l, 0);
    }
    let space = chars_of(" ");
    let a = join_lines(&head, &space);
    let b = join_lines(&kept, &space);
    let ab = concat(&a, &space);
    concat(&ab, &b)
}

/// Keeps only the requested codec in the video section: the `m=video` line
/// lists just its payload types, and `a=rtpmap`, `a=fmtp` and `a=rtcp-fb`
/// lines of other payload types are dropped. When the offer has no payload
/// type for the codec, it is returned unchanged.
pub fn prefer_codec(sdp: &str, codec: &VideoCodec) -> (r: String)
    ensures
        ({
            let ls = lines(sdp@);
            let pref = preferred(ls, codec_name(*codec), ls.len() as int);
            if pref.len() == 0 {
                r@ == sdp@
            } else {
                r@ == join(filtered(ls, pref, ls.len() as int), line_ending(sdp@))
            }
        }),
{
    let name = match codec {
        VideoCodec::H264 => chars_of("H264"),
        VideoCodec::H265 => chars_of("H265"),
        VideoCodec::AV1 => chars_of("AV1"),
    };
    let text = chars_of(sdp);
    let le = line_ending_of(&text);
    let ls = split_lines(&text);
    let m_video = chars_of("m=video");
    let m_any = chars_of("m=");
    let rtpmap = chars_of("a=rtpmap:");
    let fmtp = chars_of("a=fmtp:");
    let rtcp_fb = chars_of("a=rtcp-fb:");
    proof {
        reveal_strlit("a=rtpmap:");
        reveal_strlit("a=fmtp:");
        reveal_strlit("a=rtcp-fb:");
    }
    let ghost l = lines(sdp@);
    let mut pref: Vec<Vec<char>> = Vec::new();
    let mut in_vid = false;
    let mut k: usize = 0;
    while k < ls.len()
        invariant
            views(ls@) == l,
            name@ == codec_name(*codec),
            m_video@ == "m=video"@,
            m_any@ == "m="@,
            rtpmap@ == "a=rtpmap:"@,
            rtpmap@.len() == 9,
            k <= ls@.len(),
            in_vid == in_video(l, k - 1),
            views(pref@) == preferred(l, name@, k as int),
        decreases ls@.len() - k,
    {
        let line = &ls[k];
        proof {
            assert(l[k as int] == line@);
        }
        if has_prefix(line, &m_video) {
            in_vid = true;
        } else if has_prefix(line, &m_any) {
            in_vid = false;
        }
        if has_prefix(line, &rtpmap) {
            let rest = chars_from(line, 9);
            let w = split_words(&rest);
            if w.len() >= 2 {
                let c = normalize_codec_name(&prefix_before(&w[1], '/'));
                proof {
                    assert(views(w@)[1] == w@[1]@);
                    assert(views(w@)[0] == w@[0]@);
                }
                if in_vid && same_chars(&c, &name) {
                    pref.push(chars_from(&w[0], 0));
                    proof {
                        assert(w@[0]@.subrange(0, w@[0]@.len() as int) =~= w@[0]@);
                        assert(views(pref@) =~= preferred(l, name@, k + 1));
                    }
                }
            }
        }
        k = k + 1;
    }
    if pref.len() == 0 {
        return string_of(&text);
    }
    let mut out: Vec<Vec<char>> = Vec::new();
    let mut in_vid = false;
    let mut k: usize = 0;
    while k < ls.len()
        invariant
            views(ls@) == l,
            m_video@ == "m=video"@,
            m_any@ == "m="@,
            rtpmap@ == "a=rtpmap:"@,
            fmtp@ == "a=fmtp:"@,
            rtcp_fb@ == "a=rtcp-fb:"@,
            rtpmap@.len() == 9,
            fmtp@.len() == 7,
            rtcp_fb@.len() == 10,
            k <= ls@.len(),
            in_vid == in_video(l, k - 1),
            views(out@) == filtered(l, views(pref@), k as int),
        decreases ls@.len() - k,
    {
        let line = &ls[k];
        proof {
            assert(l[k as int] == line@);
        }
        if has_prefix(line, &m_video) {
            in_vid = true;
            out.push(rewrite_video_line(line, &pref));
            proof {
                assert(views(out@) =~= filtered(l, views(pref@), k + 1));
            }
        } else {
            if has_prefix(line, &m_any) {
                in_vid = false;
            }
            let mut drop = false;
            if in_vid {
                let rest = if has_prefix(line, &rtpmap) {
                    Some(chars_from(line, 9))
                } else if has_prefix(line, &fmtp) {
                    Some(chars_from(line, 7))
                } else if has_prefix(line, &rtcp_fb) {
                    Some(chars_from(line, 10))
                } else {
                    None
                };
                match rest {
                    Some(r) => {
                        let w = split_words(&r);
                        let pt = if w.len() > 0 {
                            proof {
                                assert(views(w@)[0] == w@[0]@);
                            }
                            chars_from(&w[0], 0)
                        } else {
                            Vec::new()
                        };
                        proof {
                            if w@.len() > 0 {
                                assert(w@[0]@.subrange(0, w@[0]@.len() as int) =~= w@[0]@);
                            } else {
                                assert(pt@ =~= Seq::<char>::empty());
                            }
                        }
                        drop = !list_contains(&pref, &pt);
                    },
                    None => {},
                }
            }
            if !drop {
                out.push(chars_from(line, 0));
                proof {
                    assert(line@.subrange(0, line@.len() as int) =~= line@);
                }
            }
            proof {
                assert(views(out@) =~= filtered(l, views(pref@), k + 1));
            }
        }
        k = k + 1;
    }
    let joined = join_lines(&out, &le);
    string_of(&joined)
}

pub open spec fn is_digit(c: char) -> bool {
    '0' <= c && c <= '9'
}

/// Decimal value of a run of digits.
pub open spec fn dec_value(d: Seq<char>) -> nat
    decreases d.len(),
{
    if d.len() == 0 {
        0
    } else {
        dec_value(d.drop_last()) * 10 + ((d.last() as u32) - ('0' as u32)) as nat
    }
}

pub open spec fn all_digits(d: Seq<char>) -> bool {
    forall|i: int| 0 <= i < d.len() ==> is_digit(#[trigger] d[i])
}

/// `w` without a leading `+`.
pub open spec fn unsigned_part(w: Seq<char>) -> Seq<char> {
    if w.len() > 0 && w[0] == '+' {
        w.subrange(1, w.len() as int)
    } else {
        w
    }
}

/// An unsigned 32-bit decimal number, with an optional leading `+`.
pub open spec fn parse_u32(w: Seq<char>) -> Option<nat> {
    let d = unsigned_part(w);
    if d.len() > 0 && all_digits(d) && dec_value(d) <= u32::MAX {
        Some(dec_value(d))
    } else {
        None
    }
}

/// Whether `w` parses as the number `n`.
fn parses_as(w: &Vec<char>, n: u32) -> (r: bool)
    ensures
        r == (parse_u32(w@) == Some(n as nat)),
{
    let start: usize = if w.len() > 0 && w[0] == '+' {
        1
    } else {
        0
    };
    let ghost d = w@.subrange(start as int, w@.len() as int);
    proof {
        if !(w@.len() > 0 && w@[0] == '+') {
            assert(d =~= w@);
        }
    }
    if start == w.len() {
        return false;
    }
    let cap: u64 = 0x1_0000_0000;
    let mut acc: u64 = 0;
    let mut i: usize = start;
    while i < w.len()
        invariant
            start <= i <= w@.len(),
            start == (if w@.len() > 0 && w@[0] == '+' {
                1usize
            } else {
                0usize
            }),
            d == w@.subrange(start as int, w@.len() as int),
            cap == 0x1_0000_0000,
            forall|j: int| start <= j < i ==> is_digit(#[trigger] w@[j]),
            acc <= cap,
            acc < cap ==> acc == dec_value(w@.subrange(start as int, i as int)),
            acc == cap ==> dec_value(w@.subrange(start as int, i as int)) >= cap,
        decreases w@.len() - i,
    {
        let c = w[i];
        if !('0' <= c && c <= '9') {
            proof {
                let sd = unsigned_part(w@);
                assert(sd =~= d);
                assert(sd[i - start] == c);
                assert(!all_digits(sd));
                assert(parse_u32(w@) is None);
            }
            return false;
        }
        let digit: u64 = (c as u32 - '0' as u32) as u64;
        proof {
            assert(w@.subrange(start as int, i + 1).drop_last() =~= w@.subrange(start as int, i as int));
        }
        if acc < cap {
            let next = acc * 10 + digit;
            acc = if next >= cap {
                cap
            } else {
                next
            };
        }
        i = i + 1;
    }
    proof {
        assert(w@.subrange(start as int, w@.len() as int) == d);
        assert forall|j: int| 0 <= j < d.len() implies is_digit(#[trigger] d[j]) by {
            assert(d[j] == w@[start + j]);
        }
    }
    acc == n as u64
}

/// The SSRC an `a=ssrc` line declares.
pub open spec fn ssrc_of(l: Seq<char>) -> Option<nat> {
    if starts_with(l, "a=ssrc:"@) {
        let w = words(l.subrange(7, l.len() as int));
        if w.len() > 0 {
            parse_u32(w[0])
        } else {
            None
        }
    } else {
        None
    }
}

/// Whether a video-section line declares SSRC `n`.
pub open spec fn declared(ls: Seq<Seq<char>>, n: nat) -> bool {
    exists|k: int| 0 <= k < ls.len() && in_video(ls, k) && #[trigger] ssrc_of(ls[k]) == Some(n)
}

/// The provisional SSRCs 2, 3 and 4 that no video line declares yet.
pub open spec fn to_inject(ls: Seq<Seq<char>>) -> Seq<nat> {
    let a: Seq<nat> = if declared(ls, 2) {
        Seq::empty()
    } else {
        seq![2nat]
    };
    let b: Seq<nat> = if declared(ls, 3) {
        a
    } else {
        a.push(3nat)
    };
    if declared(ls, 4) {
        b
    } else {
        b.push(4nat)
    }
}

/// Stream and track of the last `a=msid` line of a video section among the
/// first `n` lines.
pub open spec fn video_msid(ls: Seq<Seq<char>>, n: int) -> Option<(Seq<char>, Seq<char>)>
    decreases n,
{
    if n <= 0 {
        None
    } else {
        let l = ls[n - 1];
        let w = words(l.subrange(7, l.len() as int));
        if in_video(ls, n - 1) && starts_with(l, "a=msid:"@) && w.len() >= 2 {
            Some((w[0], w[1]))
        } else {
            video_msid(ls, n - 1)
        }
    }
}

/// Index of the last `a=ssrc` line of a video section among the first `n`.
pub open spec fn last_ssrc(ls: Seq<Seq<char>>, n: int) -> Option<int>
    decreases n,
{
    if n <= 0 {
        None
    } else if in_video(ls, n - 1) && starts_with(ls[n - 1], "a=ssrc:"@) {
        Some(n - 1)
    } else {
        last_ssrc(ls, n - 1)
    }
}

/// Index of the last media line among the first `n` that ends a video section.
pub open spec fn video_end(ls: Seq<Seq<char>>, n: int) -> Option<int>
    decreases n,
{
    if n <= 0 {
        None
    } else if !starts_with(ls[n - 1], "m=video"@) && starts_with(ls[n - 1], "m="@) && in_video(
        ls,
        n - 2,
    ) {
        Some(n - 1)
    } else {
        video_end(ls, n - 1)
    }
}

pub open spec fn has_video(ls: Seq<Seq<char>>) -> bool {
    exists|k: int| 0 <= k < ls.len() && starts_with(#[trigger] ls[k], "m=video"@)
}

/// Where the new lines go: after the last video `a=ssrc` line, else before
/// the media line that ends the video section, else at the end.
pub open spec fn insert_at(ls: Seq<Seq<char>>) -> int {
    match last_ssrc(ls, ls.len() as int) {
        Some(k) => k + 1,
        None => match video_end(ls, ls.len() as int) {
            Some(e) => e,
            None => ls.len() as int,
        },
    }
}

pub open spec fn digit_char(n: nat) -> char {
    if n == 2 {
        '2'
    } else if n == 3 {
        '3'
    } else {
        '4'
    }
}

/// `a=ssrc:<n> msid:<stream> <track>`.
pub open spec fn msid_line(n: nat, stream: Seq<char>, track: Seq<char>) -> Seq<char> {
    "a=ssrc:"@ + seq![digit_char(n)] + " msid:"@ + stream + " "@ + track
}

/// `a=ssrc:<n> cname:odrerir`.
pub open spec fn cname_line(n: nat) -> Seq<char> {
    "a=ssrc:"@ + seq![digit_char(n)] + " cname:odrerir"@
}

/// The two declaration lines for each SSRC of `ns`.
pub open spec fn ssrc_block(ns: Seq<nat>, stream: Seq<char>, track: Seq<char>) -> Seq<Seq<char>>
    decreases ns.len(),
{
    if ns.len() == 0 {
        Seq::empty()
    } else {
        ssrc_block(ns.drop_last(), stream, track).push(msid_line(ns.last(), stream, track)).push(
            cname_line(ns.last()),
        )
    }
}

/// The lines with the declarations of the missing provisional SSRCs added.
pub open spec fn injected_lines(ls: Seq<Seq<char>>) -> Seq<Seq<char>> {
    let (stream, track) = match video_msid(ls, ls.len() as int) {
        Some(m) => m,
        None => ("odrerir"@, "video"@),
    };
    let p = insert_at(ls);
    ls.subrange(0, p) + ssrc_block(to_inject(ls), stream, track) + ls.subrange(p, ls.len() as int)
}

fn push_all(out: &mut Vec<char>, more: &Vec<char>)
    ensures
        final(out)@ == old(out)@ + more@,
{
    let mut i: usize = 0;
    while i < more.len()
        invariant
            i <= more@.len(),
            out@ == old(out)@ + more@.subrange(0, i as int),
        decreases more@.len() - i,
    {
        out.push(more[i]);
        i = i + 1;
        proof {
            assert(out@ =~= old(out)@ + more@.subrange(0, i as int));
        }
    }
    proof {
        assert(more@.subrange(0, more@.len() as int) =~= more@);
    }
}

/// What one pass over the lines finds: whether a video section exists,
/// which provisional SSRCs it declares, its stream and track, the last `a=ssrc`
/// line and the line that ends the section.
struct SsrcScan {
    seen_video: bool,
    has2: bool,
    has3: bool,
    has4: bool,
    found_msid: bool,
    stream: Vec<char>,
    track: Vec<char>,
    last: Option<usize>,
    end: Option<usize>,
}

fn scan_ssrcs(ls: &Vec<Vec<char>>) -> (r: SsrcScan)
    ensures
        ({
            let l = views(ls@);
            &&& r.seen_video == has_video(l)
            &&& r.has2 == declared(l, 2)
            &&& r.has3 == declared(l, 3)
            &&& r.has4 == declared(l, 4)
            &&& r.found_msid ==> video_msid(l, l.len() as int) == Some((r.stream@, r.track@))
            &&& !r.found_msid ==> video_msid(l, l.len() as int) is None && r.stream@ == "odrerir"@
                && r.track@ == "video"@
            &&& match r.last {
                Some(x) => last_ssrc(l, l.len() as int) == Some(x as int) && x < l.len(),
                None => last_ssrc(l, l.len() as int) is None,
            }
            &&& match r.end {
                Some(x) => video_end(l, l.len() as int) == Some(x as int) && x < l.len(),
                None => video_end(l, l.len() as int) is None,
            }
        }),
{
    let m_video = chars_of("m=video");
    let m_any = chars_of("m=");
    let ssrc = chars_of("a=ssrc:");
    let msid = chars_of("a=msid:");
    proof {
        reveal_strlit("a=ssrc:");
        reveal_strlit("a=msid:");
    }
    let ghost l = views(ls@);
    let mut in_vid = false;
    let mut seen_video = false;
    let mut has2 = false;
    let mut has3 = false;
    let mut has4 = false;
    let mut stream: Vec<char> = chars_of("odrerir");
    let mut track: Vec<char> = chars_of("video");
    let mut found_msid = false;
    let mut last: Option<usize> = None;
    let mut end: Option<usize> = None;
    let mut k: usize = 0;
    while k < ls.len()
        invariant
            views(ls@) == l,
            m_video@ == "m=video"@,
            m_any@ == "m="@,
            ssrc@ == "a=ssrc:"@,
            msid@ == "a=msid:"@,
            ssrc@.len() == 7,
            msid@.len() == 7,
            k <= ls@.len(),
            in_vid == in_video(l, k - 1),
            seen_video == exists|j: int| 0 <= j < k && starts_with(#[trigger] l[j], "m=video"@),
            has2 == exists|j: int| 0 <= j < k && in_video(l, j) && #[trigger] ssrc_of(l[j]) == Some(2nat),
            has3 == exists|j: int| 0 <= j < k && in_video(l, j) && #[trigger] ssrc_of(l[j]) == Some(3nat),
            has4 == exists|j: int| 0 <= j < k && in_video(l, j) && #[trigger] ssrc_of(l[j]) == Some(4nat),
            found_msid ==> video_msid(l, k as int) == Some((stream@, track@)),
            !found_msid ==> video_msid(l, k as int) is None && stream@ == "odrerir"@ && track@ == "video"@,
            match last {
                Some(x) => last_ssrc(l, k as int) == Some(x as int) && x < k,
                None => last_ssrc(l, k as int) is None,
            },
            match end {
                Some(x) => video_end(l, k as int) == Some(x as int) && x < k,
                None => video_end(l, k as int) is None,
            },
        decreases ls@.len() - k,
    {
        let line = &ls[k];
        proof {
            assert(l[k as int] == line@);
        }
        let prev_in = in_vid;
        if has_prefix(line, &m_video) {
            in_vid = true;
            seen_video = true;
        } else if has_prefix(line, &m_any) {
            if prev_in {
                end = Some(k);
            }
            in_vid = false;
        }
        if in_vid && has_prefix(line, &ssrc) {
            last = Some(k);
            let rest = chars_from(line, 7);
            let w = split_words(&rest);
            if w.len() > 0 {
                proof {
                    assert(views(w@)[0] == w@[0]@);
                }
                if parses_as(&w[0], 2) {
                    has2 = true;
                }
                if parses_as(&w[0], 3) {
                    has3 = true;
                }
                if parses_as(&w[0], 4) {
                    has4 = true;
                }
            }
        }
        if in_vid && has_prefix(line, &msid) {
            let rest = chars_from(line, 7);
            let w = split_words(&rest);
            if w.len() >= 2 {
                proof {
                    assert(views(w@)[0] == w@[0]@);
                    assert(views(w@)[1] == w@[1]@);
                    assert(w@[0]@.subrange(0, w@[0]@.len() as int) =~= w@[0]@);
                    assert(w@[1]@.subrange(0, w@[1]@.len() as int) =~= w@[1]@);
                }
                stream = chars_from(&w[0], 0);
                track = chars_from(&w[1], 0);
                found_msid = true;
            }
        }
        proof {
            let k1 = k + 1;
            assert forall|n: nat| (exists|j: int| 0 <= j < k1 && in_video(l, j) && #[trigger] ssrc_of(l[j]) == Some(n)) <==> ((exists|j: int| 0 <= j < k && in_video(l, j) && #[trigger] ssrc_of(l[j]) == Some(n)) || (in_video(l, k as int) && ssrc_of(l[k as int]) == Some(n))) by {
                if in_video(l, k as int) && ssrc_of(l[k as int]) == Some(n) {
                    assert(0 <= k < k1);
                }
            }
            assert((exists|j: int| 0 <= j < k1 && starts_with(#[trigger] l[j], "m=video"@)) <==> ((exists|j: int| 0 <= j < k && starts_with(#[trigger] l[j], "m=video"@)) || starts_with(l[k as int], "m=video"@)));
        }
        k = k + 1;
    }
    proof {
        assert(declared(l, 2) == has2);
        assert(declared(l, 3) == has3);
        assert(declared(l, 4) == has4);
    }
    SsrcScan { seen_video, has2, has3, has4, found_msid, stream, track, last, end }
}

/// The lines with the declaration block for `ns` put before line `p`.
fn build_injected(
    ls: &Vec<Vec<char>>,
    p: usize,
    ns: &Vec<u32>,
    stream: &Vec<char>,
    track: &Vec<char>,
) -> (r: Vec<Vec<char>>)
    requires
        p <= ls@.len(),
        forall|j: int| 0 <= j < ns@.len() ==> 2 <= #[trigger] ns@[j] <= 4,
    ensures
        ({
            let l = views(ls@);
            views(r@) == l.subrange(0, p as int) + ssrc_block(
                ns@.map_values(|x: u32| x as nat),
                stream@,
                track@,
            ) + l.subrange(p as int, l.len() as int)
        }),
{
    let ghost l = views(ls@);
    let ghost nsv = ns@.map_values(|x: u32| x as nat);
    let ghost st = stream@;
    let ghost tr = track@;
    let mut block: Vec<Vec<char>> = Vec::new();
    let mut i: usize = 0;
    while i < ns.len()
        invariant
            i <= ns@.len(),
            nsv == ns@.map_values(|x: u32| x as nat),
            forall|j: int| 0 <= j < ns@.len() ==> 2 <= #[trigger] ns@[j] <= 4,
            st == stream@,
            tr == track@,
            views(block@) == ssrc_block(nsv.subrange(0, i as int), st, tr),
        decreases ns@.len() - i,
    {
        let n = ns[i];
        let digit = if n == 2 {
            '2'
        } else if n == 3 {
            '3'
        } else {
            '4'
        };
        let mut a = chars_of("a=ssrc:");
        a.push(digit);
        let mut b = chars_from(&a, 0);
        push_all(&mut a, &chars_of(" msid:"));
        push_all(&mut a, stream);
        push_all(&mut a, &chars_of(" "));
        push_all(&mut a, track);
        push_all(&mut b, &chars_of(" cname:odrerir"));
        let ghost prev = block@;
        let ghost av = a@;
        let ghost bv = b@;
        block.push(a);
        block.push(b);
        proof {
            let sub = nsv.subrange(0, i + 1);
            assert(sub.drop_last() =~= nsv.subrange(0, i as int));
            assert(sub.last() == n as nat);
            assert(av =~= msid_line(n as nat, st, tr));
            assert(bv =~= cname_line(n as nat));
            assert(views(block@) =~= views(prev).push(av).push(bv));
        }
        i = i + 1;
    }
    proof {
        assert(nsv.subrange(0, ns@.len() as int) =~= nsv);
    }
    let mut out: Vec<Vec<char>> = Vec::new();
    let mut k: usize = 0;
    while k < p
        invariant
            k <= p <= ls@.len(),
            views(out@) == l.subrange(0, k as int),
            views(ls@) == l,
        decreases p - k,
    {
        let c = chars_from(&ls[k], 0);
        proof {
            assert(ls@[k as int]@.subrange(0, ls@[k as int]@.len() as int) =~= l[k as int]);
        }
        let ghost prev = out@;
        out.push(c);
        proof {
            assert(views(out@) =~= views(prev).push(l[k as int]));
        }
        k = k + 1;
        proof {
            assert(views(out@) =~= l.subrange(0, k as int));
        }
    }
    let ghost head = views(out@);
    let mut j: usize = 0;
    while j < block.len()
        invariant
            j <= block@.len(),
            views(out@) == head + views(block@).subrange(0, j as int),
        decreases block@.len() - j,
    {
        let c = chars_from(&block[j], 0);
        proof {
            assert(block@[j as int]@.subrange(0, block@[j as int]@.len() as int) =~= block@[j as int]@);
        }
        let ghost prev = out@;
        out.push(c);
        proof {
            assert(views(out@) =~= views(prev).push(block@[j as int]@));
        }
        j = j + 1;
        proof {
            assert(views(out@) =~= head + views(block@).subrange(0, j as int));
        }
    }
    proof {
        assert(views(block@).subrange(0, block@.len() as int) =~= views(block@));
    }
    let ghost mid = views(out@);
    while k < ls.len()
        invariant
            p <= k <= ls@.len(),
            views(out@) == mid + l.subrange(p as int, k as int),
            views(ls@) == l,
        decreases ls@.len() - k,
    {
        let c = chars_from(&ls[k], 0);
        proof {
            assert(ls@[k as int]@.subrange(0, ls@[k as int]@.len() as int) =~= l[k as int]);
        }
        let ghost prev = out@;
        out.push(c);
        proof {
            assert(views(out@) =~= views(prev).push(l[k as int]));
        }
        k = k + 1;
        proof {
            assert(views(out@) =~= mid + l.subrange(p as int, k as int));
        }
    }
    proof {
        assert(views(out@) =~= l.subrange(0, p as int) + ssrc_block(nsv, st, tr) + l.subrange(
            p as int,
            l.len() as int,
        ));
    }
    out
}

/// Declares the SSRCs 2, 3 and 4 in the video section, where not declared
/// yet, so that the transport accepts the packets the server sends under them
/// after a resolution change. Each gets an `msid` line, with the stream and
/// track of the section's `a=msid` line, and a `cname` line. When all three
/// are declared, or there is no video section, the description is returned
/// unchanged; otherwise it is rebuilt from its lines with its own line ending.
pub fn inject_provisional_ssrcs(sdp: &str) -> (r: String)
    ensures
        ({
            let ls = lines(sdp@);
            if to_inject(ls).len() == 0 {
                r@ == sdp@
            } else if !has_video(ls) {
                r@ == sdp@
            } else {
                r@ == join(injected_lines(ls), line_ending(sdp@))
            }
        }),
{
    let text = chars_of(sdp);
    let le = line_ending_of(&text);
    let ls = split_lines(&text);
    let ghost l = lines(sdp@);
    let scan = scan_ssrcs(&ls);
    if scan.has2 && scan.has3 && scan.has4 {
        return string_of(&text);
    }
    proof {
        assert(to_inject(l).len() > 0);
    }
    if !scan.seen_video {
        return string_of(&text);
    }
    let n = ls.len();
    proof {
        assert(views(ls@).len() == n);
    }
    let p: usize = match scan.last {
        Some(x) => x + 1,
        None => match scan.end {
            Some(e) => e,
            None => ls.len(),
        },
    };
    let mut ns: Vec<u32> = Vec::new();
    if !scan.has2 {
        ns.push(2);
    }
    if !scan.has3 {
        ns.push(3);
    }
    if !scan.has4 {
        ns.push(4);
    }
    proof {
        assert(ns@.map_values(|x: u32| x as nat) =~= to_inject(l));
    }
    let out = build_injected(&ls, p, &ns, &scan.stream, &scan.track);
    proof {
        assert(views(out@) == injected_lines(l));
    }
    let joined = join_lines(&out, &le);
    string_of(&joined)
}

proof fn lemma_in_video_prefix(a: Seq<Seq<char>>, b: Seq<Seq<char>>, m: int, k: int)
    requires
        k < m <= a.len(),
        m <= b.len(),
        a.subrange(0, m) == b.subrange(0, m),
    ensures
        in_video(a, k) == in_video(b, k),
    decreases k + 1,
{
    if k >= 0 {
        assert(a[k] == a.subrange(0, m)[k]);
        assert(b[k] == b.subrange(0, m)[k]);
        lemma_in_video_prefix(a, b, m, k - 1);
    }
}

proof fn lemma_last_ssrc_in_video(ls: Seq<Seq<char>>, n: int)
    ensures
        last_ssrc(ls, n) matches Some(k) ==> 0 <= k < n && in_video(ls, k),
    decreases n,
{
    if n > 0 {
        lemma_last_ssrc_in_video(ls, n - 1);
    }
}

proof fn lemma_video_end_in_video(ls: Seq<Seq<char>>, n: int)
    ensures
        video_end(ls, n) matches Some(e) ==> 1 <= e < n && in_video(ls, e - 1),
    decreases n,
{
    if n > 0 {
        lemma_video_end_in_video(ls, n - 1);
    }
}

proof fn lemma_section_open_at_end(ls: Seq<Seq<char>>, n: int, k0: int)
    requires
        0 <= k0 < n <= ls.len(),
        starts_with(ls[k0], "m=video"@),
        video_end(ls, n) is None,
    ensures
        in_video(ls, n - 1),
    decreases n,
{
    if n - 1 > k0 {
        assert(video_end(ls, n - 1) is None);
        lemma_section_open_at_end(ls, n - 1, k0);
    }
}

/// Where the declarations go, a video section is open just before.
proof fn lemma_insert_point(ls: Seq<Seq<char>>)
    requires
        has_video(ls),
    ensures
        1 <= insert_at(ls) <= ls.len(),
        in_video(ls, insert_at(ls) - 1),
{
    let n = ls.len() as int;
    lemma_last_ssrc_in_video(ls, n);
    lemma_video_end_in_video(ls, n);
    if last_ssrc(ls, n) is None && video_end(ls, n) is None {
        let k0 = choose|k: int| 0 <= k < ls.len() && starts_with(#[trigger] ls[k], "m=video"@);
        lemma_section_open_at_end(ls, n, k0);
    }
}

proof fn lemma_words_head(c: char, rest: Seq<char>)
    requires
        !is_ws(c),
    ensures
        words(seq![c, ' '] + rest).len() >= 1,
        words(seq![c, ' '] + rest)[0] == seq![c],
        words(seq![c, ' '] + rest).len() >= 2 || forall|i: int|
            0 <= i < rest.len() ==> is_ws(#[trigger] rest[i]),
    decreases rest.len(),
{
    let x = seq![c, ' '] + rest;
    if rest.len() == 0 {
        assert(x.drop_last() =~= seq![c]);
        assert(seq![c].drop_last() =~= Seq::<char>::empty());
        assert(words(Seq::<char>::empty()) =~= Seq::<Seq<char>>::empty());
        assert(words(seq![c]) =~= seq![seq![c]]);
        assert(words(x) == words(seq![c]));
    } else {
        let r2 = rest.drop_last();
        assert(x.drop_last() =~= seq![c, ' '] + r2);
        lemma_words_head(c, r2);
        let w0 = words(x.drop_last());
        if is_ws(x.last()) {
            assert(words(x) == w0);
            if w0.len() < 2 {
                assert forall|i: int| 0 <= i < rest.len() implies is_ws(#[trigger] rest[i]) by {
                    if i < r2.len() {
                        assert(rest[i] == r2[i]);
                    } else {
                        assert(rest[i] == x.last());
                    }
                }
            }
        } else if x.len() >= 2 && !is_ws(x[x.len() - 2]) {
            if r2.len() == 0 {
                assert(x[x.len() - 2] == ' ');
            } else {
                assert(x[x.len() - 2] == r2[r2.len() - 1]);
            }
            assert(w0.len() >= 2);
            assert(words(x) == w0.update(w0.len() - 1, w0.last().push(x.last())));
            assert(words(x)[0] == w0[0]);
        } else {
            assert(words(x) == w0.push(seq![x.last()]));
            assert(words(x)[0] == w0[0]);
        }
    }
}

proof fn lemma_ssrc_lines(n: nat, stream: Seq<char>, track: Seq<char>)
    requires
        2 <= n <= 4,
    ensures
        ssrc_of(msid_line(n, stream, track)) == Some(n),
        ssrc_of(cname_line(n)) == Some(n),
        !starts_with(msid_line(n, stream, track), "m="@),
        !starts_with(cname_line(n), "m="@),
{
    reveal_strlit("a=ssrc:");
    reveal_strlit(" msid:");
    reveal_strlit(" cname:odrerir");
    reveal_strlit("m=");
    let d = digit_char(n);
    let m = msid_line(n, stream, track);
    let c = cname_line(n);
    let mrest = "msid:"@ + stream + " "@ + track;
    reveal_strlit("msid:");
    assert(m.subrange(0, 7) =~= "a=ssrc:"@);
    assert(m.subrange(7, m.len() as int) =~= seq![d, ' '] + mrest);
    assert(c.subrange(0, 7) =~= "a=ssrc:"@);
    reveal_strlit("cname:odrerir");
    assert(c.subrange(7, c.len() as int) =~= seq![d, ' '] + "cname:odrerir"@);
    lemma_words_head(d, mrest);
    lemma_words_head(d, "cname:odrerir"@);
    assert(unsigned_part(seq![d]) =~= seq![d]);
    assert(seq![d].drop_last() =~= Seq::<char>::empty());
    assert(dec_value(seq![d]) == dec_value(Seq::<char>::empty()) * 10 + ((d as u32) - ('0' as u32)) as nat);
    if n == 2 {
        assert(d == '2');
        assert(('2' as u32) - ('0' as u32) == 2);
    } else if n == 3 {
        assert(d == '3');
        assert(('3' as u32) - ('0' as u32) == 3);
    } else {
        assert(d == '4');
        assert(('4' as u32) - ('0' as u32) == 4);
    }
    assert(dec_value(seq![d]) == n);
    assert(all_digits(seq![d]));
    assert(m[0] == 'a');
    assert(c[0] == 'a');
    assert(m.subrange(0, 2)[0] == 'a');
    assert(c.subrange(0, 2)[0] == 'a');
}

proof fn lemma_block_lines(ns: Seq<nat>, stream: Seq<char>, track: Seq<char>)
    requires
        forall|i: int| 0 <= i < ns.len() ==> 2 <= #[trigger] ns[i] <= 4,
    ensures
        ssrc_block(ns, stream, track).len() == 2 * ns.len(),
        forall|i: int|
            0 <= i < ns.len() ==> #[trigger] ssrc_block(ns, stream, track)[2 * i] == msid_line(
                ns[i],
                stream,
                track,
            ),
        forall|j: int|
            0 <= j < 2 * ns.len() ==> !starts_with(#[trigger] ssrc_block(ns, stream, track)[j], "m="@),
    decreases ns.len(),
{
    if ns.len() > 0 {
        let front = ns.drop_last();
        lemma_block_lines(front, stream, track);
        lemma_ssrc_lines(ns.last(), stream, track);
        let b = ssrc_block(ns, stream, track);
        let fb = ssrc_block(front, stream, track);
        assert forall|i: int| 0 <= i < ns.len() implies #[trigger] b[2 * i] == msid_line(
            ns[i],
            stream,
            track,
        ) by {
            if i < front.len() {
                assert(b[2 * i] == fb[2 * i]);
                assert(ns[i] == front[i]);
            }
        }
        assert forall|j: int| 0 <= j < 2 * ns.len() implies !starts_with(#[trigger] b[j], "m="@) by {
            if j < 2 * front.len() {
                assert(b[j] == fb[j]);
            }
        }
    }
}

proof fn lemma_in_video_block(out: Seq<Seq<char>>, p: int, blen: int, j: int)
    requires
        1 <= p,
        0 <= j < blen,
        p + blen <= out.len(),
        forall|x: int| p <= x < p + blen ==> !starts_with(#[trigger] out[x], "m="@),
    ensures
        in_video(out, p + j) == in_video(out, p - 1),
    decreases j,
{
    reveal_strlit("m=");
    reveal_strlit("m=video");
    assert(!starts_with(out[p + j], "m="@));
    if starts_with(out[p + j], "m=video"@) {
        assert(out[p + j].subrange(0, 2) =~= "m="@) by {
            assert(out[p + j].subrange(0, 7)[0] == 'm');
            assert(out[p + j].subrange(0, 7)[1] == '=');
        }
    }
    if j > 0 {
        lemma_in_video_block(out, p, blen, j - 1);
    }
}

proof fn lemma_in_video_after_block(
    ls: Seq<Seq<char>>,
    out: Seq<Seq<char>>,
    p: int,
    blen: int,
    k: int,
)
    requires
        1 <= p <= k < ls.len(),
        0 <= blen,
        out.len() == ls.len() + blen,
        forall|x: int| p <= x < ls.len() ==> out[x + blen] == #[trigger] ls[x],
        in_video(out, p + blen - 1) == in_video(ls, p - 1),
    ensures
        in_video(out, k + blen) == in_video(ls, k),
    decreases k,
{
    assert(out[k + blen] == ls[k]);
    if k > p {
        lemma_in_video_after_block(ls, out, p, blen, k - 1);
    }
}

/// After injection a second run has nothing to add: each of the SSRCs 2, 3
/// and 4 is then declared in a video section of the lines.
pub proof fn lemma_injection_is_complete(ls: Seq<Seq<char>>)
    requires
        has_video(ls),
    ensures
        to_inject(injected_lines(ls)).len() == 0,
{
    let out = injected_lines(ls);
    let (stream, track) = match video_msid(ls, ls.len() as int) {
        Some(m) => m,
        None => ("odrerir"@, "video"@),
    };
    let p = insert_at(ls);
    let ns = to_inject(ls);
    let block = ssrc_block(ns, stream, track);
    lemma_insert_point(ls);
    assert forall|i: int| 0 <= i < ns.len() implies 2 <= #[trigger] ns[i] <= 4 by {}
    lemma_block_lines(ns, stream, track);
    let blen = block.len() as int;
    assert(out =~= ls.subrange(0, p) + block + ls.subrange(p, ls.len() as int));
    assert(out.subrange(0, p) =~= ls.subrange(0, p));
    assert forall|x: int| p <= x < p + blen implies !starts_with(#[trigger] out[x], "m="@) by {
        assert(out[x] == block[x - p]);
    }
    lemma_in_video_prefix(out, ls, p, p - 1);
    assert forall|x: int| p <= x < ls.len() implies out[x + blen] == #[trigger] ls[x] by {}
    if blen > 0 {
        lemma_in_video_block(out, p, blen, blen - 1);
    }
    assert forall|n: nat| 2 <= n <= 4 implies declared(out, n) by {
        if declared(ls, n) {
            let k = choose|k: int| 0 <= k < ls.len() && in_video(ls, k) && #[trigger] ssrc_of(ls[k]) == Some(n);
            if k < p {
                lemma_in_video_prefix(out, ls, p, k);
                assert(out[k] == ls[k]);
                assert(in_video(out, k) && ssrc_of(out[k]) == Some(n));
            } else {
                lemma_in_video_after_block(ls, out, p, blen, k);
                assert(in_video(out, k + blen) && ssrc_of(out[k + blen]) == Some(n));
            }
        } else {
            let a: Seq<nat> = if declared(ls, 2) {
                Seq::empty()
            } else {
                seq![2nat]
            };
            let b: Seq<nat> = if declared(ls, 3) {
                a
            } else {
                a.push(3nat)
            };
            assert(ns == (if declared(ls, 4) {
                b
            } else {
                b.push(4nat)
            }));
            let i: int = if n == 2 {
                0
            } else if n == 3 {
                a.len() as int
            } else {
                b.len() as int
            };
            assert(0 <= i < ns.len() && ns[i] == n);
            lemma_ssrc_lines(n, stream, track);
            lemma_in_video_block(out, p, blen, 2 * i);
            assert(out[p + 2 * i] == block[2 * i]);
            assert(in_video(out, p + 2 * i) && ssrc_of(out[p + 2 * i]) == Some(n));
        }
    }
    assert(declared(out, 2) && declared(out, 3) && declared(out, 4));
}

proof fn lemma_starts_with_strip(l: Seq<char>, p: Seq<char>)
    requires
        l.len() > 0,
        l.last() == '\r',
        forall|i: int| 0 <= i < p.len() ==> #[trigger] p[i] != '\r',
    ensures
        starts_with(l.drop_last(), p) == starts_with(l, p),
{
    let l2 = l.drop_last();
    if p.len() <= l2.len() {
        assert(l2.subrange(0, p.len() as int) =~= l.subrange(0, p.len() as int));
    } else if p.len() == l.len() {
        if starts_with(l, p) {
            assert(l.subrange(0, p.len() as int)[p.len() - 1] == l.last());
        }
    }
}

proof fn lemma_media_prefixes_have_no_cr()
    ensures
        forall|i: int| 0 <= i < "m=video"@.len() ==> #[trigger] "m=video"@[i] != '\r',
        forall|i: int| 0 <= i < "m="@.len() ==> #[trigger] "m="@[i] != '\r',
        forall|i: int| 0 <= i < "a=ssrc:"@.len() ==> #[trigger] "a=ssrc:"@[i] != '\r',
{
    reveal_strlit("m=video");
    reveal_strlit("m=");
    reveal_strlit("a=ssrc:");
}

/// Lines that differ at most by a carriage return at their ends.
pub open spec fn same_but_cr(a: Seq<char>, b: Seq<char>) -> bool {
    a == b || (b.len() > 0 && b.last() == '\r' && a == b.drop_last())
}

proof fn lemma_in_video_close(a: Seq<Seq<char>>, b: Seq<Seq<char>>, k: int)
    requires
        k < a.len(),
        k < b.len(),
        forall|j: int| 0 <= j <= k ==> same_but_cr(#[trigger] a[j], b[j]),
    ensures
        in_video(a, k) == in_video(b, k),
    decreases k + 1,
{
    if k >= 0 {
        lemma_media_prefixes_have_no_cr();
        assert(same_but_cr(a[k], b[k]));
        if a[k] != b[k] {
            lemma_starts_with_strip(b[k], "m=video"@);
            lemma_starts_with_strip(b[k], "m="@);
        }
        lemma_in_video_close(a, b, k - 1);
    }
}

proof fn lemma_ssrc_of_close(a: Seq<char>, b: Seq<char>)
    requires
        same_but_cr(a, b),
    ensures
        ssrc_of(a) == ssrc_of(b),
{
    if a != b {
        lemma_media_prefixes_have_no_cr();
        reveal_strlit("a=ssrc:");
        lemma_starts_with_strip(b, "a=ssrc:"@);
        if starts_with(b, "a=ssrc:"@) {
            if b.len() == 7 {
                assert(b.subrange(0, 7)[6] == b.last());
            }
            let t = b.subrange(7, b.len() as int);
            assert(t.drop_last() =~= a.subrange(7, a.len() as int));
            lemma_words_strip_cr(t);
        }
    }
}

proof fn lemma_msid_no_newline(ls: Seq<Seq<char>>, n: int)
    ensures
        video_msid(ls, n) matches Some((a, b)) ==> no_newline(a) && no_newline(b),
    decreases n,
{
    if n > 0 {
        lemma_msid_no_newline(ls, n - 1);
        let l = ls[n - 1];
        let w = words(l.subrange(7, l.len() as int));
        lemma_words_no_ws(l.subrange(7, l.len() as int));
        if w.len() >= 2 {
            assert forall|i: int| 0 <= i < w[0].len() implies #[trigger] w[0][i] != '\n' by {
                assert(!is_ws(w[0][i]));
            }
            assert forall|i: int| 0 <= i < w[1].len() implies #[trigger] w[1][i] != '\n' by {
                assert(!is_ws(w[1][i]));
            }
        }
    }
}

proof fn lemma_block_no_newline(ns: Seq<nat>, stream: Seq<char>, track: Seq<char>)
    requires
        no_newline(stream),
        no_newline(track),
    ensures
        forall|j: int|
            0 <= j < ssrc_block(ns, stream, track).len() ==> no_newline(
                #[trigger] ssrc_block(ns, stream, track)[j],
            ),
    decreases ns.len(),
{
    if ns.len() > 0 {
        reveal_strlit("a=ssrc:");
        reveal_strlit(" msid:");
        reveal_strlit(" ");
        reveal_strlit(" cname:odrerir");
        lemma_block_no_newline(ns.drop_last(), stream, track);
        let fb = ssrc_block(ns.drop_last(), stream, track);
        let m = msid_line(ns.last(), stream, track);
        let c = cname_line(ns.last());
        assert forall|i: int| 0 <= i < m.len() implies #[trigger] m[i] != '\n' by {
            let p1 = "a=ssrc:"@ + seq![digit_char(ns.last())] + " msid:"@;
            let p2 = p1 + stream + " "@;
            if i < p1.len() {
            } else if i < p1.len() + stream.len() {
                assert(m[i] == stream[i - p1.len()]);
            } else if i < p2.len() {
            } else {
                assert(m[i] == track[i - p2.len()]);
            }
        }
        assert forall|i: int| 0 <= i < c.len() implies #[trigger] c[i] != '\n' by {}
        let b = ssrc_block(ns, stream, track);
        assert forall|j: int| 0 <= j < b.len() implies no_newline(#[trigger] b[j]) by {
            if j < fb.len() {
                assert(b[j] == fb[j]);
            }
        }
    }
}

/// Running the injection on its own result returns that result unchanged:
/// wherever the description has a video section, the SSRCs 2, 3 and 4 are
/// all declared in the lines of what the first run returns.
pub proof fn lemma_inject_idempotent(sdp: Seq<char>)
    requires
        has_video(lines(sdp)),
    ensures
        ({
            let ls = lines(sdp);
            let r = if to_inject(ls).len() == 0 {
                sdp
            } else {
                join(injected_lines(ls), line_ending(sdp))
            };
            to_inject(lines(r)).len() == 0
        }),
{
    let ls = lines(sdp);
    if to_inject(ls).len() > 0 {
        let out = injected_lines(ls);
        lemma_injection_is_complete(ls);
        let (stream, track) = match video_msid(ls, ls.len() as int) {
            Some(m) => m,
            None => ("odrerir"@, "video"@),
        };
        reveal_strlit("odrerir");
        reveal_strlit("video");
        lemma_msid_no_newline(ls, ls.len() as int);
        lemma_lines_no_newline(sdp);
        let ns = to_inject(ls);
        lemma_block_no_newline(ns, stream, track);
        lemma_insert_point(ls);
        let p = insert_at(ls);
        let block = ssrc_block(ns, stream, track);
        assert(out =~= ls.subrange(0, p) + block + ls.subrange(p, ls.len() as int));
        assert forall|k: int| 0 <= k < out.len() implies no_newline(#[trigger] out[k]) by {
            if k < p {
                assert(out[k] == ls[k]);
            } else if k < p + block.len() {
                assert(out[k] == block[k - p]);
            } else {
                assert(out[k] == ls[k - block.len()]);
            }
        }
        let cr = contains(sdp, "\r\n"@);
        assert(line_ending(sdp) == ending(cr));
        lemma_lines_join(out, cr);
        let m = lines(join(out, ending(cr)));
        assert forall|n: nat| 2 <= n <= 4 implies declared(m, n) by {
            assert(declared(out, n));
            let k = choose|k: int| 0 <= k < out.len() && in_video(out, k) && #[trigger] ssrc_of(out[k]) == Some(n);
            reveal_strlit("a=ssrc:");
            assert(out[k].len() >= 7);
            assert(k < m.len());
            assert forall|j: int| 0 <= j <= k implies same_but_cr(#[trigger] m[j], out[j]) by {}
            lemma_in_video_close(m, out, k);
            lemma_ssrc_of_close(m[k], out[k]);
        }
        assert(declared(m, 2) && declared(m, 3) && declared(m, 4));
    }
}

/// Always `None`: the offer carries no resolution this client reads.
pub fn extract_resolution(sdp: &str) -> (r: Option<(u32, u32)>)
    ensures
        r is None,
{
    None
}

} // verus!
