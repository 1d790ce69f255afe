use vstd::std_specs::iter::IteratorSpec;
use vstd::prelude::*;

verus! {

/// The characters of the string, in order.
pub(crate) fn chars_of(s: &str) -> (r: Vec<char>)
    ensures
        r@ == s@,
{
    broadcast use vstd::string::axiom_spec_iter, vstd::string::next_postcondition;

    let mut it = s.chars();
    let mut out: Vec<char> = Vec::new();
    loop
        invariant
            out@ + it.remaining() == s@,
            it.obeys_prophetic_iter_laws(),
            it.decrease() is Some,
        ensures
            out@ == s@,
        decreases it.decrease()->0,
    {
        let next = it.next();
        match next {
            None => {
                proof {
                    assert(out@ + Seq::<char>::empty() =~= out@);
                }
                break;
            },
            Some(c) => {
                let ghost before = out@;
                out.push(c);
                proof {
                    assert(before + seq![c] + it.remaining() =~= before.push(c) + it.remaining());
                }
            },
        }
    }
    out
}

/// Relies on `String: FromIterator<char>`: the string of these characters.
#[verifier::external_body]
pub(crate) fn string_of(cs: &Vec<char>) -> (r: String)
    ensures
        r@ == cs@,
{
    cs.iter().collect()
}

/// Views of a list of character vectors.
pub open spec fn views(v: Seq<Vec<char>>) -> Seq<Seq<char>> {
    Seq::new(v.len(), |k: int| v[k]@)
}

/// ASCII whitespace.
pub open spec fn is_ws(c: char) -> bool {
    c == ' ' || c == '\t' || c == '\n' || c == '\r' || c == '\x0b' || c == '\x0c'
}

/// Whether `c` is ASCII whitespace.
pub fn is_ws_char(c: char) -> (r: bool)
    ensures
        r == is_ws(c),
{
    c == ' ' || c == '\t' || c == '\n' || c == '\r' || c == '\x0b' || c == '\x0c'
}

pub open spec fn starts_with(s: Seq<char>, p: Seq<char>) -> bool {
    p.len() <= s.len() && s.subrange(0, p.len() as int) == p
}

/// Pattern `p` occurs in `s` at `i`.
pub open spec fn occurs_at(s: Seq<char>, p: Seq<char>, i: int) -> bool {
    0 <= i && i + p.len() <= s.len() && s.subrange(i, i + p.len()) == p
}

pub open spec fn contains(s: Seq<char>, p: Seq<char>) -> bool {
    exists|i: int| occurs_at(s, p, i)
}

/// The pieces of `s` between newline characters; the last may be empty.
pub open spec fn split_nl(s: Seq<char>) -> Seq<Seq<char>>
    decreases s.len(),
{
    if s.len() == 0 {
        seq![Seq::empty()]
    } else if s.last() == '\n' {
        split_nl(s.drop_last()).push(Seq::empty())
    } else {
        let p = split_nl(s.drop_last());
        p.update(p.len() - 1, p.last().push(s.last()))
    }
}

/// A line without the carriage return of its `\r\n` ending.
pub open spec fn strip_cr(l: Seq<char>) -> Seq<char> {
    if l.len() > 0 && l.last() == '\r' {
        l.drop_last()
    } else {
        l
    }
}

/// The lines of `s`: split at `\n` or `\r\n`, the final line ending optional.
pub open spec fn lines(s: Seq<char>) -> Seq<Seq<char>> {
    let p = split_nl(s);
    let ended = Seq::new((p.len() - 1) as nat, |k: int| strip_cr(p[k]));
    if s.len() == 0 || s.last() == '\n' {
        ended
    } else {
        ended.push(p.last())
    }
}

/// The lines joined with `sep` between them.
pub open spec fn join(ls: Seq<Seq<char>>, sep: Seq<char>) -> Seq<char>
    decreases ls.len(),
{
    if ls.len() == 0 {
        Seq::empty()
    } else if ls.len() == 1 {
        ls[0]
    } else {
        join(ls.drop_last(), sep) + sep + ls.last()
    }
}

/// The whitespace-separated words of `s`.
pub open spec fn words(s: Seq<char>) -> Seq<Seq<char>>
    decreases s.len(),
{
    if s.len() == 0 {
        Seq::empty()
    } else {
        let w = words(s.drop_last());
        let c = s.last();
        if is_ws(c) {
            w
        } else if s.len() >= 2 && !is_ws(s[s.len() - 2]) {
            w.update(w.len() - 1, w.last().push(c))
        } else {
            w.push(seq![c])
        }
    }
}

/// `s` with every occurrence of `p`, matched left to right without overlap,
/// replaced by `r`.
pub open spec fn replace_all(s: Seq<char>, p: Seq<char>, r: Seq<char>) -> Seq<char>
    decreases s.len(),
{
    if s.len() == 0 {
        Seq::empty()
    } else if p.len() > 0 && starts_with(s, p) {
        r + replace_all(s.subrange(p.len() as int, s.len() as int), p, r)
    } else {
        seq![s[0]] + replace_all(s.subrange(1, s.len() as int), p, r)
    }
}

/// `s` up to its first `c`, or all of it.
pub open spec fn before_char(s: Seq<char>, c: char) -> Seq<char>
    decreases s.len(),
{
    if s.len() == 0 {
        Seq::empty()
    } else if s[0] == c {
        Seq::empty()
    } else {
        seq![s[0]] + before_char(s.subrange(1, s.len() as int), c)
    }
}

/// Whether `p` is a prefix of `s`.
pub fn has_prefix(s: &Vec<char>, p: &Vec<char>) -> (r: bool)
    ensures
        r == starts_with(s@, p@),
{
    if p.len() > s.len() {
        return false;
    }
    let mut i: usize = 0;
    while i < p.len()
        invariant
            p@.len() <= s@.len(),
            i <= p@.len(),
            s@.subrange(0, i as int) == p@.subrange(0, i as int),
        decreases p@.len() - i,
    {
        if s[i] != p[i] {
            proof {
                assert(s@.subrange(0, p@.len() as int)[i as int] != p@[i as int]);
            }
            return false;
        }
        i = i + 1;
        proof {
            assert(s@.subrange(0, i as int) =~= p@.subrange(0, i as int));
        }
    }
    proof {
        assert(p@.subrange(0, p@.len() as int) =~= p@);
    }
    true
}

/// Whether `p` occurs at `i` in `s`.
fn matches_at(s: &Vec<char>, p: &Vec<char>, i: usize) -> (r: bool)
    requires
        i <= s@.len(),
    ensures
        r == occurs_at(s@, p@, i as int),
{
    let n = s.len();
    if p.len() > n - i {
        return false;
    }
    let mut k: usize = 0;
    while k < p.len()
        invariant
            n == s@.len(),
            i + p@.len() <= s@.len(),
            k <= p@.len(),
            s@.subrange(i as int, i + k) == p@.subrange(0, k as int),
        decreases p@.len() - k,
    {
        if s[i + k] != p[k] {
            proof {
                assert(s@.subrange(i as int, i + p@.len())[k as int] != p@[k as int]);
            }
            return false;
        }
        k = k + 1;
        proof {
            assert(s@.subrange(i as int, i + k) =~= p@.subrange(0, k as int));
        }
    }
    proof {
        assert(p@.subrange(0, p@.len() as int) =~= p@);
    }
    true
}

/// Whether `p` occurs anywhere in `s`.
pub fn contains_seq(s: &Vec<char>, p: &Vec<char>) -> (r: bool)
    ensures
        r == contains(s@, p@),
{
    let mut i: usize = 0;
    while i < s.len()
        invariant
            i <= s@.len(),
            forall|j: int| 0 <= j < i ==> !occurs_at(s@, p@, j),
        decreases s@.len() - i,
    {
        if matches_at(s, p, i) {
            return true;
        }
        i = i + 1;
    }
    let last = matches_at(s, p, s.len());
    proof {
        if !last {
            assert forall|j: int| !occurs_at(s@, p@, j) by {
                if 0 <= j && j + p@.len() <= s@.len() {
                    assert(j <= s@.len());
                }
            }
        }
    }
    last
}

/// `v[from..]` as a new vector.
pub fn chars_from(v: &Vec<char>, from: usize) -> (r: Vec<char>)
    requires
        from <= v@.len(),
    ensures
        r@ == v@.subrange(from as int, v@.len() as int),
{
    let mut out: Vec<char> = Vec::new();
    let mut i: usize = from;
    while i < v.len()
        invariant
            from <= i <= v@.len(),
            out@ == v@.subrange(from as int, i as int),
        decreases v@.len() - i,
    {
        out.push(v[i]);
        i = i + 1;
        proof {
            assert(out@ =~= v@.subrange(from as int, i as int));
        }
    }
    out
}

/// Whether two character sequences are equal.
pub fn same_chars(a: &Vec<char>, b: &Vec<char>) -> (r: bool)
    ensures
        r == (a@ == b@),
{
    if a.len() != b.len() {
        return false;
    }
    let mut i: usize = 0;
    while i < a.len()
        invariant
            a@.len() == b@.len(),
            i <= a@.len(),
            forall|k: int| 0 <= k < i ==> a@[k] == b@[k],
        decreases a@.len() - i,
    {
        if a[i] != b[i] {
            return false;
        }
        i = i + 1;
    }
    proof {
        assert(a@ =~= b@);
    }
    true
}

/// Whether `w` is one of `list`.
pub fn list_contains(list: &Vec<Vec<char>>, w: &Vec<char>) -> (r: bool)
    ensures
        r == views(list@).contains(w@),
{
    let mut k: usize = 0;
    while k < list.len()
        invariant
            k <= list@.len(),
            forall|j: int| 0 <= j < k ==> list@[j]@ != w@,
        decreases list@.len() - k,
    {
        if same_chars(&list[k], w) {
            proof {
                assert(views(list@)[k as int] == w@);
            }
            return true;
        }
        k = k + 1;
    }
    proof {
        if views(list@).contains(w@) {
            let j = choose|j: int| 0 <= j < views(list@).len() && views(list@)[j] == w@;
            assert(list@[j]@ == w@);
        }
    }
    false
}

pub proof fn lemma_split_nl_nonempty(s: Seq<char>)
    ensures
        split_nl(s).len() >= 1,
    decreases s.len(),
{
    if s.len() > 0 {
        lemma_split_nl_nonempty(s.drop_last());
    }
}

/// A line ending: `\r\n` when `cr`, else `\n`.
pub open spec fn ending(cr: bool) -> Seq<char> {
    if cr {
        "\r\n"@
    } else {
        "\n"@
    }
}

/// No character of `s` is a newline.
pub open spec fn no_newline(s: Seq<char>) -> bool {
    forall|i: int| 0 <= i < s.len() ==> #[trigger] s[i] != '\n'
}

pub proof fn lemma_split_nl_single(l: Seq<char>)
    requires
        no_newline(l),
    ensures
        split_nl(l) == seq![l],
    decreases l.len(),
{
    if l.len() > 0 {
        assert(no_newline(l.drop_last()));
        lemma_split_nl_single(l.drop_last());
        assert(l.drop_last().push(l.last()) =~= l);
    } else {
        assert(l =~= Seq::<char>::empty());
    }
}

pub proof fn lemma_split_nl_concat(a: Seq<char>, b: Seq<char>)
    ensures
        split_nl(a + seq!['\n'] + b) == split_nl(a) + split_nl(b),
    decreases b.len(),
{
    lemma_split_nl_nonempty(a);
    if b.len() == 0 {
        assert(a + seq!['\n'] + b =~= a.push('\n'));
        assert((a + seq!['\n']).drop_last() =~= a);
        assert(a.push('\n').drop_last() =~= a);
        assert(split_nl(a) + split_nl(b) =~= split_nl(a).push(Seq::empty()));
    } else {
        let b2 = b.drop_last();
        lemma_split_nl_concat(a, b2);
        lemma_split_nl_nonempty(b2);
        let x = a + seq!['\n'] + b;
        assert(x.drop_last() =~= a + seq!['\n'] + b2);
        assert(x.last() == b.last());
        if b.last() == '\n' {
            assert(split_nl(a) + split_nl(b) =~= (split_nl(a) + split_nl(b2)).push(Seq::empty()));
        } else {
            let p = split_nl(b2);
            let q = split_nl(a) + p;
            assert(split_nl(a) + split_nl(b) =~= q.update(q.len() - 1, q.last().push(b.last())));
        }
    }
}

/// The pieces of text whose lines are joined with `\n`, each line free of
/// newlines, are the lines themselves.
pub proof fn lemma_split_join(ls: Seq<Seq<char>>, cr: bool)
    requires
        ls.len() >= 1,
        forall|k: int| 0 <= k < ls.len() ==> no_newline(#[trigger] ls[k]),
    ensures
        split_nl(join(ls, ending(cr))).len() == ls.len(),
        forall|k: int|
            0 <= k < ls.len() ==> #[trigger] split_nl(join(ls, ending(cr)))[k] == if cr && k < ls.len() - 1 {
                ls[k].push('\r')
            } else {
                ls[k]
            },
    decreases ls.len(),
{
    reveal_strlit("\r\n");
    reveal_strlit("\n");
    let sep = ending(cr);
    if ls.len() == 1 {
        lemma_split_nl_single(ls[0]);
    } else {
        let front = ls.drop_last();
        assert forall|k: int| 0 <= k < front.len() implies no_newline(#[trigger] front[k]) by {
            assert(front[k] == ls[k]);
        }
        lemma_split_join(front, cr);
        let jf = join(front, sep);
        lemma_split_nl_single(ls.last());
        let head = if cr {
            jf.push('\r')
        } else {
            jf
        };
        assert(join(ls, sep) =~= head + seq!['\n'] + ls.last());
        lemma_split_nl_concat(head, ls.last());
        lemma_split_nl_nonempty(jf);
        if cr {
            assert(head.drop_last() =~= jf);
        }
        let ps = split_nl(join(ls, sep));
        assert forall|k: int| 0 <= k < ls.len() implies #[trigger] ps[k] == if cr && k < ls.len()
            - 1 {
            ls[k].push('\r')
        } else {
            ls[k]
        } by {
            if k < ls.len() - 1 {
                assert(ls[k] == front[k]);
            }
        }
    }
}

/// The lines of text whose lines were joined: the same lines, but for a
/// carriage return at the end of a line that `\n` joined, and a last empty
/// line, which the text does not show.
pub proof fn lemma_lines_join(ls: Seq<Seq<char>>, cr: bool)
    requires
        ls.len() >= 1,
        forall|k: int| 0 <= k < ls.len() ==> no_newline(#[trigger] ls[k]),
    ensures
        ({
            let m = lines(join(ls, ending(cr)));
            &&& m.len() == ls.len() || (m.len() + 1 == ls.len() && ls.last().len() == 0)
            &&& forall|k: int|
                0 <= k < m.len() ==> #[trigger] m[k] == ls[k] || (ls[k].len() > 0 && ls[k].last()
                    == '\r' && m[k] == ls[k].drop_last())
        }),
{
    reveal_strlit("\r\n");
    reveal_strlit("\n");
    let t = join(ls, ending(cr));
    lemma_split_join(ls, cr);
    let p = split_nl(t);
    let n = ls.len() as int;
    let ended = Seq::new((p.len() - 1) as nat, |k: int| strip_cr(p[k]));
    assert forall|k: int| 0 <= k < n - 1 implies #[trigger] ended[k] == ls[k] || (ls[k].len() > 0
        && ls[k].last() == '\r' && ended[k] == ls[k].drop_last()) by {
        if cr {
            assert(p[k] == ls[k].push('\r'));
            assert(ls[k].push('\r').drop_last() =~= ls[k]);
        } else {
            assert(p[k] == ls[k]);
        }
    }
    if n >= 2 {
        let front = ls.drop_last();
        assert(t =~= join(front, ending(cr)) + ending(cr) + ls.last());
        if ls.last().len() > 0 {
            assert(t.last() == ls.last().last());
            assert(no_newline(ls[n - 1]));
            assert(ls.last().last() == ls[n - 1][ls[n - 1].len() - 1]);
        } else {
            assert(t.last() == '\n');
        }
    } else {
        assert(t == ls[0]);
        if ls[0].len() > 0 {
            assert(no_newline(ls[0]));
            assert(t.last() == ls[0][ls[0].len() - 1]);
        }
    }
    let m = lines(t);
    assert forall|k: int| 0 <= k < m.len() implies #[trigger] m[k] == ls[k] || (ls[k].len() > 0
        && ls[k].last() == '\r' && m[k] == ls[k].drop_last()) by {
        if k < n - 1 {
            assert(m[k] == ended[k]);
        } else {
            assert(m[k] == p.last());
            assert(p.last() == p[n - 1]);
        }
    }
}

pub proof fn lemma_split_nl_no_newline(s: Seq<char>)
    ensures
        forall|k: int| 0 <= k < split_nl(s).len() ==> no_newline(#[trigger] split_nl(s)[k]),
    decreases s.len(),
{
    if s.len() > 0 {
        lemma_split_nl_no_newline(s.drop_last());
        lemma_split_nl_nonempty(s.drop_last());
        let p = split_nl(s.drop_last());
        if s.last() != '\n' {
            let q = p.update(p.len() - 1, p.last().push(s.last()));
            assert forall|k: int| 0 <= k < q.len() implies no_newline(#[trigger] q[k]) by {
                if k == q.len() - 1 {
                    assert(no_newline(p[k]));
                    assert forall|i: int| 0 <= i < q[k].len() implies #[trigger] q[k][i] != '\n' by {
                        if i < p[k].len() {
                            assert(q[k][i] == p[k][i]);
                        }
                    }
                } else {
                    assert(q[k] == p[k]);
                }
            }
        } else {
            let q = p.push(Seq::empty());
            assert forall|k: int| 0 <= k < q.len() implies no_newline(#[trigger] q[k]) by {
                if k < p.len() {
                    assert(q[k] == p[k]);
                }
            }
        }
    }
}

/// No line of a text holds a newline.
pub proof fn lemma_lines_no_newline(s: Seq<char>)
    ensures
        forall|k: int| 0 <= k < lines(s).len() ==> no_newline(#[trigger] lines(s)[k]),
{
    lemma_split_nl_no_newline(s);
    lemma_split_nl_nonempty(s);
    let p = split_nl(s);
    assert forall|k: int| 0 <= k < lines(s).len() implies no_newline(#[trigger] lines(s)[k]) by {
        assert(no_newline(p[k]));
        if k < p.len() - 1 {
            assert(lines(s)[k] == strip_cr(p[k]));
            assert forall|i: int| 0 <= i < strip_cr(p[k]).len() implies #[trigger] strip_cr(
                p[k],
            )[i] != '\n' by {
                assert(strip_cr(p[k])[i] == p[k][i]);
            }
        } else {
            assert(lines(s)[k] == p.last());
        }
    }
}

/// No word holds whitespace.
pub proof fn lemma_words_no_ws(s: Seq<char>)
    ensures
        forall|k: int, i: int|
            0 <= k < words(s).len() && 0 <= i < words(s)[k].len() ==> !is_ws(
                #[trigger] words(s)[k][i],
            ),
        s.len() > 0 && !is_ws(s.last()) ==> words(s).len() >= 1,
    decreases s.len(),
{
    if s.len() > 0 {
        let s2 = s.drop_last();
        lemma_words_no_ws(s2);
        let w = words(s2);
        let c = s.last();
        if !is_ws(c) {
            if s.len() >= 2 && !is_ws(s[s.len() - 2]) {
                assert(s2.last() == s[s.len() - 2]);
                let u = w.update(w.len() - 1, w.last().push(c));
                assert(words(s) == u);
                assert forall|k: int, i: int|
                    0 <= k < u.len() && 0 <= i < u[k].len() implies !is_ws(#[trigger] u[k][i]) by {
                    if k == w.len() - 1 {
                        if i < w.last().len() {
                            assert(u[k][i] == w[k][i]);
                        }
                    } else {
                        assert(u[k] == w[k]);
                    }
                }
            } else {
                let u = w.push(seq![c]);
                assert(words(s) == u);
                assert forall|k: int, i: int|
                    0 <= k < u.len() && 0 <= i < u[k].len() implies !is_ws(#[trigger] u[k][i]) by {
                    if k < w.len() {
                        assert(u[k] == w[k]);
                    }
                }
            }
        }
    }
}

/// Removing a carriage return from the end of a line whose last character
/// it is changes no word.
pub proof fn lemma_words_strip_cr(s: Seq<char>)
    requires
        s.len() > 0,
        s.last() == '\r',
    ensures
        words(s) == words(s.drop_last()),
{
}

/// Splits text into lines at `\n` or `\r\n`.
pub fn split_lines(s: &Vec<char>) -> (r: Vec<Vec<char>>)
    ensures
        views(r@) == lines(s@),
{
    let mut done: Vec<Vec<char>> = Vec::new();
    let mut cur: Vec<char> = Vec::new();
    let mut i: usize = 0;
    while i < s.len()
        invariant
            i <= s@.len(),
            split_nl(s@.subrange(0, i as int)).len() == done@.len() + 1,
            forall|k: int|
                0 <= k < done@.len() ==> #[trigger] done@[k]@ == strip_cr(
                    split_nl(s@.subrange(0, i as int))[k],
                ),
            split_nl(s@.subrange(0, i as int)).last() == cur@,
        decreases s@.len() - i,
    {
        let ghost prev = s@.subrange(0, i as int);
        let c = s[i];
        i = i + 1;
        let ghost now = s@.subrange(0, i as int);
        proof {
            assert(now.drop_last() =~= prev);
            lemma_split_nl_nonempty(prev);
        }
        if c == '\n' {
            let n = cur.len();
            if n > 0 && cur[n - 1] == '\r' {
                cur.pop();
            }
            done.push(cur);
            cur = Vec::new();
        } else {
            cur.push(c);
        }
    }
    proof {
        assert(s@.subrange(0, s@.len() as int) =~= s@);
        lemma_split_nl_nonempty(s@);
    }
    let ghost ended = done@;
    if s.len() > 0 && s[s.len() - 1] != '\n' {
        done.push(cur);
    }
    proof {
        let p = split_nl(s@);
        let e = Seq::new((p.len() - 1) as nat, |k: int| strip_cr(p[k]));
        if s@.len() == 0 || s@.last() == '\n' {
            assert(views(done@) =~= e);
        } else {
            assert(views(done@) =~= e.push(p.last()));
        }
    }
    done
}

/// Joins lines with `sep` between them.
pub fn join_lines(ls: &Vec<Vec<char>>, sep: &Vec<char>) -> (r: Vec<char>)
    ensures
        r@ == join(views(ls@), sep@),
{
    let mut out: Vec<char> = Vec::new();
    let mut k: usize = 0;
    while k < ls.len()
        invariant
            k <= ls@.len(),
            out@ == join(views(ls@).subrange(0, k as int), sep@),
        decreases ls@.len() - k,
    {
        let ghost before = out@;
        if k > 0 {
            let mut j: usize = 0;
            while j < sep.len()
                invariant
                    j <= sep@.len(),
                    out@ == before + sep@.subrange(0, j as int),
                decreases sep@.len() - j,
            {
                out.push(sep[j]);
                j = j + 1;
                proof {
                    assert(out@ =~= before + sep@.subrange(0, j as int));
                }
            }
        }
        let ghost mid = out@;
        let line = &ls[k];
        let mut j: usize = 0;
        while j < line.len()
            invariant
                j <= line@.len(),
                out@ == mid + line@.subrange(0, j as int),
            decreases line@.len() - j,
        {
            out.push(line[j]);
            j = j + 1;
            proof {
                assert(out@ =~= mid + line@.subrange(0, j as int));
            }
        }
        proof {
            let v = views(ls@).subrange(0, k + 1);
            assert(v.drop_last() =~= views(ls@).subrange(0, k as int));
            assert(line@.subrange(0, line@.len() as int) =~= line@);
            assert(sep@.subrange(0, sep@.len() as int) =~= sep@);
            if k == 0 {
                assert(out@ =~= join(v, sep@));
            } else {
                assert(out@ =~= join(v, sep@));
            }
        }
        k = k + 1;
    }
    proof {
        assert(views(ls@).subrange(0, ls@.len() as int) =~= views(ls@));
    }
    out
}

/// Whitespace-separated words.
pub fn split_words(s: &Vec<char>) -> (r: Vec<Vec<char>>)
    ensures
        views(r@) == words(s@),
{
    let mut out: Vec<Vec<char>> = Vec::new();
    let mut cur: Vec<char> = Vec::new();
    let mut in_word = false;
    let mut i: usize = 0;
    while i < s.len()
        invariant
            i <= s@.len(),
            in_word == (i > 0 && !is_ws(s@[i - 1])),
            in_word ==> words(s@.subrange(0, i as int)) == views(out@).push(cur@),
            !in_word ==> words(s@.subrange(0, i as int)) == views(out@),
        decreases s@.len() - i,
    {
        let ghost prev = s@.subrange(0, i as int);
        let c = s[i];
        let ws = c == ' ' || c == '\t' || c == '\n' || c == '\r' || c == '\x0b' || c == '\x0c';
        i = i + 1;
        let ghost now = s@.subrange(0, i as int);
        proof {
            assert(now.drop_last() =~= prev);
        }
        if ws {
            if in_word {
                out.push(cur);
                cur = Vec::new();
                proof {
                    assert(views(out@) =~= words(prev));
                }
            }
            in_word = false;
        } else {
            if in_word {
                cur.push(c);
                proof {
                    assert(views(out@).push(cur@) =~= words(now));
                }
            } else {
                cur = Vec::new();
                cur.push(c);
                proof {
                    assert(views(out@).push(cur@) =~= words(now));
                }
            }
            in_word = true;
        }
    }
    if in_word {
        out.push(cur);
    }
    proof {
        assert(s@.subrange(0, s@.len() as int) =~= s@);
        assert(views(out@) =~= words(s@));
    }
    out
}

/// `s` with every occurrence of `p`, left to right, replaced by `r`.
pub fn replace_seq(s: &Vec<char>, p: &Vec<char>, r: &Vec<char>) -> (out: Vec<char>)
    ensures
        out@ == replace_all(s@, p@, r@),
{
    let mut out: Vec<char> = Vec::new();
    let mut i: usize = 0;
    proof {
        assert(s@.subrange(0, s@.len() as int) =~= s@);
    }
    while i < s.len()
        invariant
            i <= s@.len(),
            replace_all(s@, p@, r@) == out@ + replace_all(
                s@.subrange(i as int, s@.len() as int),
                p@,
                r@,
            ),
        decreases s@.len() - i,
    {
        let ghost rest = s@.subrange(i as int, s@.len() as int);
        if p.len() > 0 && matches_at(s, p, i) {
            proof {
                assert(rest.subrange(0, p@.len() as int) =~= s@.subrange(i as int, i + p@.len()));
                assert(rest.subrange(p@.len() as int, rest.len() as int) =~= s@.subrange(
                    i + p@.len(),
                    s@.len() as int,
                ));
            }
            let ghost before = out@;
            let mut j: usize = 0;
            while j < r.len()
                invariant
                    j <= r@.len(),
                    out@ == before + r@.subrange(0, j as int),
                decreases r@.len() - j,
            {
                out.push(r[j]);
                j = j + 1;
                proof {
                    assert(out@ =~= before + r@.subrange(0, j as int));
                }
            }
            proof {
                assert(r@.subrange(0, r@.len() as int) =~= r@);
                assert(before + (r@ + replace_all(
                    rest.subrange(p@.len() as int, rest.len() as int),
                    p@,
                    r@,
                )) =~= out@ + replace_all(rest.subrange(p@.len() as int, rest.len() as int), p@, r@));
            }
            i = i + p.len();
        } else {
            proof {
                if p@.len() > 0 {
                    assert(!starts_with(rest, p@)) by {
                        if p@.len() <= rest.len() {
                            assert(rest.subrange(0, p@.len() as int) =~= s@.subrange(
                                i as int,
                                i + p@.len(),
                            ));
                        }
                    }
                }
                assert(rest.subrange(1, rest.len() as int) =~= s@.subrange(i + 1, s@.len() as int));
                let ghost tail = replace_all(rest.subrange(1, rest.len() as int), p@, r@);
                assert(out@ + (seq![s@[i as int]] + tail) =~= out@.push(s@[i as int]) + tail);
            }
            out.push(s[i]);
            i = i + 1;
        }
    }
    proof {
        assert(s@.subrange(s@.len() as int, s@.len() as int) =~= Seq::<char>::empty());
        assert(out@ + Seq::<char>::empty() =~= out@);
    }
    out
}

/// `s` up to its first `c`.
pub fn prefix_before(s: &Vec<char>, c: char) -> (r: Vec<char>)
    ensures
        r@ == before_char(s@, c),
{
    let mut out: Vec<char> = Vec::new();
    let mut i: usize = 0;
    proof {
        assert(s@.subrange(0, s@.len() as int) =~= s@);
    }
    while i < s.len()
        invariant
            i <= s@.len(),
            before_char(s@, c) == out@ + before_char(s@.subrange(i as int, s@.len() as int), c),
        decreases s@.len() - i,
    {
        let ghost rest = s@.subrange(i as int, s@.len() as int);
        proof {
            assert(rest.subrange(1, rest.len() as int) =~= s@.subrange(i + 1, s@.len() as int));
        }
        if s[i] == c {
            proof {
                assert(out@ + Seq::<char>::empty() =~= out@);
            }
            return out;
        }
        proof {
            assert(out@ + (seq![s@[i as int]] + before_char(rest.subrange(1, rest.len() as int), c))
                =~= out@.push(s@[i as int]) + before_char(rest.subrange(1, rest.len() as int), c));
        }
        out.push(s[i]);
        i = i + 1;
    }
    proof {
        assert(s@.subrange(s@.len() as int, s@.len() as int) =~= Seq::<char>::empty());
        assert(out@ + Seq::<char>::empty() =~= out@);
    }
    out
}

} // verus!
