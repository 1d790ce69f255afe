use vstd::prelude::*;

verus! {

/// HEVC NAL unit types (ITU-T H.265 Table 7-1); reserved codes map to `Unknown`.
#[derive(Debug, Clone, Copy, PartialEq, Eq, Structural)]
pub enum HevcNalType {
    TrailN,
    TrailR,
    TsaN,
    TsaR,
    StsaN,
    StsaR,
    RadlN,
    RadlR,
    RaslN,
    RaslR,
    BlaWLp,
    BlaWRadl,
    BlaNLp,
    IdrWRadl,
    IdrNLp,
    CraNut,
    VpsNut,
    SpsNut,
    PpsNut,
    AudNut,
    EosNut,
    EobNut,
    FdNut,
    PrefixSeiNut,
    SuffixSeiNut,
    Unknown,
}

/// The type that a 6-bit `nal_unit_type` code names.
pub open spec fn nal_type_of(v: u8) -> HevcNalType {
    if v == 0 {
        HevcNalType::TrailN
    } else if v == 1 {
        HevcNalType::TrailR
    } else if v == 2 {
        HevcNalType::TsaN
    } else if v == 3 {
        HevcNalType::TsaR
    } else if v == 4 {
        HevcNalType::StsaN
    } else if v == 5 {
        HevcNalType::StsaR
    } else if v == 6 {
        HevcNalType::RadlN
    } else if v == 7 {
        HevcNalType::RadlR
    } else if v == 8 {
        HevcNalType::RaslN
    } else if v == 9 {
        HevcNalType::RaslR
    } else if v == 16 {
        HevcNalType::BlaWLp
    } else if v == 17 {
        HevcNalType::BlaWRadl
    } else if v == 18 {
        HevcNalType::BlaNLp
    } else if v == 19 {
        HevcNalType::IdrWRadl
    } else if v == 20 {
        HevcNalType::IdrNLp
    } else if v == 21 {
        HevcNalType::CraNut
    } else if v == 32 {
        HevcNalType::VpsNut
    } else if v == 33 {
        HevcNalType::SpsNut
    } else if v == 34 {
        HevcNalType::PpsNut
    } else if v == 35 {
        HevcNalType::AudNut
    } else if v == 36 {
        HevcNalType::EosNut
    } else if v == 37 {
        HevcNalType::EobNut
    } else if v == 38 {
        HevcNalType::FdNut
    } else if v == 39 {
        HevcNalType::PrefixSeiNut
    } else if v == 40 {
        HevcNalType::SuffixSeiNut
    } else {
        HevcNalType::Unknown
    }
}

impl From<u8> for HevcNalType {
    fn from(v: u8) -> (r: Self)
        ensures
            r == nal_type_of(v),
    {
        match v {
            0 => HevcNalType::TrailN,
            1 => HevcNalType::TrailR,
            2 => HevcNalType::TsaN,
            3 => HevcNalType::TsaR,
            4 => HevcNalType::StsaN,
            5 => HevcNalType::StsaR,
            6 => HevcNalType::RadlN,
            7 => HevcNalType::RadlR,
            8 => HevcNalType::RaslN,
            9 => HevcNalType::RaslR,
            16 => HevcNalType::BlaWLp,
            17 => HevcNalType::BlaWRadl,
            18 => HevcNalType::BlaNLp,
            19 => HevcNalType::IdrWRadl,
            20 => HevcNalType::IdrNLp,
            21 => HevcNalType::CraNut,
            32 => HevcNalType::VpsNut,
            33 => HevcNalType::SpsNut,
            34 => HevcNalType::PpsNut,
            35 => HevcNalType::AudNut,
            36 => HevcNalType::EosNut,
            37 => HevcNalType::EobNut,
            38 => HevcNalType::FdNut,
            39 => HevcNalType::PrefixSeiNut,
            40 => HevcNalType::SuffixSeiNut,
            _ => HevcNalType::Unknown,
        }
    }
}

impl vstd::std_specs::convert::FromSpecImpl<u8> for HevcNalType {
    open spec fn obeys_from_spec() -> bool {
        true
    }

    open spec fn from_spec(v: u8) -> Self {
        nal_type_of(v)
    }
}

impl HevcNalType {
    /// Video coding layer types: the codes 0 to 31.
    pub open spec fn spec_is_vcl(self) -> bool {
        match self {
            HevcNalType::VpsNut | HevcNalType::SpsNut | HevcNalType::PpsNut | HevcNalType::AudNut
            | HevcNalType::EosNut | HevcNalType::EobNut | HevcNalType::FdNut
            | HevcNalType::PrefixSeiNut | HevcNalType::SuffixSeiNut | HevcNalType::Unknown => false,
            _ => true,
        }
    }

    pub open spec fn spec_is_idr(self) -> bool {
        self == HevcNalType::IdrWRadl || self == HevcNalType::IdrNLp
    }

    pub open spec fn spec_is_bla(self) -> bool {
        self == HevcNalType::BlaWLp || self == HevcNalType::BlaWRadl || self == HevcNalType::BlaNLp
    }

    pub open spec fn spec_is_cra(self) -> bool {
        self == HevcNalType::CraNut
    }

    pub open spec fn spec_is_rap(self) -> bool {
        self.spec_is_idr() || self.spec_is_bla() || self.spec_is_cra()
    }

    /// Whether this is a video coding layer unit.
    pub fn is_vcl(&self) -> (r: bool)
        ensures
            r == self.spec_is_vcl(),
    {
        match self {
            HevcNalType::VpsNut | HevcNalType::SpsNut | HevcNalType::PpsNut | HevcNalType::AudNut
            | HevcNalType::EosNut | HevcNalType::EobNut | HevcNalType::FdNut
            | HevcNalType::PrefixSeiNut | HevcNalType::SuffixSeiNut | HevcNalType::Unknown => false,
            _ => true,
        }
    }

    /// Whether this is an IDR picture.
    pub fn is_idr(&self) -> (r: bool)
        ensures
            r == self.spec_is_idr(),
    {
        matches!(self, HevcNalType::IdrWRadl | HevcNalType::IdrNLp)
    }

    /// Whether this is a broken-link access picture.
    pub fn is_bla(&self) -> (r: bool)
        ensures
            r == self.spec_is_bla(),
    {
        matches!(self, HevcNalType::BlaWLp | HevcNalType::BlaWRadl | HevcNalType::BlaNLp)
    }

    /// Whether this is a clean random access picture.
    pub fn is_cra(&self) -> (r: bool)
        ensures
            r == self.spec_is_cra(),
    {
        matches!(self, HevcNalType::CraNut)
    }

    /// Whether this is a random access point (IDR, BLA or CRA).
    pub fn is_rap(&self) -> (r: bool)
        ensures
            r == self.spec_is_rap(),
    {
        self.is_idr() || self.is_bla() || self.is_cra()
    }

    /// Whether the unit carries a slice.
    pub fn is_slice(&self) -> (r: bool)
        ensures
            r == self.spec_is_vcl(),
    {
        self.is_vcl()
    }
}

/// A NAL unit found in an Annex-B stream.
#[derive(Debug, Clone)]
pub struct HevcNalUnit {
    pub nal_type: HevcNalType,
    /// `nuh_layer_id`.
    pub layer_id: u8,
    /// `nuh_temporal_id_plus1`.
    pub temporal_id: u8,
    /// The unit without its start code, header included.
    pub data: Vec<u8>,
    /// Offset of the unit's start code in the scanned stream.
    pub offset: usize,
}

/// Type code in the first header byte.
pub open spec fn header_type(h0: u8) -> u8 {
    (h0 >> 1u8) & 0x3fu8
}

/// `nuh_layer_id`, split across the two header bytes.
pub open spec fn header_layer(h0: u8, h1: u8) -> u8 {
    ((h0 & 1u8) << 5u8) | (h1 >> 3u8)
}

pub open spec fn header_temporal(h1: u8) -> u8 {
    h1 & 7u8
}

/// A three-byte start code `00 00 01` at `j`.
pub open spec fn is_sc3(d: Seq<u8>, j: int) -> bool {
    0 <= j && j + 3 <= d.len() && d[j] == 0 && d[j + 1] == 0 && d[j + 2] == 1
}

/// A four-byte start code `00 00 00 01` at `j`.
pub open spec fn is_sc4(d: Seq<u8>, j: int) -> bool {
    0 <= j && j + 4 <= d.len() && d[j] == 0 && d[j + 1] == 0 && d[j + 2] == 0 && d[j + 3] == 1
}

pub open spec fn is_start_code(d: Seq<u8>, j: int) -> bool {
    is_sc3(d, j) || is_sc4(d, j)
}

/// Where a unit whose payload begins at `j` ends: the next start code, or the
/// end of the buffer.
pub open spec fn unit_end(d: Seq<u8>, j: int) -> int
    decreases d.len() - j,
{
    if j >= d.len() {
        d.len() as int
    } else if is_start_code(d, j) {
        j
    } else {
        unit_end(d, j + 1)
    }
}

pub proof fn lemma_unit_end_bounds(d: Seq<u8>, j: int)
    ensures
        j <= d.len() ==> j <= unit_end(d, j) <= d.len(),
        j > d.len() ==> unit_end(d, j) == d.len(),
    decreases d.len() - j,
{
    if j < d.len() && !is_start_code(d, j) {
        lemma_unit_end_bounds(d, j + 1);
    }
}

#[via_fn]
proof fn scan_decreases(d: Seq<u8>, i: int) {
    lemma_unit_end_bounds(d, i + 3);
    lemma_unit_end_bounds(d, i + 4);
}

/// The units of an Annex-B stream from byte `i` on, each as (offset of its
/// start code, first byte of the unit, end of the unit). Units shorter than
/// the two-byte header are left out.
pub open spec fn scan_units(d: Seq<u8>, i: int) -> Seq<(int, int, int)>
    decreases d.len() - i,
    via scan_decreases
{
    if i < 0 || i >= d.len() {
        Seq::empty()
    } else if is_sc3(d, i) || is_sc4(d, i) {
        let s = if is_sc3(d, i) { i + 3 } else { i + 4 };
        let e = unit_end(d, s);
        if e - s >= 2 {
            seq![(i, s, e)] + scan_units(d, e)
        } else {
            scan_units(d, e)
        }
    } else {
        scan_units(d, i + 1)
    }
}

/// The unit of `d` that a scan entry describes.
pub open spec fn unit_matches(u: HevcNalUnit, d: Seq<u8>, entry: (int, int, int)) -> bool {
    let (o, s, e) = entry;
    &&& u.offset == o
    &&& u.data@ == d.subrange(s, e)
    &&& u.nal_type == nal_type_of(header_type(d[s]))
    &&& u.layer_id == header_layer(d[s], d[s + 1])
    &&& u.temporal_id == header_temporal(d[s + 1])
}

proof fn lemma_unit_end_tail(d: Seq<u8>, j: int)
    requires
        0 <= j,
        j + 3 > d.len(),
    ensures
        unit_end(d, j) == d.len(),
    decreases d.len() - j,
{
    if j < d.len() {
        lemma_unit_end_tail(d, j + 1);
    }
}

/// Byte `p` with emulation prevention removed from `d`, scanning from `i`.
pub open spec fn is_ep_triple(d: Seq<u8>, i: int) -> bool {
    0 <= i && i + 2 < d.len() && d[i] == 0 && d[i + 1] == 0 && d[i + 2] == 3
}

/// `d[i..]` with each `00 00 03` (matched left to right) turned into `00 00`.
pub open spec fn rbsp_from(d: Seq<u8>, i: int) -> Seq<u8>
    decreases d.len() - i,
{
    if i < 0 || i >= d.len() {
        Seq::empty()
    } else if is_ep_triple(d, i) {
        seq![0u8, 0u8] + rbsp_from(d, i + 3)
    } else {
        seq![d[i]] + rbsp_from(d, i + 1)
    }
}

/// Number of `00 00 03` triples that the same left-to-right scan matches.
pub open spec fn ep_count_from(d: Seq<u8>, i: int) -> nat
    decreases d.len() - i,
{
    if i < 0 || i >= d.len() {
        0
    } else if is_ep_triple(d, i) {
        1 + ep_count_from(d, i + 3)
    } else {
        ep_count_from(d, i + 1)
    }
}

pub open spec fn rbsp(d: Seq<u8>) -> Seq<u8> {
    rbsp_from(d, 0)
}

proof fn lemma_rbsp_from_identity(d: Seq<u8>, i: int)
    requires
        0 <= i <= d.len(),
        forall|j: int| !#[trigger] is_ep_triple(d, j),
    ensures
        rbsp_from(d, i) == d.subrange(i, d.len() as int),
    decreases d.len() - i,
{
    if i < d.len() {
        assert(!is_ep_triple(d, i));
        lemma_rbsp_from_identity(d, i + 1);
        assert(seq![d[i]] + d.subrange(i + 1, d.len() as int) =~= d.subrange(i, d.len() as int));
    } else {
        assert(d.subrange(i, d.len() as int) =~= Seq::<u8>::empty());
    }
}

/// On a payload with no `00 00 03` triple, removing emulation prevention
/// changes nothing, so doing it twice is the same as doing it once.
pub proof fn lemma_rbsp_idempotent(d: Seq<u8>)
    requires
        forall|j: int| !#[trigger] is_ep_triple(d, j),
    ensures
        rbsp(d) == d,
        rbsp(rbsp(d)) == rbsp(d),
{
    lemma_rbsp_from_identity(d, 0);
    assert(d.subrange(0, d.len() as int) =~= d);
}

proof fn lemma_rbsp_from_len(d: Seq<u8>, i: int)
    requires
        0 <= i <= d.len(),
    ensures
        rbsp_from(d, i).len() + ep_count_from(d, i) == d.len() - i,
    decreases d.len() - i,
{
    if i < d.len() {
        if is_ep_triple(d, i) {
            lemma_rbsp_from_len(d, i + 3);
        } else {
            lemma_rbsp_from_len(d, i + 1);
        }
    }
}

/// Removing emulation prevention drops exactly one byte for each `00 00 03`
/// triple that the left-to-right scan matches.
pub proof fn lemma_rbsp_len(d: Seq<u8>)
    ensures
        rbsp(d).len() + ep_count_from(d, 0) == d.len(),
{
    lemma_rbsp_from_len(d, 0);
}

/// A start code: `00 00 00 01` when `four`, else `00 00 01`.
pub open spec fn start_code(four: bool) -> Seq<u8> {
    if four {
        seq![0u8, 0u8, 0u8, 1u8]
    } else {
        seq![0u8, 0u8, 1u8]
    }
}

/// An Annex-B stream: each unit behind its own start code.
pub open spec fn annexb(units: Seq<Seq<u8>>, four: Seq<bool>) -> Seq<u8>
    decreases units.len(),
{
    if units.len() == 0 {
        Seq::empty()
    } else {
        start_code(four[0]) + units[0] + annexb(units.drop_first(), four.drop_first())
    }
}

/// Where the `k`-th start code of `annexb(units, four)` begins.
pub open spec fn annexb_offset(units: Seq<Seq<u8>>, four: Seq<bool>, k: nat) -> nat
    decreases k,
{
    if k == 0 || units.len() == 0 {
        0
    } else {
        start_code(four[0]).len() + units[0].len() + annexb_offset(
            units.drop_first(),
            four.drop_first(),
            (k - 1) as nat,
        )
    }
}

/// A unit payload that an encoder may put behind a start code: at least the
/// two header bytes, a non-zero last byte, and no `00 00 01` inside
/// (emulation prevention guarantees this).
pub open spec fn clean_payload(u: Seq<u8>) -> bool {
    &&& u.len() >= 2
    &&& u[u.len() - 1] != 0
    &&& forall|j: int|
        0 <= j && j + 2 < u.len() ==> !(#[trigger] u[j] == 0 && u[j + 1] == 0 && u[j + 2] == 1)
}

proof fn lemma_unit_end_clean(d: Seq<u8>, s: int, e: int, j: int)
    requires
        0 <= s <= j <= e <= d.len(),
        forall|x: int| s <= x < e ==> !#[trigger] is_start_code(d, x),
        e == d.len() || is_start_code(d, e),
    ensures
        unit_end(d, j) == e,
    decreases e - j,
{
    if j < e {
        lemma_unit_end_clean(d, s, e, j + 1);
    }
}

proof fn lemma_annexb_starts(units: Seq<Seq<u8>>, four: Seq<bool>)
    requires
        units.len() > 0,
        four.len() == units.len(),
    ensures
        annexb(units, four).len() >= 3,
        annexb(units, four)[0] == 0 && annexb(units, four)[1] == 0,
        four[0] ==> annexb(units, four).len() >= 4 && annexb(units, four)[2] == 0 && annexb(
            units,
            four,
        )[3] == 1,
        !four[0] ==> annexb(units, four)[2] == 1,
{
}

proof fn lemma_clean_has_no_start_code(d: Seq<u8>, s: int, u: Seq<u8>)
    requires
        0 <= s,
        s + u.len() <= d.len(),
        d.subrange(s, s + u.len()) == u,
        clean_payload(u),
        s + u.len() == d.len() || d[s + u.len()] == 0,
    ensures
        forall|x: int| s <= x < s + u.len() ==> !#[trigger] is_start_code(d, x),
{
    let e = s + u.len();
    assert forall|x: int| s <= x < e implies !#[trigger] is_start_code(d, x) by {
        assert(d[x] == d.subrange(s, e)[x - s]);
        if x + 1 < e {
            assert(d[x + 1] == d.subrange(s, e)[x + 1 - s]);
        }
        if x + 2 < e {
            assert(d[x + 2] == d.subrange(s, e)[x + 2 - s]);
            assert(!(u[x - s] == 0 && u[x - s + 1] == 0 && u[x - s + 2] == 1));
        }
        if x + 3 < e {
            assert(d[x + 3] == d.subrange(s, e)[x + 3 - s]);
            assert(!(u[x - s + 1] == 0 && u[x - s + 2] == 0 && u[x - s + 3] == 1));
        }
    }
}

proof fn lemma_next_start_code(pre: Seq<u8>, rest: Seq<Seq<u8>>, rest_four: Seq<bool>)
    requires
        rest_four.len() == rest.len(),
    ensures
        ({
            let d = pre + annexb(rest, rest_four);
            pre.len() == d.len() || is_start_code(d, pre.len() as int)
        }),
{
    let tail = annexb(rest, rest_four);
    let d = pre + tail;
    let e = pre.len() as int;
    if rest.len() > 0 {
        lemma_annexb_starts(rest, rest_four);
        assert(d[e] == tail[0] && d[e + 1] == tail[1] && d[e + 2] == tail[2]);
        if rest_four[0] {
            assert(d[e + 3] == tail[3]);
            assert(is_sc4(d, e));
        } else {
            assert(is_sc3(d, e));
        }
    } else {
        assert(tail =~= Seq::<u8>::empty());
    }
}

proof fn lemma_start_code_at(pre: Seq<u8>, four: bool, more: Seq<u8>)
    ensures
        ({
            let d = pre + start_code(four) + more;
            let i = pre.len() as int;
            &&& four ==> is_sc4(d, i) && !is_sc3(d, i)
            &&& !four ==> is_sc3(d, i)
        }),
{
    let d = pre + start_code(four) + more;
    let i = pre.len() as int;
    let sc = start_code(four);
    assert(d[i] == sc[0] && d[i + 1] == sc[1] && d[i + 2] == sc[2]);
    if four {
        assert(d[i + 3] == sc[3]);
    }
}

#[verifier::rlimit(40)]
proof fn lemma_scan_annexb(pre: Seq<u8>, units: Seq<Seq<u8>>, four: Seq<bool>)
    requires
        four.len() == units.len(),
        forall|k: int| 0 <= k < units.len() ==> clean_payload(#[trigger] units[k]),
    ensures
        ({
            let d = pre + annexb(units, four);
            let sc = scan_units(d, pre.len() as int);
            &&& sc.len() == units.len()
            &&& forall|k: int|
                0 <= k < units.len() ==> pre.len() <= #[trigger] sc[k].1 <= sc[k].2 <= d.len()
                    && d.subrange(sc[k].1, sc[k].2) == units[k] && sc[k].0 == pre.len()
                    + annexb_offset(units, four, k as nat)
        }),
    decreases units.len(),
{
    let d = pre + annexb(units, four);
    let i = pre.len() as int;
    if units.len() == 0 {
        assert(d =~= pre);
    } else {
        let u = units[0];
        let rest = units.drop_first();
        let rest_four = four.drop_first();
        let tail = annexb(rest, rest_four);
        let pre2 = pre + start_code(four[0]) + u;
        assert(d =~= pre2 + tail);
        let s = i + start_code(four[0]).len();
        let e = s + u.len();
        assert(d.subrange(s, e) =~= u);
        lemma_start_code_at(pre, four[0], u + tail);
        assert(pre + start_code(four[0]) + (u + tail) =~= d);
        lemma_next_start_code(pre2, rest, rest_four);
        lemma_clean_has_no_start_code(d, s, u);
        lemma_unit_end_clean(d, s, e, s);
        assert forall|k: int| 0 <= k < rest.len() implies clean_payload(#[trigger] rest[k]) by {
            assert(rest[k] == units[k + 1]);
        }
        lemma_scan_annexb(pre2, rest, rest_four);
        let tail_scan = scan_units(d, e);
        assert(scan_units(d, i) == seq![(i, s, e)] + tail_scan);
        assert forall|k: int| 0 <= k < units.len() implies pre.len() <= #[trigger] scan_units(
            d,
            i,
        )[k].1 <= scan_units(d, i)[k].2 <= d.len() && d.subrange(
            scan_units(d, i)[k].1,
            scan_units(d, i)[k].2,
        ) == units[k] && scan_units(d, i)[k].0 == pre.len() + annexb_offset(units, four, k as nat) by {
            if k > 0 {
                assert(scan_units(d, i)[k] == tail_scan[k - 1]);
                assert(units[k] == rest[k - 1]);
                assert(annexb_offset(units, four, k as nat) == start_code(four[0]).len() + u.len()
                    + annexb_offset(rest, rest_four, (k - 1) as nat));
            }
        }
    }
}

/// Scanning a stream built from `N` clean units, each behind a three- or
/// four-byte start code, finds exactly `N` units: the `k`-th is the `k`-th
/// payload, found at the `k`-th start code, so its type, layer and temporal
/// id come from that payload's two header bytes.
pub proof fn lemma_scan_finds_every_unit(units: Seq<Seq<u8>>, four: Seq<bool>)
    requires
        four.len() == units.len(),
        forall|k: int| 0 <= k < units.len() ==> clean_payload(#[trigger] units[k]),
    ensures
        ({
            let d = annexb(units, four);
            let sc = scan_units(d, 0);
            &&& sc.len() == units.len()
            &&& forall|k: int|
                0 <= k < units.len() ==> {
                    &&& d.subrange(#[trigger] sc[k].1, sc[k].2) == units[k]
                    &&& sc[k].0 == annexb_offset(units, four, k as nat)
                    &&& d[sc[k].1] == units[k][0]
                    &&& d[sc[k].1 + 1] == units[k][1]
                }
        }),
{
    let d = annexb(units, four);
    lemma_scan_annexb(Seq::empty(), units, four);
    assert(Seq::<u8>::empty() + d =~= d);
    let sc = scan_units(d, 0);
    assert forall|k: int| 0 <= k < units.len() implies d[#[trigger] sc[k].1] == units[k][0]
        && d[sc[k].1 + 1] == units[k][1] by {
        let sub = d.subrange(sc[k].1, sc[k].2);
        assert(sub == units[k]);
        assert(sub[0] == d[sc[k].1]);
        assert(sub[1] == d[sc[k].1 + 1]);
    }
}

/// Splits an Annex-B stream into NAL units.
pub fn find_nal_units(data: &[u8]) -> (r: Vec<HevcNalUnit>)
    ensures
        r@.len() == scan_units(data@, 0).len(),
        forall|k: int| 0 <= k < r@.len() ==> unit_matches(#[trigger] r@[k], data@, scan_units(data@, 0)[k]),
{
    let ghost d = data@;
    let mut nals: Vec<HevcNalUnit> = Vec::new();
    let ghost mut found: Seq<(int, int, int)> = Seq::empty();
    let mut i: usize = 0;
    while i < data.len()
        invariant
            d == data@,
            i <= data.len(),
            scan_units(d, 0) == found + scan_units(d, i as int),
            nals@.len() == found.len(),
            forall|k: int| 0 <= k < nals@.len() ==> unit_matches(#[trigger] nals@[k], d, found[k]),
        decreases data.len() - i,
    {
        let len = data.len();
        if len - i >= 3 && data[i] == 0 && data[i + 1] == 0 && (data[i + 2] == 1 || (len - i >= 4
            && data[i + 2] == 0 && data[i + 3] == 1)) {
            let nal_start: usize = if data[i + 2] == 1 {
                i + 3
            } else {
                i + 4
            };
            let mut nal_end: usize = len;
            let mut j: usize = nal_start;
            while len - j >= 3
                invariant_except_break
                    nal_end == len,
                invariant
                    d == data@,
                    len == data.len(),
                    nal_start <= j <= len,
                    unit_end(d, nal_start as int) == unit_end(d, j as int),
                ensures
                    (nal_end == j && is_start_code(d, j as int)) || (nal_end == len && j + 3 > len),
                decreases len - j,
            {
                if data[j] == 0 && data[j + 1] == 0 && (data[j + 2] == 1 || (len - j > 3 && data[j
                    + 2] == 0 && data[j + 3] == 1)) {
                    nal_end = j;
                    break;
                }
                j = j + 1;
            }
            proof {
                if !(nal_end == j && is_start_code(d, j as int)) {
                    lemma_unit_end_tail(d, j as int);
                }
                lemma_unit_end_bounds(d, nal_start as int);
            }
            let ghost old_found = found;
            if nal_end - nal_start >= 2 {
                let header0 = data[nal_start];
                let header1 = data[nal_start + 1];
                let nal_type = HevcNalType::from((header0 >> 1) & 0x3f);
                let layer_id: u8 = ((header0 & 1) << 5) | (header1 >> 3);
                let temporal_id: u8 = header1 & 7;
                let mut unit_data: Vec<u8> = Vec::new();
                let mut k: usize = nal_start;
                while k < nal_end
                    invariant
                        d == data@,
                        nal_start <= k <= nal_end <= data.len(),
                        unit_data@ == d.subrange(nal_start as int, k as int),
                    decreases nal_end - k,
                {
                    unit_data.push(data[k]);
                    k = k + 1;
                    proof {
                        assert(unit_data@ =~= d.subrange(nal_start as int, k as int));
                    }
                }
                let unit = HevcNalUnit { nal_type, layer_id, temporal_id, data: unit_data, offset: i };
                proof {
                    found = found.push((i as int, nal_start as int, nal_end as int));
                    assert(scan_units(d, i as int) == seq![(i as int, nal_start as int, nal_end as int)]
                        + scan_units(d, nal_end as int));
                    assert(scan_units(d, 0) == found + scan_units(d, nal_end as int));
                }
                nals.push(unit);
                proof {
                    assert forall|m: int| 0 <= m < nals@.len() implies unit_matches(
                        #[trigger] nals@[m],
                        d,
                        found[m],
                    ) by {
                        if m < old_found.len() {
                            assert(found[m] == old_found[m]);
                        }
                    }
                }
            }
            i = nal_end;
        } else {
            i = i + 1;
        }
    }
    proof {
        assert(scan_units(d, i as int) == Seq::<(int, int, int)>::empty());
        assert(found + Seq::<(int, int, int)>::empty() =~= found);
    }
    nals
}

/// Drops the emulation-prevention byte of every `00 00 03`, leaving the raw
/// byte sequence payload.
pub fn remove_emulation_prevention(data: &[u8]) -> (r: Vec<u8>)
    ensures
        r@ == rbsp(data@),
{
    let ghost d = data@;
    let mut result: Vec<u8> = Vec::new();
    let mut i: usize = 0;
    while i < data.len()
        invariant
            d == data@,
            i <= data.len(),
            rbsp(d) == result@ + rbsp_from(d, i as int),
        decreases data.len() - i,
    {
        if data.len() - i > 2 && data[i] == 0 && data[i + 1] == 0 && data[i + 2] == 3 {
            proof {
                assert(rbsp_from(d, i as int) == seq![0u8, 0u8] + rbsp_from(d, i + 3));
            }
            result.push(0);
            result.push(0);
            i = i + 3;
            proof {
                assert(rbsp(d) =~= result@ + rbsp_from(d, i as int));
            }
        } else {
            proof {
                assert(rbsp_from(d, i as int) == seq![d[i as int]] + rbsp_from(d, i + 1));
            }
            result.push(data[i]);
            i = i + 1;
            proof {
                assert(rbsp(d) =~= result@ + rbsp_from(d, i as int));
            }
        }
    }
    proof {
        assert(result@ + rbsp_from(d, i as int) =~= result@);
    }
    result
}

} // verus!
