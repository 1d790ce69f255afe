use vstd::arithmetic::power2::pow2;
use vstd::prelude::*;

verus! {

/// Slots in the decoded picture buffer: 16 references and the picture being
/// decoded.
pub const MAX_DPB_SLOTS: usize = 17;

/// One slot of the decoded picture buffer.
#[derive(Debug, Clone, Copy, PartialEq, Eq, Structural)]
pub struct DpbSlot {
    /// Whether the slot holds a picture that later pictures may reference.
    pub in_use: bool,
    /// Decode counter of the picture held.
    pub frame_num: u64,
    pub pic_order_cnt: i32,
    pub is_reference: bool,
    pub is_long_term: bool,
}

/// What one picture's decode submission needs, worked out before it is made.
#[derive(Debug, Clone)]
pub struct PicturePlan {
    pub is_idr: bool,
    /// Slot the picture is decoded into.
    pub dst_slot: usize,
    pub pic_order_cnt: i32,
    /// The POC most significant part, kept for the next picture.
    pub poc_msb: i32,
    pub poc_lsb: i32,
    /// Slots handed to the hardware as active references, in slot order.
    pub references: Vec<usize>,
}

/// POC most significant part of a picture whose least significant part is
/// `lsb`, after a picture with parts `prev_msb` and `prev_lsb`.
pub open spec fn poc_msb(prev_msb: int, prev_lsb: int, lsb: int, max_lsb: int) -> int {
    if lsb < prev_lsb && prev_lsb - lsb >= max_lsb / 2 {
        prev_msb + max_lsb
    } else if lsb > prev_lsb && lsb - prev_lsb > max_lsb / 2 {
        prev_msb - max_lsb
    } else {
        prev_msb
    }
}

/// Empty slot.
pub open spec fn free_slot() -> DpbSlot {
    DpbSlot { in_use: false, frame_num: 0, pic_order_cnt: 0, is_reference: false, is_long_term: false }
}

/// In-use slots below `n` other than `dst`, in slot order.
pub open spec fn refs_below(slots: Seq<DpbSlot>, dst: int, n: int) -> Seq<usize>
    decreases n,
{
    if n <= 0 {
        Seq::empty()
    } else if slots[n - 1].in_use && n - 1 != dst {
        refs_below(slots, dst, n - 1).push((n - 1) as usize)
    } else {
        refs_below(slots, dst, n - 1)
    }
}

/// Slots after an IDR: all free.
pub open spec fn cleared(slots: Seq<DpbSlot>) -> Seq<DpbSlot> {
    Seq::new(slots.len(), |i: int| free_slot())
}

/// `slots` with the picture decoded into `dst`.
pub open spec fn placed(slots: Seq<DpbSlot>, dst: int, is_reference: bool, frame: nat, poc: int) -> Seq<
    DpbSlot,
> {
    slots.update(
        dst,
        DpbSlot {
            in_use: is_reference,
            frame_num: frame as u64,
            pic_order_cnt: poc as i32,
            is_reference,
            is_long_term: false,
        },
    )
}

/// Slots of a `len`-slot buffer, all free at first, after `n` reference
/// pictures (the `k`-th with POC `pocs[k]`) each went to the slot after the
/// previous one.
pub open spec fn reference_run(len: nat, pocs: Seq<int>, n: nat) -> Seq<DpbSlot>
    decreases n,
{
    if n == 0 {
        Seq::new(len, |i: int| free_slot())
    } else {
        let k = (n - 1) as nat;
        placed(reference_run(len, pocs, k), (k % len) as int, true, k, pocs[k as int])
    }
}

/// A run of pictures whose POC least significant parts each step forward by
/// `d`, at most half the LSB range, modulo the range: the most significant part
/// follows the wrap, so the POC grows by exactly `d` and never goes back.
pub proof fn lemma_poc_steps_forward(prev_msb: int, prev_lsb: int, d: int, log2_max_poc_lsb: nat)
    requires
        1 <= log2_max_poc_lsb,
        0 <= prev_lsb < pow2(log2_max_poc_lsb),
        0 < d <= pow2(log2_max_poc_lsb) / 2,
    ensures
        ({
            let max = pow2(log2_max_poc_lsb) as int;
            let lsb = (prev_lsb + d) % max;
            let msb = poc_msb(prev_msb, prev_lsb, lsb, max);
            &&& msb + lsb == prev_msb + prev_lsb + d
            &&& msb + lsb > prev_msb + prev_lsb
            &&& lsb < prev_lsb ==> msb == prev_msb + max
        }),
{
    let max = pow2(log2_max_poc_lsb) as int;
    vstd::arithmetic::power2::lemma_pow2_unfold(log2_max_poc_lsb);
    vstd::arithmetic::power2::lemma_pow2_pos((log2_max_poc_lsb - 1) as nat);
    let lsb = (prev_lsb + d) % max;
    if prev_lsb + d < max {
        assert(lsb == prev_lsb + d) by {
            vstd::arithmetic::div_mod::lemma_small_mod((prev_lsb + d) as nat, max as nat);
        }
    } else {
        assert(lsb == prev_lsb + d - max) by {
            vstd::arithmetic::div_mod::lemma_mod_add_multiples_vanish(prev_lsb + d - max, max);
            vstd::arithmetic::div_mod::lemma_small_mod((prev_lsb + d - max) as nat, max as nat);
        }
    }
}

/// After an IDR every slot is free. Then `n` reference pictures, each sent to
/// the slot after the last, occupy the first `min(n, len)` slots; the next
/// goes to slot `n mod len`; and each occupied slot `s` holds the latest
/// picture whose number is `s` modulo `len`, so no two live pictures share a
/// slot.
pub proof fn lemma_dpb_slot_reuse(slots: Seq<DpbSlot>, len: nat, pocs: Seq<int>, n: nat)
    requires
        1 <= len,
        n <= u64::MAX,
    ensures
        forall|s: int| 0 <= s < slots.len() ==> !(#[trigger] cleared(slots)[s]).in_use,
        reference_run(len, pocs, n).len() == len,
        forall|s: int|
            0 <= s < len ==> (#[trigger] reference_run(len, pocs, n)[s]).in_use == (s < n && s
                < len),
        forall|s: int|
            0 <= s < len && #[trigger] reference_run(len, pocs, n)[s].in_use ==> {
                let f = reference_run(len, pocs, n)[s].frame_num as int;
                &&& f % (len as int) == s
                &&& n - len <= f < n
            },
    decreases n,
{
    if n > 0 {
        let k = (n - 1) as nat;
        lemma_dpb_slot_reuse(slots, len, pocs, k);
        let prev = reference_run(len, pocs, k);
        let cur = reference_run(len, pocs, n);
        let dst = (k % len) as int;
        assert(cur == placed(prev, dst, true, k, pocs[k as int]));
        vstd::arithmetic::div_mod::lemma_mod_bound(k as int, len as int);
        assert forall|s: int| 0 <= s < len implies (#[trigger] cur[s]).in_use == (s < n && s
            < len) by {
            if s != dst {
                if k < len {
                    vstd::arithmetic::div_mod::lemma_small_mod(k, len);
                }
            } else if k < len {
                vstd::arithmetic::div_mod::lemma_small_mod(k, len);
            }
        }
        assert forall|s: int| 0 <= s < len && #[trigger] cur[s].in_use implies {
            let f = cur[s].frame_num as int;
            &&& f % (len as int) == s
            &&& n - len <= f < n
        } by {
            if s == dst {
                assert(cur[s].frame_num as int == k);
            } else {
                let f = prev[s].frame_num as int;
                assert(cur[s] == prev[s]);
                // f is the latest picture in slot s before k; k went elsewhere,
                // so f is not k - len.
                if f == k - len {
                    vstd::arithmetic::div_mod::lemma_mod_add_multiples_vanish(f, len as int);
                    assert(k as int == f + len);
                }
            }
        }
    }
}

/// One committed reference picture, as `commit_picture` describes it: the
/// picture goes to the current slot, the decode counter advances, the next
/// slot follows.
pub open spec fn commits_reference(before: DpbManager, after: DpbManager, poc: int) -> bool {
    &&& after.slots() == placed(before.slots(), before.index(), true, before.count(), poc)
    &&& after.index() == (before.index() + 1) % (before.slots().len() as int)
    &&& after.count() == before.count() + 1
}

/// Decoding `N` reference pictures after an IDR reset, through the states
/// `commit_picture` produces, in a buffer of any size: every slot starts
/// free; afterwards the first `min(N, len)` slots are occupied, the next
/// picture goes to slot `N mod len`, and each occupied slot holds the latest
/// picture whose number is its index modulo `len`, so no two live pictures
/// share a slot.
pub proof fn lemma_dpb_commits(states: Seq<DpbManager>, pocs: Seq<int>)
    requires
        states.len() >= 1,
        states.len() - 1 <= u64::MAX,
        states[0].slots().len() >= 1,
        states[0].slots() == cleared(states[0].slots()),
        states[0].index() == 0,
        states[0].count() == 0,
        forall|k: int|
            0 <= k < states.len() - 1 ==> commits_reference(
                #[trigger] states[k],
                states[k + 1],
                pocs[k],
            ),
    ensures
        ({
            let n = (states.len() - 1) as nat;
            let len = states[0].slots().len();
            let last = states[n as int];
            &&& forall|s: int| 0 <= s < len ==> !(#[trigger] states[0].slots()[s]).in_use
            &&& last.slots().len() == len
            &&& last.index() == n % len
            &&& forall|s: int| 0 <= s < len ==> (#[trigger] last.slots()[s]).in_use == (s < n)
            &&& forall|s: int|
                0 <= s < len && #[trigger] last.slots()[s].in_use ==> {
                    let f = last.slots()[s].frame_num as int;
                    &&& f % (len as int) == s
                    &&& n - len <= f < n
                }
        }),
{
    let len = states[0].slots().len();
    assert forall|k: int| 0 <= k < states.len() implies #[trigger] states[k].slots()
        == reference_run(len, pocs, k as nat) && states[k].index() == k % (len as int)
        && states[k].count() == k by {
        lemma_states_follow_run(states, pocs, k);
    }
    let n = (states.len() - 1) as nat;
    lemma_dpb_slot_reuse(states[0].slots(), len, pocs, n);
}

proof fn lemma_states_follow_run(states: Seq<DpbManager>, pocs: Seq<int>, k: int)
    requires
        states.len() >= 1,
        states[0].slots().len() >= 1,
        states[0].slots() == cleared(states[0].slots()),
        states[0].index() == 0,
        states[0].count() == 0,
        forall|j: int|
            0 <= j < states.len() - 1 ==> commits_reference(
                #[trigger] states[j],
                states[j + 1],
                pocs[j],
            ),
        0 <= k < states.len(),
    ensures
        states[k].slots() == reference_run(states[0].slots().len(), pocs, k as nat),
        states[k].index() == k % (states[0].slots().len() as int),
        states[k].count() == k,
    decreases k,
{
    let len = states[0].slots().len();
    if k == 0 {
        assert(states[0].slots() =~= reference_run(len, pocs, 0));
        vstd::arithmetic::div_mod::lemma_small_mod(0, len);
    } else {
        lemma_states_follow_run(states, pocs, k - 1);
        assert(commits_reference(states[k - 1], states[k], pocs[k - 1]));
        lemma_commit_step(states[k - 1], states[k], pocs, (k - 1) as nat, len);
    }
}

proof fn lemma_commit_step(before: DpbManager, after: DpbManager, pocs: Seq<int>, k: nat, len: nat)
    requires
        len >= 1,
        before.slots() == reference_run(len, pocs, k),
        before.index() == (k as int) % (len as int),
        before.count() == k,
        commits_reference(before, after, pocs[k as int]),
    ensures
        after.slots() == reference_run(len, pocs, k + 1),
        after.index() == (k as int + 1) % (len as int),
        after.count() == k + 1,
{
    lemma_run_len(len, pocs, k);
    lemma_next_index(k as int, len as int);
    assert(reference_run(len, pocs, k + 1) == placed(
        reference_run(len, pocs, k),
        (k % len) as int,
        true,
        k,
        pocs[k as int],
    ));
}

proof fn lemma_run_len(len: nat, pocs: Seq<int>, k: nat)
    requires
        len >= 1,
    ensures
        reference_run(len, pocs, k).len() == len,
    decreases k,
{
    if k > 0 {
        lemma_run_len(len, pocs, (k - 1) as nat);
        vstd::arithmetic::div_mod::lemma_mod_bound((k - 1) as int, len as int);
    }
}

proof fn lemma_next_index(i: int, len: int)
    requires
        i >= 0,
        len >= 1,
    ensures
        ((i % len) + 1) % len == (i + 1) % len,
{
    vstd::arithmetic::div_mod::lemma_add_mod_noop(i, 1, len);
    if len == 1 {
        assert(((i % len) + 1) % len == 0) by {
            vstd::arithmetic::div_mod::lemma_mod_bound((i % len) + 1, len);
        }
        assert((i + 1) % len == 0) by {
            vstd::arithmetic::div_mod::lemma_mod_bound(i + 1, len);
        }
    } else {
        vstd::arithmetic::div_mod::lemma_small_mod(1, len as nat);
    }
}

/// The buffer's slots, the slot the next picture goes to, the previous
/// picture's POC parts, and the decode counter.
pub struct DpbManager {
    slots: Vec<DpbSlot>,
    current_index: usize,
    prev_poc_msb: i32,
    prev_poc_lsb: i32,
    frame_count: u64,
}

impl DpbManager {
    pub closed spec fn slots(&self) -> Seq<DpbSlot> {
        self.slots@
    }

    pub closed spec fn index(&self) -> int {
        self.current_index as int
    }

    pub closed spec fn prev_msb(&self) -> int {
        self.prev_poc_msb as int
    }

    pub closed spec fn prev_lsb(&self) -> int {
        self.prev_poc_lsb as int
    }

    pub closed spec fn count(&self) -> nat {
        self.frame_count as nat
    }

    pub closed spec fn wf(&self) -> bool {
        &&& 1 <= self.slots@.len() <= MAX_DPB_SLOTS
        &&& self.current_index < self.slots@.len()
    }

    /// A buffer of `num_slots` free slots; the next picture goes to slot 0.
    pub fn new(num_slots: usize) -> (r: Self)
        requires
            1 <= num_slots <= MAX_DPB_SLOTS,
        ensures
            r.wf(),
            r.slots() == cleared(r.slots()),
            r.slots().len() == num_slots,
            r.index() == 0,
            r.prev_msb() == 0,
            r.prev_lsb() == 0,
            r.count() == 0,
    {
        let mut slots: Vec<DpbSlot> = Vec::new();
        let mut i: usize = 0;
        while i < num_slots
            invariant
                i <= num_slots,
                slots@ == Seq::new(i as nat, |k: int| free_slot()),
            decreases num_slots - i,
        {
            slots.push(
                DpbSlot {
                    in_use: false,
                    frame_num: 0,
                    pic_order_cnt: 0,
                    is_reference: false,
                    is_long_term: false,
                },
            );
            i = i + 1;
            proof {
                assert(slots@ =~= Seq::new(i as nat, |k: int| free_slot()));
            }
        }
        DpbManager { slots, current_index: 0, prev_poc_msb: 0, prev_poc_lsb: 0, frame_count: 0 }
    }

    /// Number of slots.
    pub fn num_slots(&self) -> (r: usize)
        requires
            self.wf(),
        ensures
            r == self.slots().len(),
            1 <= r <= MAX_DPB_SLOTS,
    {
        self.slots.len()
    }

    /// The slot at `i`.
    pub fn slot(&self, i: usize) -> (r: DpbSlot)
        requires
            self.wf(),
            i < self.slots().len(),
        ensures
            r == self.slots()[i as int],
    {
        self.slots[i]
    }

    /// Pictures decoded so far.
    pub fn frame_count(&self) -> (r: u64)
        ensures
            r == self.count(),
    {
        self.frame_count
    }

    /// Works out where the next picture goes, its POC and its references.
    /// An IDR picture resets the POC to 0, goes to slot 0 and references
    /// nothing. `None` when the POC does not fit the hardware's 32-bit field.
    pub fn plan_picture(&self, is_idr: bool, poc_lsb: u32, log2_max_poc_lsb: u8) -> (r: Option<
        PicturePlan,
    >)
        requires
            self.wf(),
            4 <= log2_max_poc_lsb <= 16,
            poc_lsb < pow2(log2_max_poc_lsb as nat),
        ensures
            ({
                let max = pow2(log2_max_poc_lsb as nat) as int;
                let msb = if is_idr {
                    0
                } else {
                    poc_msb(self.prev_msb(), self.prev_lsb(), poc_lsb as int, max)
                };
                let lsb = if is_idr {
                    0
                } else {
                    poc_lsb as int
                };
                let dst = if is_idr {
                    0
                } else {
                    self.index()
                };
                &&& r is None <==> !(i32::MIN <= msb && msb + lsb <= i32::MAX)
                &&& r matches Some(p) ==> {
                    &&& p.is_idr == is_idr
                    &&& p.dst_slot == dst
                    &&& p.dst_slot < self.slots().len()
                    &&& p.poc_msb == msb
                    &&& p.poc_lsb == lsb
                    &&& p.pic_order_cnt == msb + lsb
                    &&& p.references@ == (if is_idr {
                        Seq::empty()
                    } else {
                        refs_below(self.slots(), dst, self.slots().len() as int)
                    })
                }
            }),
    {
        proof {
            vstd::arithmetic::power2::lemma2_to64();
            if log2_max_poc_lsb < 16 {
                vstd::arithmetic::power2::lemma_pow2_strictly_increases(
                    log2_max_poc_lsb as nat,
                    16,
                );
            }
        }
        if is_idr {
            let references: Vec<usize> = Vec::new();
            return Some(
                PicturePlan {
                    is_idr,
                    dst_slot: 0,
                    pic_order_cnt: 0,
                    poc_msb: 0,
                    poc_lsb: 0,
                    references,
                },
            );
        }
        let mut max_lsb: i64 = 1;
        let mut k: u8 = 0;
        while k < log2_max_poc_lsb
            invariant
                k <= log2_max_poc_lsb <= 16,
                1 <= max_lsb <= 65536,
                max_lsb as nat == pow2(k as nat),
            decreases log2_max_poc_lsb - k,
        {
            proof {
                vstd::arithmetic::power2::lemma_pow2_unfold((k + 1) as nat);
                if k + 1 < 16 {
                    vstd::arithmetic::power2::lemma_pow2_strictly_increases((k + 1) as nat, 16);
                }
                vstd::arithmetic::power2::lemma2_to64();
            }
            max_lsb = max_lsb * 2;
            k = k + 1;
        }
        let lsb: i64 = poc_lsb as i64;
        let prev_lsb: i64 = self.prev_poc_lsb as i64;
        let prev_msb: i64 = self.prev_poc_msb as i64;
        let msb: i64 = if lsb < prev_lsb && prev_lsb - lsb >= max_lsb / 2 {
            prev_msb + max_lsb
        } else if lsb > prev_lsb && lsb - prev_lsb > max_lsb / 2 {
            prev_msb - max_lsb
        } else {
            prev_msb
        };
        if msb < i32::MIN as i64 || msb + lsb > i32::MAX as i64 {
            return None;
        }
        let dst = self.current_index;
        let mut references: Vec<usize> = Vec::new();
        let mut i: usize = 0;
        while i < self.slots.len()
            invariant
                self.wf(),
                dst == self.index(),
                i <= self.slots@.len(),
                references@ == refs_below(self.slots@, dst as int, i as int),
            decreases self.slots@.len() - i,
        {
            if self.slots[i].in_use && i != dst {
                references.push(i);
            }
            i = i + 1;
        }
        Some(
            PicturePlan {
                is_idr: false,
                dst_slot: dst,
                pic_order_cnt: (msb + lsb) as i32,
                poc_msb: msb as i32,
                poc_lsb: lsb as i32,
                references,
            },
        )
    }

    /// Records a picture whose submission succeeded: an IDR first frees every
    /// slot; the destination slot then holds the picture, in use only if it is
    /// a reference; the next picture goes to the following slot.
    pub fn commit_picture(&mut self, plan: &PicturePlan, is_reference: bool)
        requires
            old(self).wf(),
            plan.dst_slot < old(self).slots().len(),
        ensures
            final(self).wf(),
            ({
                let base = if plan.is_idr {
                    cleared(old(self).slots())
                } else {
                    old(self).slots()
                };
                final(self).slots() == placed(
                    base,
                    plan.dst_slot as int,
                    is_reference,
                    old(self).count(),
                    plan.pic_order_cnt as int,
                )
            }),
            final(self).index() == (plan.dst_slot + 1) % (old(self).slots().len() as int),
            final(self).prev_msb() == plan.poc_msb,
            final(self).prev_lsb() == plan.poc_lsb,
            final(self).count() == if old(self).count() < u64::MAX {
                old(self).count() + 1
            } else {
                old(self).count()
            },
    {
        if plan.is_idr {
            let mut i: usize = 0;
            let ghost n = self.slots@.len();
            while i < self.slots.len()
                invariant
                    self.slots@.len() == n,
                    n == old(self).slots@.len(),
                    1 <= n <= MAX_DPB_SLOTS,
                    self.current_index == old(self).current_index,
                    self.prev_poc_msb == old(self).prev_poc_msb,
                    self.prev_poc_lsb == old(self).prev_poc_lsb,
                    self.frame_count == old(self).frame_count,
                    i <= n,
                    forall|k: int| 0 <= k < i ==> self.slots@[k] == free_slot(),
                decreases n - i,
            {
                self.slots.set(
                    i,
                    DpbSlot {
                        in_use: false,
                        frame_num: 0,
                        pic_order_cnt: 0,
                        is_reference: false,
                        is_long_term: false,
                    },
                );
                i = i + 1;
            }
            proof {
                assert(self.slots@ =~= cleared(old(self).slots@));
            }
        }
        let dst = plan.dst_slot;
        self.slots.set(
            dst,
            DpbSlot {
                in_use: is_reference,
                frame_num: self.frame_count,
                pic_order_cnt: plan.pic_order_cnt,
                is_reference,
                is_long_term: false,
            },
        );
        self.current_index = (dst + 1) % self.slots.len();
        self.prev_poc_msb = plan.poc_msb;
        self.prev_poc_lsb = plan.poc_lsb;
        if self.frame_count < u64::MAX {
            self.frame_count = self.frame_count + 1;
        }
    }
}

} // verus!
