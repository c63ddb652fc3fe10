//! Stage C: per-slot accumulation of completed FEC sets and detection of
//! complete batches.
use std::collections::HashSet;
use vstd::prelude::*;
use crate::fec::CompletedFecSet;
use crate::layout::{
    closes_batch, copy_meta, has_index, insert_absent, insert_if_absent, position_of, same_meta,
    spec_closes_batch, unique_indices, ShredMeta,
};

verus! {

/// Age after which a slot's accumulator is dropped, with any unflushed tail.
pub const SLOT_MAX_AGE_MILLIS: u64 = 30_000;

/// A batch handed to a batch worker: the fragments of indices
/// `batch_start_idx..=batch_end_idx` of `slot`, in index order.
#[derive(Debug)]
pub struct BatchWork {
    pub slot: u64,
    pub batch_start_idx: u32,
    pub batch_end_idx: u32,
    pub shreds: Vec<ShredMeta>,
}

/// The data fragments received for one slot and how far batches were dispatched.
#[derive(Debug)]
pub struct SlotAccumulator {
    pub slot: u64,
    pub data_shreds: Vec<ShredMeta>,
    pub last_processed_batch_idx: Option<u32>,
    pub created_at_millis: u64,
}

/// Index `k` holds a fragment.
pub open spec fn present(s: Seq<ShredMeta>, k: int) -> bool {
    0 <= k <= u32::MAX && has_index(s, k as u32)
}

/// The fragment of index `k`.
pub open spec fn frag_at(s: Seq<ShredMeta>, k: int) -> ShredMeta {
    s[choose|i: int| 0 <= i < s.len() && (#[trigger] s[i]).shred.index == k]
}

/// Index `k` holds a fragment that closes a batch.
pub open spec fn marked(s: Seq<ShredMeta>, k: int) -> bool {
    present(s, k) && spec_closes_batch(frag_at(s, k).shred.payload@)
}

/// Every index of `a..=b` holds a fragment.
pub open spec fn complete_range(s: Seq<ShredMeta>, a: int, b: int) -> bool {
    forall|k: int| a <= k <= b ==> #[trigger] present(s, k)
}

/// `a..=e` is the next batch from `a`: all of it is present, `e` closes it,
/// and no earlier index of it closes a batch.
pub open spec fn is_next_batch(s: Seq<ShredMeta>, a: int, e: int) -> bool {
    &&& a <= e
    &&& complete_range(s, a, e)
    &&& marked(s, e)
    &&& forall|k: int| a <= k < e ==> !#[trigger] marked(s, k)
}

/// First index of the next batch.
pub open spec fn batch_start(last: Option<u32>) -> int {
    match last {
        Some(l) => l + 1,
        None => 0,
    }
}

/// No batch can be dispatched from `a`.
pub open spec fn no_batch_from(s: Seq<ShredMeta>, a: int) -> bool {
    forall|e: int| !#[trigger] is_next_batch(s, a, e)
}

/// `w` holds, in order, copies of the fragments of `s` at `w`'s indices.
pub open spec fn holds_range(w: BatchWork, s: Seq<ShredMeta>) -> bool {
    &&& w.shreds@.len() == w.batch_end_idx - w.batch_start_idx + 1
    &&& forall|t: int|
        0 <= t < w.shreds@.len() ==> same_meta(
            #[trigger] w.shreds@[t],
            frag_at(s, w.batch_start_idx + t),
        )
}

/// `ws` is the run of batches that the walk from `a` dispatches over `s`:
/// each the next batch from the end of the one before.
pub open spec fn batch_run(ws: Seq<BatchWork>, s: Seq<ShredMeta>, slot: u64, a: int) -> bool {
    forall|j: int|
        0 <= j < ws.len() ==> {
            &&& (#[trigger] ws[j]).slot == slot
            &&& ws[j].batch_start_idx == (if j == 0 {
                a
            } else {
                ws[j - 1].batch_end_idx + 1
            })
            &&& is_next_batch(s, ws[j].batch_start_idx as int, ws[j].batch_end_idx as int)
            &&& holds_range(ws[j], s)
        }
}

/// The fragment of `s` found at position `i` is `frag_at(s, index)`.
pub proof fn lemma_frag_at(s: Seq<ShredMeta>, i: int)
    requires
        unique_indices(s),
        0 <= i < s.len(),
    ensures
        present(s, s[i].shred.index as int),
        frag_at(s, s[i].shred.index as int) == s[i],
{
    let k = s[i].shred.index;
    assert(has_index(s, k));
    let j = choose|j: int| 0 <= j < s.len() && (#[trigger] s[j]).shred.index == k;
    if j != i {
        assert(s[i].shred.index != s[j].shred.index);
    }
}

/// Copies of the fragments of indices `a..=e`, all present, in index order.
fn copy_range(s: &Vec<ShredMeta>, slot: u64, a: u32, e: u32) -> (w: BatchWork)
    requires
        unique_indices(s@),
        a <= e,
        complete_range(s@, a as int, e as int),
    ensures
        w.slot == slot,
        w.batch_start_idx == a,
        w.batch_end_idx == e,
        holds_range(w, s@),
{
    let mut shreds: Vec<ShredMeta> = Vec::new();
    let mut k: u64 = a as u64;
    while k <= e as u64
        invariant
            a <= k <= e as u64 + 1,
            a <= e,
            unique_indices(s@),
            complete_range(s@, a as int, e as int),
            shreds@.len() == k - a,
            forall|t: int| 0 <= t < shreds@.len() ==> same_meta(#[trigger] shreds@[t], frag_at(s@, a + t)),
        decreases e as u64 + 1 - k,
    {
        assert(present(s@, k as int));
        match position_of(s, k as u32) {
            Some(i) => {
                proof {
                    lemma_frag_at(s@, i as int);
                }
                shreds.push(copy_meta(&s[i]));
            },
            None => {
                assert(false);
            },
        }
        k = k + 1;
    }
    BatchWork { slot, batch_start_idx: a, batch_end_idx: e, shreds }
}


impl SlotAccumulator {
    pub open spec fn wf(&self) -> bool {
        unique_indices(self.data_shreds@)
    }

    pub fn new(slot: u64, now_millis: u64) -> (r: Self)
        ensures
            r.wf(),
            r.slot == slot,
            r.data_shreds@ == Seq::<ShredMeta>::empty(),
            r.last_processed_batch_idx.is_none(),
            r.created_at_millis == now_millis,
    {
        SlotAccumulator {
            slot,
            data_shreds: Vec::new(),
            last_processed_batch_idx: None,
            created_at_millis: now_millis,
        }
    }

    /// Dispatches, in order, every complete batch that follows the last one
    /// dispatched. A missing index stops the walk: no gap is skipped, and a
    /// batch whose fragments are not all here waits for them.
    pub fn try_dispatch_complete_batch(&mut self) -> (ws: Vec<BatchWork>)
        requires
            old(self).wf(),
        ensures
            final(self).wf(),
            final(self).slot == old(self).slot,
            final(self).data_shreds@ == old(self).data_shreds@,
            final(self).created_at_millis == old(self).created_at_millis,
            batch_run(ws@, old(self).data_shreds@, old(self).slot, batch_start(old(self).last_processed_batch_idx)),
            final(self).last_processed_batch_idx == (if ws@.len() == 0 {
                old(self).last_processed_batch_idx
            } else {
                Some(ws@.last().batch_end_idx)
            }),
            no_batch_from(final(self).data_shreds@, batch_start(final(self).last_processed_batch_idx)),
    {
        let ghost d = self.data_shreds@;
        let ghost a0 = batch_start(self.last_processed_batch_idx);
        let ghost last0 = self.last_processed_batch_idx;
        let ghost slot0 = self.slot;
        let ghost created0 = self.created_at_millis;
        let mut ws: Vec<BatchWork> = Vec::new();
        let mut start: u64 = match self.last_processed_batch_idx {
            Some(l) => l as u64 + 1,
            None => 0,
        };
        let mut k: u64 = start;
        let mut stalled: bool = false;
        while !stalled && k <= u32::MAX as u64
            invariant
                self.data_shreds@ == d,
                self.slot == slot0,
                self.created_at_millis == created0,
                a0 == batch_start(last0),
                unique_indices(d),
                start == batch_start(self.last_processed_batch_idx),
                start <= k <= u32::MAX as u64 + 1,
                complete_range(d, start as int, k - 1),
                forall|m: int| start <= m < k ==> !#[trigger] marked(d, m),
                stalled ==> !present(d, k as int),
                batch_run(ws@, d, self.slot, a0),
                self.last_processed_batch_idx == (if ws@.len() == 0 {
                    last0
                } else {
                    Some(ws@.last().batch_end_idx)
                }),
            decreases u32::MAX as u64 + 1 - k + (if stalled { 0int } else { 1int }),
        {
            match position_of(&self.data_shreds, k as u32) {
                None => {
                    stalled = true;
                },
                Some(i) => {
                    proof {
                        lemma_frag_at(d, i as int);
                    }
                    if closes_batch(&self.data_shreds[i].shred.payload) {
                        assert(complete_range(d, start as int, k as int)) by {
                            assert forall|m: int| start <= m <= k implies #[trigger] present(d, m) by {
                                if m < k {
                                    assert(present(d, m));
                                }
                            }
                        }
                        let w = copy_range(&self.data_shreds, self.slot, start as u32, k as u32);
                        let ghost ws0 = ws@;
                        ws.push(w);
                        proof {
                            assert(is_next_batch(d, start as int, k as int));
                            assert forall|j: int| 0 <= j < ws@.len() implies {
                                &&& (#[trigger] ws@[j]).slot == self.slot
                                &&& ws@[j].batch_start_idx == (if j == 0 { a0 } else { ws@[j - 1].batch_end_idx + 1 })
                                &&& is_next_batch(d, ws@[j].batch_start_idx as int, ws@[j].batch_end_idx as int)
                                &&& holds_range(ws@[j], d)
                            } by {
                                if j < ws0.len() {
                                    assert(ws@[j] == ws0[j]);
                                    if j > 0 {
                                        assert(ws@[j - 1] == ws0[j - 1]);
                                    }
                                } else {
                                    assert(ws@[j] == w);
                                    if j > 0 {
                                        assert(ws@[j - 1] == ws0[j - 1]);
                                        assert(ws0.last() == ws0[j - 1]);
                                        assert(start == ws0[j - 1].batch_end_idx + 1);
                                    } else {
                                        assert(start == a0);
                                    }
                                }
                            }
                        }
                        self.last_processed_batch_idx = Some(k as u32);
                        start = k + 1;
                    } else {
                        assert(!marked(d, k as int));
                        assert(complete_range(d, start as int, k as int)) by {
                            assert forall|m: int| start <= m <= k implies #[trigger] present(d, m) by {
                                if m < k {
                                    assert(present(d, m));
                                }
                            }
                        }
                    }
                    k = k + 1;
                },
            }
        }
        proof {
            assert forall|e: int| !#[trigger] is_next_batch(d, start as int, e) by {
                if is_next_batch(d, start as int, e) {
                    if e < k {
                        assert(!marked(d, e));
                    } else {
                        assert(present(d, k as int));
                    }
                }
            }
        }
        ws
    }
}


broadcast use vstd::std_specs::hash::group_hash_axioms;

/// `s` after merging the fragments of `x` in order; an index already present keeps its fragment.
pub open spec fn merge_all(s: Seq<ShredMeta>, x: Seq<ShredMeta>) -> Seq<ShredMeta>
    decreases x.len(),
{
    if x.len() == 0 {
        s
    } else {
        insert_absent(merge_all(s, x.drop_last()), x.last())
    }
}

pub open spec fn slot_has_key(a: SlotAccumulator, slot: u64) -> bool {
    a.slot == slot
}

pub open spec fn has_slot(accs: Seq<SlotAccumulator>, slot: u64) -> bool {
    exists|i: int| 0 <= i < accs.len() && slot_has_key(#[trigger] accs[i], slot)
}

pub open spec fn slot_at(accs: Seq<SlotAccumulator>, slot: u64) -> SlotAccumulator {
    accs[choose|i: int| 0 <= i < accs.len() && slot_has_key(#[trigger] accs[i], slot)]
}

pub open spec fn unique_slots(accs: Seq<SlotAccumulator>) -> bool {
    forall|i: int, j: int|
        0 <= i < accs.len() && 0 <= j < accs.len() && i != j ==> (#[trigger] accs[i]).slot
            != (#[trigger] accs[j]).slot
}

pub open spec fn slot_is_fresh(a: SlotAccumulator, now: u64) -> bool {
    now < a.created_at_millis || now - a.created_at_millis <= SLOT_MAX_AGE_MILLIS
}

pub open spec fn slot_fresh_pred(now: u64) -> spec_fn(SlotAccumulator) -> bool {
    |a: SlotAccumulator| slot_is_fresh(a, now)
}

/// The batch dispatcher: per-slot accumulators, the slots closed out, and the
/// round-robin choice among `num_workers` batch workers.
pub struct Dispatcher {
    pub slot_accumulators: Vec<SlotAccumulator>,
    pub processed_slots: HashSet<u64>,
    pub next_worker: usize,
    pub num_workers: usize,
}

impl Dispatcher {
    pub open spec fn wf(&self) -> bool {
        &&& forall|i: int| 0 <= i < self.slot_accumulators@.len() ==> (#[trigger] self.slot_accumulators@[i]).wf()
        &&& unique_slots(self.slot_accumulators@)
        &&& self.num_workers > 0
        &&& self.next_worker < self.num_workers
    }

    pub fn new(num_workers: usize) -> (r: Self)
        requires
            num_workers > 0,
        ensures
            r.wf(),
            r.slot_accumulators@.len() == 0,
            r.processed_slots@ == Set::<u64>::empty(),
            r.next_worker == 0,
            r.num_workers == num_workers,
    {
        Dispatcher { slot_accumulators: Vec::new(), processed_slots: HashSet::new(), next_worker: 0, num_workers }
    }

    /// The batch worker for the next batch; the choice cycles through all workers.
    pub fn pick_worker(&mut self) -> (w: usize)
        requires
            old(self).wf(),
        ensures
            final(self).wf(),
            w == old(self).next_worker,
            final(self).next_worker == (old(self).next_worker + 1) % (old(self).num_workers as int),
            final(self).num_workers == old(self).num_workers,
            final(self).slot_accumulators@ == old(self).slot_accumulators@,
            final(self).processed_slots@ == old(self).processed_slots@,
    {
        let w = self.next_worker;
        let n = self.num_workers;
        if w + 1 == n {
            assert((w + 1) % (n as int) == 0) by (nonlinear_arith)
                requires
                    w + 1 == n,
                    n > 0;
            self.next_worker = 0;
        } else {
            assert((w + 1) % (n as int) == w + 1) by (nonlinear_arith)
                requires
                    w + 1 < n;
            self.next_worker = w + 1;
        }
        w
    }

    fn take(&mut self, slot: u64) -> (r: Option<SlotAccumulator>)
        requires
            old(self).wf(),
        ensures
            final(self).wf(),
            final(self).processed_slots@ == old(self).processed_slots@,
            final(self).next_worker == old(self).next_worker,
            final(self).num_workers == old(self).num_workers,
            !has_slot(final(self).slot_accumulators@, slot),
            match r {
                Some(a) => has_slot(old(self).slot_accumulators@, slot) && a == slot_at(old(self).slot_accumulators@, slot),
                None => !has_slot(old(self).slot_accumulators@, slot)
                    && final(self).slot_accumulators@ == old(self).slot_accumulators@,
            },
            same_other_slots(old(self).slot_accumulators@, final(self).slot_accumulators@, slot),
    {
        let mut i: usize = 0;
        while i < self.slot_accumulators.len()
            invariant
                self.wf(),
                self.slot_accumulators@ == old(self).slot_accumulators@,
                self.processed_slots@ == old(self).processed_slots@,
                self.next_worker == old(self).next_worker,
                self.num_workers == old(self).num_workers,
                i <= self.slot_accumulators@.len(),
                forall|j: int| 0 <= j < i ==> !slot_has_key(#[trigger] self.slot_accumulators@[j], slot),
            decreases self.slot_accumulators@.len() - i,
        {
            if self.slot_accumulators[i].slot == slot {
                let ghost before = self.slot_accumulators@;
                proof {
                    assert(slot_has_key(before[i as int], slot));
                    let j = choose|j: int| 0 <= j < before.len() && slot_has_key(#[trigger] before[j], slot);
                    if j != i {
                        assert(before[i as int].slot != before[j].slot);
                    }
                    assert(j == i);
                }
                let a = self.slot_accumulators.remove(i);
                proof {
                    assert forall|s: u64| s != slot implies #[trigger] same_slot_at(before, self.slot_accumulators@, s) by {
                        lemma_slot_remove_frame(before, i as int, s);
                    }
                    let after = self.slot_accumulators@;
                    assert forall|k: int| 0 <= k < after.len() implies !slot_has_key(#[trigger] after[k], slot) by {
                        let j = if k < i { k } else { k + 1 };
                        assert(after[k] == before[j]);
                        assert(before[j].slot != before[i as int].slot);
                    }
                    assert forall|x: int, y: int| 0 <= x < after.len() && 0 <= y < after.len() && x != y
                        implies (#[trigger] after[x]).slot != (#[trigger] after[y]).slot by {
                        let jx = if x < i { x } else { x + 1 };
                        let jy = if y < i { y } else { y + 1 };
                        assert(after[x] == before[jx] && after[y] == before[jy]);
                    }
                    assert forall|x: int| 0 <= x < after.len() implies (#[trigger] after[x]).wf() by {
                        let jx = if x < i { x } else { x + 1 };
                        assert(after[x] == before[jx]);
                    }
                }
                return Some(a);
            }
            i = i + 1;
        }
        None
    }

    fn put(&mut self, a: SlotAccumulator)
        requires
            old(self).wf(),
            a.wf(),
            !has_slot(old(self).slot_accumulators@, a.slot),
        ensures
            final(self).wf(),
            final(self).processed_slots@ == old(self).processed_slots@,
            final(self).next_worker == old(self).next_worker,
            final(self).num_workers == old(self).num_workers,
            has_slot(final(self).slot_accumulators@, a.slot),
            slot_at(final(self).slot_accumulators@, a.slot) == a,
            same_other_slots(old(self).slot_accumulators@, final(self).slot_accumulators@, a.slot),
    {
        let ghost before = self.slot_accumulators@;
        self.slot_accumulators.push(a);
        proof {
            assert forall|s: u64| s != a.slot implies #[trigger] same_slot_at(before, self.slot_accumulators@, s) by {
                lemma_slot_push_frame(before, a, s);
            }
            let after = self.slot_accumulators@;
            let n = before.len() as int;
            assert(after[n] == a);
            assert(slot_has_key(after[n], a.slot));
            let j = choose|j: int| 0 <= j < after.len() && slot_has_key(#[trigger] after[j], a.slot);
            if j != n {
                assert(after[j] == before[j]);
            }
            assert forall|x: int, y: int| 0 <= x < after.len() && 0 <= y < after.len() && x != y
                implies (#[trigger] after[x]).slot != (#[trigger] after[y]).slot by {
                if x == n {
                    assert(after[y] == before[y]);
                } else if y == n {
                    assert(after[x] == before[x]);
                } else {
                    assert(after[x] == before[x] && after[y] == before[y]);
                }
            }
            assert forall|x: int| 0 <= x < after.len() implies (#[trigger] after[x]).wf() by {
                if x < n {
                    assert(after[x] == before[x]);
                }
            }
        }
    }

    /// Merges a completed FEC set into its slot and returns the batches that
    /// became complete, in order. A set of a closed-out slot is discarded.
    pub fn accumulate_completed_fec_set(&mut self, completed_fec_set: CompletedFecSet, now_millis: u64) -> (ws: Vec<BatchWork>)
        requires
            old(self).wf(),
        ensures
            final(self).wf(),
            final(self).processed_slots@ == old(self).processed_slots@,
            final(self).next_worker == old(self).next_worker,
            final(self).num_workers == old(self).num_workers,
            same_other_slots(old(self).slot_accumulators@, final(self).slot_accumulators@, completed_fec_set.slot),
            ({
                let slot = completed_fec_set.slot;
                let had = has_slot(old(self).slot_accumulators@, slot);
                let before = if had { slot_at(old(self).slot_accumulators@, slot).data_shreds@ } else { Seq::<ShredMeta>::empty() };
                let last0 = if had { slot_at(old(self).slot_accumulators@, slot).last_processed_batch_idx } else { None };
                let data = merge_all(before, completed_fec_set.data_shreds@);
                if old(self).processed_slots@.contains(slot) {
                    &&& ws@.len() == 0
                    &&& final(self).slot_accumulators@ == old(self).slot_accumulators@
                } else {
                    let acc = slot_at(final(self).slot_accumulators@, slot);
                    &&& has_slot(final(self).slot_accumulators@, slot)
                    &&& acc.slot == slot
                    &&& acc.created_at_millis == (if had {
                        slot_at(old(self).slot_accumulators@, slot).created_at_millis
                    } else {
                        now_millis
                    })
                    &&& acc.data_shreds@ == data
                    &&& batch_run(ws@, data, slot, batch_start(last0))
                    &&& acc.last_processed_batch_idx == (if ws@.len() == 0 { last0 } else { Some(ws@.last().batch_end_idx) })
                    &&& no_batch_from(data, batch_start(acc.last_processed_batch_idx))
                }
            }),
    {
        let slot = completed_fec_set.slot;
        if self.processed_slots.contains(&slot) {
            return Vec::new();
        }
        let mut acc = match self.take(slot) {
            Some(a) => a,
            None => SlotAccumulator::new(slot, now_millis),
        };
        assert(acc.data_shreds@ == (if has_slot(old(self).slot_accumulators@, slot) {
            slot_at(old(self).slot_accumulators@, slot).data_shreds@
        } else {
            Seq::<ShredMeta>::empty()
        }));
        let mut incoming = completed_fec_set.data_shreds;
        let ghost orig = acc.data_shreds@;
        let ghost last0 = acc.last_processed_batch_idx;
        let ghost created0 = acc.created_at_millis;
        let ghost mid_accs = self.slot_accumulators@;
        let ghost all = incoming@;
        let n: usize = incoming.len();
        assert(all.len() == n);
        let mut i: usize = 0;
        while incoming.len() > 0
            invariant
                incoming@ == all.subrange(i as int, all.len() as int),
                i <= all.len(),
                all.len() <= usize::MAX,
                acc.data_shreds@ == merge_all(orig, all.subrange(0, i as int)),
                acc.wf(),
                acc.slot == slot,
                acc.last_processed_batch_idx == last0,
                acc.created_at_millis == created0,
                self.wf(),
                self.slot_accumulators@ == mid_accs,
                !has_slot(mid_accs, slot),
                self.processed_slots@ == old(self).processed_slots@,
                self.next_worker == old(self).next_worker,
                self.num_workers == old(self).num_workers,
            decreases incoming@.len(),
        {
            let m = incoming.remove(0);
            proof {
                assert(m == all[i as int]);
                assert(all.subrange(0, i + 1).drop_last() =~= all.subrange(0, i as int));
                assert(incoming@ =~= all.subrange(i + 1, all.len() as int));
            }
            insert_if_absent(&mut acc.data_shreds, m);
            i = i + 1;
        }
        proof {
            assert(all.subrange(0, i as int) =~= all);
        }
        let ws = acc.try_dispatch_complete_batch();
        self.put(acc);
        proof {
            let fin = self.slot_accumulators@;
            assert forall|s: u64| s != slot implies #[trigger] same_slot_at(old(self).slot_accumulators@, fin, s) by {
                assert(same_slot_at(old(self).slot_accumulators@, mid_accs, s));
                assert(same_slot_at(mid_accs, fin, s));
            }
        }
        ws
    }
}


/// Each range of `ws` starts right after the one before (the first at `a`) and is not empty.
pub open spec fn ranges_chain(ws: Seq<BatchWork>, a: int) -> bool {
    forall|j: int| 0 <= j < ws.len() ==> #[trigger] follows(ws, j, a)
}

/// Range `j` of `ws` starts right after range `j - 1` (range 0 at `a`) and is not empty.
pub open spec fn follows(ws: Seq<BatchWork>, j: int, a: int) -> bool {
    &&& ws[j].batch_start_idx == (if j == 0 { a } else { ws[j - 1].batch_end_idx + 1 })
    &&& ws[j].batch_start_idx <= ws[j].batch_end_idx
}

/// One dispatch's batches follow each other from where it started.
pub proof fn lemma_batch_run_chains(ws: Seq<BatchWork>, s: Seq<ShredMeta>, slot: u64, a: int)
    requires
        batch_run(ws, s, slot, a),
    ensures
        ranges_chain(ws, a),
{
    assert forall|j: int| 0 <= j < ws.len() implies #[trigger] follows(ws, j, a) by {
        assert(is_next_batch(s, ws[j].batch_start_idx as int, ws[j].batch_end_idx as int));
    }
}

/// The batches a slot dispatches over a whole run follow each other with no gap
/// and strictly increasing ends: `ws1` is every batch of the slot dispatched so
/// far from `a`, and `ws2` those of the next dispatch, which starts after the
/// last one (`accumulate_completed_fec_set` states both). Applied call after
/// call, starting from `lemma_batch_run_chains`, it covers any number of calls.
pub proof fn lemma_batches_in_order(
    ws1: Seq<BatchWork>,
    ws2: Seq<BatchWork>,
    s2: Seq<ShredMeta>,
    slot: u64,
    a: int,
)
    requires
        ranges_chain(ws1, a),
        batch_run(ws2, s2, slot, if ws1.len() == 0 { a } else { ws1.last().batch_end_idx + 1 }),
    ensures
        ranges_chain(ws1 + ws2, a),
        forall|i: int, j: int| 0 <= i < j < ws1.len() + ws2.len() ==> (#[trigger] (ws1 + ws2)[i]).batch_end_idx < (#[trigger] (ws1 + ws2)[j]).batch_end_idx,
{
    let ws = ws1 + ws2;
    let a2 = if ws1.len() == 0 { a } else { ws1.last().batch_end_idx + 1 };
    lemma_batch_run_chains(ws2, s2, slot, a2);
    assert forall|j: int| 0 <= j < ws.len() implies #[trigger] follows(ws, j, a) by {
        if j < ws1.len() {
            assert(follows(ws1, j, a));
            assert(ws[j] == ws1[j]);
            if j > 0 {
                assert(ws[j - 1] == ws1[j - 1]);
            }
        } else {
            assert(follows(ws2, j - ws1.len(), a2));
            assert(ws[j] == ws2[j - ws1.len()]);
            if j > ws1.len() {
                assert(ws[j - 1] == ws2[j - 1 - ws1.len()]);
            } else if j > 0 {
                assert(ws[j - 1] == ws1.last());
            }
        }
    }
    assert forall|i: int, j: int| 0 <= i < j < ws.len() implies (#[trigger] ws[i]).batch_end_idx < (#[trigger] ws[j]).batch_end_idx by {
        lemma_chain_increasing(ws, a, i, j);
    }
}

proof fn lemma_chain_increasing(ws: Seq<BatchWork>, a: int, i: int, j: int)
    requires
        ranges_chain(ws, a),
        0 <= i < j < ws.len(),
    ensures
        ws[i].batch_end_idx < ws[j].batch_end_idx,
    decreases j - i,
{
    assert(follows(ws, j, a));
    assert(follows(ws, j - 1, a));
    if i < j - 1 {
        lemma_chain_increasing(ws, a, i, j - 1);
    }
}

proof fn lemma_merge_all_has(s: Seq<ShredMeta>, x: Seq<ShredMeta>)
    ensures
        forall|t: int| 0 <= t < x.len() ==> has_index(merge_all(s, x), (#[trigger] x[t]).shred.index),
        forall|k: u32| has_index(s, k) ==> has_index(merge_all(s, x), k),
    decreases x.len(),
{
    if x.len() > 0 {
        lemma_merge_all_has(s, x.drop_last());
        crate::layout::lemma_insert_absent_has(merge_all(s, x.drop_last()), x.last());
        assert forall|t: int| 0 <= t < x.len() implies has_index(merge_all(s, x), (#[trigger] x[t]).shred.index) by {
            if t < x.len() - 1 {
                assert(x[t] == x.drop_last()[t]);
            }
        }
    }
}

proof fn lemma_merge_all_noop(s: Seq<ShredMeta>, x: Seq<ShredMeta>)
    requires
        forall|t: int| 0 <= t < x.len() ==> has_index(s, (#[trigger] x[t]).shred.index),
    ensures
        merge_all(s, x) == s,
    decreases x.len(),
{
    if x.len() > 0 {
        assert forall|t: int| 0 <= t < x.drop_last().len() implies has_index(s, (#[trigger] x.drop_last()[t]).shred.index) by {
            assert(x.drop_last()[t] == x[t]);
        }
        lemma_merge_all_noop(s, x.drop_last());
        assert(has_index(s, x[x.len() - 1].shred.index));
    }
}

/// Delivering a completed FEC set a second time leaves the slot's fragments as
/// they were and dispatches no batch.
pub proof fn lemma_redelivery_dispatches_nothing(
    s: Seq<ShredMeta>,
    x: Seq<ShredMeta>,
    ws: Seq<BatchWork>,
    slot: u64,
    last: Option<u32>,
)
    requires
        no_batch_from(merge_all(s, x), batch_start(last)),
        batch_run(ws, merge_all(merge_all(s, x), x), slot, batch_start(last)),
    ensures
        merge_all(merge_all(s, x), x) == merge_all(s, x),
        ws.len() == 0,
{
    lemma_merge_all_has(s, x);
    lemma_merge_all_noop(merge_all(s, x), x);
    if ws.len() > 0 {
        assert(is_next_batch(merge_all(s, x), batch_start(last), ws[0].batch_end_idx as int));
    }
}

/// `a` and `b` hold the same accumulator for slot `s`, or neither holds one.
pub open spec fn same_slot_at(a: Seq<SlotAccumulator>, b: Seq<SlotAccumulator>, s: u64) -> bool {
    &&& has_slot(b, s) == has_slot(a, s)
    &&& has_slot(a, s) ==> slot_at(b, s) == slot_at(a, s)
}

/// The accumulators of slots other than `slot` are the same in `a` and `b`.
pub open spec fn same_other_slots(a: Seq<SlotAccumulator>, b: Seq<SlotAccumulator>, slot: u64) -> bool {
    forall|s: u64| s != slot ==> #[trigger] same_slot_at(a, b, s)
}

proof fn lemma_slot_remove_frame(before: Seq<SlotAccumulator>, i: int, s: u64)
    requires
        unique_slots(before),
        0 <= i < before.len(),
        before[i].slot != s,
    ensures
        same_slot_at(before, before.remove(i), s),
{
    let after = before.remove(i);
    if has_slot(before, s) {
        let jo = choose|j: int| 0 <= j < before.len() && slot_has_key(#[trigger] before[j], s);
        let w = if jo < i { jo } else { jo - 1 };
        assert(after[w] == before[jo]);
        let jf = choose|j: int| 0 <= j < after.len() && slot_has_key(#[trigger] after[j], s);
        let m = if jf < i { jf } else { jf + 1 };
        assert(after[jf] == before[m]);
        if m != jo {
            assert(before[m].slot != before[jo].slot);
        }
    }
    if has_slot(after, s) {
        let jf = choose|j: int| 0 <= j < after.len() && slot_has_key(#[trigger] after[j], s);
        let m = if jf < i { jf } else { jf + 1 };
        assert(after[jf] == before[m]);
    }
}

proof fn lemma_slot_push_frame(before: Seq<SlotAccumulator>, a: SlotAccumulator, s: u64)
    requires
        unique_slots(before),
        a.slot != s,
    ensures
        same_slot_at(before, before.push(a), s),
{
    let after = before.push(a);
    if has_slot(before, s) {
        let jo = choose|j: int| 0 <= j < before.len() && slot_has_key(#[trigger] before[j], s);
        assert(after[jo] == before[jo]);
        let jf = choose|j: int| 0 <= j < after.len() && slot_has_key(#[trigger] after[j], s);
        assert(jf < before.len());
        assert(after[jf] == before[jf]);
        if jf != jo {
            assert(before[jf].slot != before[jo].slot);
        }
    }
    if has_slot(after, s) {
        let jf = choose|j: int| 0 <= j < after.len() && slot_has_key(#[trigger] after[j], s);
        assert(jf < before.len());
        assert(after[jf] == before[jf]);
    }
}

/// Delivering a completed FEC set again to the slot it was merged into leaves
/// the slot's accumulator as it was: `a` is the accumulator after the first
/// delivery and `b`, with batches `ws`, what `accumulate_completed_fec_set`
/// states of the second.
pub proof fn lemma_redelivery_keeps_slot(
    s: Seq<ShredMeta>,
    x: Seq<ShredMeta>,
    a: SlotAccumulator,
    ws: Seq<BatchWork>,
    b: SlotAccumulator,
)
    requires
        a.data_shreds@ == merge_all(s, x),
        no_batch_from(a.data_shreds@, batch_start(a.last_processed_batch_idx)),
        b.slot == a.slot,
        b.created_at_millis == a.created_at_millis,
        b.data_shreds@ == merge_all(a.data_shreds@, x),
        batch_run(ws, b.data_shreds@, a.slot, batch_start(a.last_processed_batch_idx)),
        b.last_processed_batch_idx == (if ws.len() == 0 {
            a.last_processed_batch_idx
        } else {
            Some(ws.last().batch_end_idx)
        }),
    ensures
        ws.len() == 0,
        b.data_shreds@ == a.data_shreds@,
        b.last_processed_batch_idx == a.last_processed_batch_idx,
        b.created_at_millis == a.created_at_millis,
{
    lemma_redelivery_dispatches_nothing(s, x, ws, a.slot, a.last_processed_batch_idx);
}

} // verus!
