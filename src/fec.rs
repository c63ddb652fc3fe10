//! Stage B: accumulation of fragments per FEC set, completion detection, and
//! emission of completed sets.
use std::collections::HashSet;
use vstd::prelude::*;
use crate::layout::{
    has_index, insert_absent, insert_if_absent, lemma_insert_absent_has, position_of,
    spec_expected_data_count, unique_indices, all_of_type, expected_data_count, Shred, ShredMeta,
    ShredType,
};

verus! {

/// Number of data fragments taken as a whole FEC set while no code fragment has
/// told the real count. A set with more data fragments is then emitted short;
/// this is accepted because such sets are rare and the common set has this size.
pub const OPTIMISTIC_DATA_COUNT: usize = 32;

/// Age after which an unfinished FEC set is dropped by a sweep.
pub const FEC_SET_MAX_AGE_MILLIS: u64 = 30_000;

#[derive(Debug, Clone, Copy, PartialEq, Eq, Structural)]
pub enum ReconstructionStatus {
    NotReady,
    /// Every data fragment is present.
    ReadyNatural,
    /// Enough data and code fragments are present to recover the rest.
    ReadyRecovery,
}

/// The data fragments of one FEC set, keyed by index inside `data_shreds`.
#[derive(Debug)]
pub struct CompletedFecSet {
    pub slot: u64,
    pub fec_set_index: u32,
    pub data_shreds: Vec<ShredMeta>,
}

/// Fragments received so far for one `(slot, fec_set_index)`.
#[derive(Debug)]
pub struct FecSetAccumulator {
    pub slot: u64,
    pub fec_set_index: u32,
    pub data_shreds: Vec<ShredMeta>,
    pub code_shreds: Vec<ShredMeta>,
    pub expected_data_shreds: Option<usize>,
    pub created_at_millis: u64,
}

/// What the accumulator knows: its two fragment maps and the expected data count.
pub struct FecSetView {
    pub data: Seq<ShredMeta>,
    pub code: Seq<ShredMeta>,
    pub expected: Option<usize>,
}

pub open spec fn empty_view() -> FecSetView {
    FecSetView { data: Seq::empty(), code: Seq::empty(), expected: None }
}

/// The accumulator after storing fragment `m`: a fragment whose index is already
/// present is not stored again, and the expected count is only set once.
pub open spec fn stored_view(v: FecSetView, m: ShredMeta) -> FecSetView {
    match m.shred.shred_type {
        ShredType::Code => FecSetView {
            data: v.data,
            code: insert_absent(v.code, m),
            expected: if v.expected.is_none() && spec_expected_data_count(
                m.shred.payload@,
            ).is_some() {
                Some(spec_expected_data_count(m.shred.payload@).unwrap() as usize)
            } else {
                v.expected
            },
        },
        ShredType::Data => FecSetView {
            data: insert_absent(v.data, m),
            code: v.code,
            expected: v.expected,
        },
    }
}

/// The reconstruction-ready predicate.
pub open spec fn spec_status(data: nat, code: nat, expected: Option<usize>) -> ReconstructionStatus {
    match expected {
        Some(e) => if data >= e {
            ReconstructionStatus::ReadyNatural
        } else if data + code >= e {
            ReconstructionStatus::ReadyRecovery
        } else {
            ReconstructionStatus::NotReady
        },
        None => if data >= OPTIMISTIC_DATA_COUNT {
            ReconstructionStatus::ReadyNatural
        } else {
            ReconstructionStatus::NotReady
        },
    }
}

pub open spec fn view_status(v: FecSetView) -> ReconstructionStatus {
    spec_status(v.data.len(), v.code.len(), v.expected)
}

/// Storing the same fragment a second time changes nothing.
pub proof fn lemma_store_twice(v: FecSetView, m: ShredMeta)
    ensures
        stored_view(stored_view(v, m), m) == stored_view(v, m),
{
    lemma_insert_absent_has(v.data, m);
    lemma_insert_absent_has(v.code, m);
}

impl FecSetAccumulator {
    pub open spec fn view(&self) -> FecSetView {
        FecSetView {
            data: self.data_shreds@,
            code: self.code_shreds@,
            expected: self.expected_data_shreds,
        }
    }

    pub open spec fn wf(&self) -> bool {
        &&& unique_indices(self.data_shreds@)
        &&& unique_indices(self.code_shreds@)
        &&& all_of_type(self.data_shreds@, ShredType::Data)
    }

    pub fn new(slot: u64, fec_set_index: u32, now_millis: u64) -> (r: Self)
        ensures
            r.wf(),
            r.view() == empty_view(),
            r.slot == slot,
            r.fec_set_index == fec_set_index,
            r.created_at_millis == now_millis,
    {
        FecSetAccumulator {
            slot,
            fec_set_index,
            data_shreds: Vec::new(),
            code_shreds: Vec::new(),
            expected_data_shreds: None,
            created_at_millis: now_millis,
        }
    }

    /// Stores a fragment in the map of its type.
    pub fn store_fec_shred(&mut self, shred_meta: ShredMeta)
        requires
            old(self).wf(),
        ensures
            final(self).wf(),
            final(self).view() == stored_view(old(self).view(), shred_meta),
            final(self).slot == old(self).slot,
            final(self).fec_set_index == old(self).fec_set_index,
            final(self).created_at_millis == old(self).created_at_millis,
    {
        match shred_meta.shred.shred_type {
            ShredType::Code => {
                if self.expected_data_shreds.is_none() {
                    match expected_data_count(&shred_meta.shred.payload) {
                        Some(e) => {
                            self.expected_data_shreds = Some(e as usize);
                        },
                        None => {},
                    }
                }
                insert_if_absent(&mut self.code_shreds, shred_meta);
            },
            ShredType::Data => {
                insert_if_absent(&mut self.data_shreds, shred_meta);
            },
        }
    }

    pub fn can_reconstruct_fec_set(&self) -> (r: ReconstructionStatus)
        ensures
            r == view_status(self.view()),
    {
        let data_count = self.data_shreds.len();
        let code_count = self.code_shreds.len();
        match self.expected_data_shreds {
            Some(expected) => {
                if data_count >= expected {
                    ReconstructionStatus::ReadyNatural
                } else if data_count as u128 + code_count as u128 >= expected as u128 {
                    ReconstructionStatus::ReadyRecovery
                } else {
                    ReconstructionStatus::NotReady
                }
            },
            None => {
                if data_count >= OPTIMISTIC_DATA_COUNT {
                    ReconstructionStatus::ReadyNatural
                } else {
                    ReconstructionStatus::NotReady
                }
            },
        }
    }
}

} // verus!

verus! {

broadcast use vstd::std_specs::hash::group_hash_axioms;

/// What a FEC worker did with one fragment.
#[derive(Debug)]
pub enum FecOutcome {
    /// The fragment's set was already emitted.
    Dropped,
    /// The set still lacks fragments.
    Pending,
    /// The set holds enough fragments to be recovered; the caller runs the decoder
    /// on `pending_set` and hands the result to `complete_recovery`.
    NeedsRecovery,
    /// The set is complete and has been emitted.
    Completed(CompletedFecSet),
}

/// A single number for `(slot, fec_set_index)`.
pub open spec fn fec_key_id(slot: u64, fec_set_index: u32) -> u128 {
    (slot as int * 0x1_0000_0000 + fec_set_index as int) as u128
}

pub fn fec_key(slot: u64, fec_set_index: u32) -> (r: u128)
    ensures
        r == fec_key_id(slot, fec_set_index),
{
    slot as u128 * 0x1_0000_0000u128 + fec_set_index as u128
}

pub open spec fn acc_has_key(a: FecSetAccumulator, slot: u64, fec_set_index: u32) -> bool {
    a.slot == slot && a.fec_set_index == fec_set_index
}

pub open spec fn has_acc(accs: Seq<FecSetAccumulator>, slot: u64, fec_set_index: u32) -> bool {
    exists|i: int| 0 <= i < accs.len() && acc_has_key(#[trigger] accs[i], slot, fec_set_index)
}

pub open spec fn acc_at(accs: Seq<FecSetAccumulator>, slot: u64, fec_set_index: u32) -> FecSetAccumulator {
    accs[choose|i: int| 0 <= i < accs.len() && acc_has_key(#[trigger] accs[i], slot, fec_set_index)]
}

/// What is known of a set: its accumulator, or nothing yet.
pub open spec fn acc_view_or_empty(accs: Seq<FecSetAccumulator>, slot: u64, fec_set_index: u32) -> FecSetView {
    if has_acc(accs, slot, fec_set_index) {
        acc_at(accs, slot, fec_set_index).view()
    } else {
        empty_view()
    }
}

pub open spec fn unique_keys(accs: Seq<FecSetAccumulator>) -> bool {
    forall|i: int, j: int|
        0 <= i < accs.len() && 0 <= j < accs.len() && i != j ==> !acc_has_key(
            #[trigger] accs[i],
            (#[trigger] accs[j]).slot,
            accs[j].fec_set_index,
        )
}

/// A recovered fragment did not come from the wire and has no arrival time.
pub open spec fn recovered_meta(s: Shred) -> ShredMeta {
    ShredMeta { shred: s, received_at_micros: None }
}

/// The data map after adding, in order, each recovered data fragment whose index is absent.
pub open spec fn merge_recovered(data: Seq<ShredMeta>, rec: Seq<Shred>) -> Seq<ShredMeta>
    decreases rec.len(),
{
    if rec.len() == 0 {
        data
    } else {
        let d = merge_recovered(data, rec.drop_last());
        if rec.last().shred_type == ShredType::Data {
            insert_absent(d, recovered_meta(rec.last()))
        } else {
            d
        }
    }
}

pub open spec fn age_millis(now: u64, then: u64) -> int {
    if now >= then {
        now - then
    } else {
        0
    }
}

pub open spec fn is_fresh(a: FecSetAccumulator, now: u64) -> bool {
    age_millis(now, a.created_at_millis) <= FEC_SET_MAX_AGE_MILLIS
}

pub open spec fn fresh_pred(now: u64) -> spec_fn(FecSetAccumulator) -> bool {
    |a: FecSetAccumulator| is_fresh(a, now)
}

/// One FEC worker: the sets it is accumulating, and the keys of the sets it has emitted.
pub struct FecWorker {
    pub accumulators: Vec<FecSetAccumulator>,
    pub processed: HashSet<u128>,
}

impl FecWorker {
    pub open spec fn wf(&self) -> bool {
        &&& forall|i: int| 0 <= i < self.accumulators@.len() ==> (#[trigger] self.accumulators@[i]).wf()
        &&& unique_keys(self.accumulators@)
        &&& forall|i: int|
            0 <= i < self.accumulators@.len() ==> !self.processed@.contains(
                fec_key_id((#[trigger] self.accumulators@[i]).slot, self.accumulators@[i].fec_set_index),
            )
    }

    pub fn new() -> (r: Self)
        ensures
            r.wf(),
            r.accumulators@.len() == 0,
            r.processed@ == Set::<u128>::empty(),
    {
        FecWorker { accumulators: Vec::new(), processed: HashSet::new() }
    }

    fn find(&self, slot: u64, fec_set_index: u32) -> (r: Option<usize>)
        requires
            self.wf(),
        ensures
            match r {
                Some(i) => i < self.accumulators@.len() && acc_has_key(
                    self.accumulators@[i as int],
                    slot,
                    fec_set_index,
                ) && has_acc(self.accumulators@, slot, fec_set_index) && acc_at(
                    self.accumulators@,
                    slot,
                    fec_set_index,
                ) == self.accumulators@[i as int],
                None => !has_acc(self.accumulators@, slot, fec_set_index),
            },
    {
        let mut i: usize = 0;
        while i < self.accumulators.len()
            invariant
                self.wf(),
                i <= self.accumulators@.len(),
                forall|j: int| 0 <= j < i ==> !acc_has_key(#[trigger] self.accumulators@[j], slot, fec_set_index),
            decreases self.accumulators@.len() - i,
        {
            if self.accumulators[i].slot == slot && self.accumulators[i].fec_set_index == fec_set_index {
                proof {
                    let accs = self.accumulators@;
                    assert(acc_has_key(accs[i as int], slot, fec_set_index));
                    let j = choose|j: int| 0 <= j < accs.len() && acc_has_key(#[trigger] accs[j], slot, fec_set_index);
                    if j != i {
                        assert(!acc_has_key(accs[i as int], accs[j].slot, accs[j].fec_set_index));
                    }
                    assert(j == i);
                }
                return Some(i);
            }
            i = i + 1;
        }
        None
    }

    /// The accumulator of a set still being gathered, for the recovery decoder.
    pub fn pending_set(&self, slot: u64, fec_set_index: u32) -> (r: Option<&FecSetAccumulator>)
        requires
            self.wf(),
        ensures
            match r {
                Some(a) => has_acc(self.accumulators@, slot, fec_set_index) && *a == acc_at(
                    self.accumulators@,
                    slot,
                    fec_set_index,
                ),
                None => !has_acc(self.accumulators@, slot, fec_set_index),
            },
    {
        match self.find(slot, fec_set_index) {
            Some(i) => Some(&self.accumulators[i]),
            None => None,
        }
    }

    /// Takes the accumulator of a key out of the worker, if there is one.
    fn take(&mut self, slot: u64, fec_set_index: u32) -> (r: Option<FecSetAccumulator>)
        requires
            old(self).wf(),
        ensures
            final(self).wf(),
            final(self).processed@ == old(self).processed@,
            !has_acc(final(self).accumulators@, slot, fec_set_index),
            match r {
                Some(a) => has_acc(old(self).accumulators@, slot, fec_set_index) && a == acc_at(
                    old(self).accumulators@,
                    slot,
                    fec_set_index,
                ),
                None => !has_acc(old(self).accumulators@, slot, fec_set_index)
                    && final(self).accumulators@ == old(self).accumulators@,
            },
            forall|k: int|
                0 <= k < final(self).accumulators@.len() ==> old(self).accumulators@.contains(
                    #[trigger] final(self).accumulators@[k],
                ),
            same_other_sets(old(self).accumulators@, final(self).accumulators@, slot, fec_set_index),
    {
        match self.find(slot, fec_set_index) {
            Some(i) => {
                let ghost before = self.accumulators@;
                let a = self.accumulators.remove(i);
                proof {
                    assert forall|s: u64, f: u32| !(s == slot && f == fec_set_index) implies #[trigger] same_set_at(before, self.accumulators@, s, f) by {
                        lemma_remove_frame(before, i as int, s, f);
                    }
                    let after = self.accumulators@;
                    assert forall|k: int| 0 <= k < after.len() implies !acc_has_key(#[trigger] after[k], slot, fec_set_index) by {
                        let j = if k < i { k } else { k + 1 };
                        assert(after[k] == before[j]);
                        assert(j != i);
                        assert(!acc_has_key(before[j], before[i as int].slot, before[i as int].fec_set_index));
                    }
                    assert forall|k: int| 0 <= k < after.len() implies before.contains(#[trigger] after[k]) by {
                        let j = if k < i { k } else { k + 1 };
                        assert(after[k] == before[j]);
                    }
                    assert forall|x: int, y: int| 0 <= x < after.len() && 0 <= y < after.len() && x != y
                        implies !acc_has_key(#[trigger] after[x], (#[trigger] after[y]).slot, after[y].fec_set_index) by {
                        let jx = if x < i { x } else { x + 1 };
                        let jy = if y < i { y } else { y + 1 };
                        assert(after[x] == before[jx] && after[y] == before[jy]);
                    }
                }
                Some(a)
            },
            None => {
                None
            },
        }
    }

    /// Puts back an accumulator whose key the worker does not hold.
    fn put(&mut self, a: FecSetAccumulator)
        requires
            old(self).wf(),
            a.wf(),
            !has_acc(old(self).accumulators@, a.slot, a.fec_set_index),
            !old(self).processed@.contains(fec_key_id(a.slot, a.fec_set_index)),
        ensures
            final(self).wf(),
            final(self).processed@ == old(self).processed@,
            final(self).accumulators@ == old(self).accumulators@.push(a),
            has_acc(final(self).accumulators@, a.slot, a.fec_set_index),
            acc_at(final(self).accumulators@, a.slot, a.fec_set_index) == a,
            same_other_sets(old(self).accumulators@, final(self).accumulators@, a.slot, a.fec_set_index),
    {
        let ghost before = self.accumulators@;
        self.accumulators.push(a);
        proof {
            assert forall|s: u64, f: u32| !(s == a.slot && f == a.fec_set_index) implies #[trigger] same_set_at(before, self.accumulators@, s, f) by {
                lemma_push_frame(before, a, s, f);
            }
            let after = self.accumulators@;
            let n = before.len() as int;
            assert(after[n] == a);
            assert(acc_has_key(after[n], a.slot, a.fec_set_index));
            let j = choose|j: int| 0 <= j < after.len() && acc_has_key(#[trigger] after[j], a.slot, a.fec_set_index);
            if j != n {
                assert(after[j] == before[j]);
            }
            assert forall|x: int, y: int| 0 <= x < after.len() && 0 <= y < after.len() && x != y
                implies !acc_has_key(#[trigger] after[x], (#[trigger] after[y]).slot, after[y].fec_set_index) by {
                if x == n {
                    assert(after[y] == before[y]);
                } else if y == n {
                    assert(after[x] == before[x]);
                } else {
                    assert(after[x] == before[x] && after[y] == before[y]);
                }
            }
        }
    }
}


impl FecWorker {
    /// Stores one fragment in its set and emits the set once it is complete
    /// without recovery. A fragment of a set already emitted is dropped.
    pub fn process_fec_shred(&mut self, shred_meta: ShredMeta, now_millis: u64) -> (r: FecOutcome)
        requires
            old(self).wf(),
        ensures
            final(self).wf(),
            same_other_sets(
                old(self).accumulators@,
                final(self).accumulators@,
                shred_meta.shred.slot,
                shred_meta.shred.fec_set_index,
            ),
            ({
                let slot = shred_meta.shred.slot;
                let fec = shred_meta.shred.fec_set_index;
                let key = fec_key_id(slot, fec);
                let after = stored_view(acc_view_or_empty(old(self).accumulators@, slot, fec), shred_meta);
                if old(self).processed@.contains(key) {
                    &&& r is Dropped
                    &&& final(self).processed@ == old(self).processed@
                    &&& final(self).accumulators@ == old(self).accumulators@
                } else if view_status(after) == ReconstructionStatus::ReadyNatural {
                    &&& r matches FecOutcome::Completed(set) && set.slot == slot
                        && set.fec_set_index == fec && set.data_shreds@ == after.data
                    &&& final(self).processed@ == old(self).processed@.insert(key)
                    &&& !has_acc(final(self).accumulators@, slot, fec)
                } else {
                    &&& (view_status(after) == ReconstructionStatus::ReadyRecovery ==> r is NeedsRecovery)
                    &&& (view_status(after) == ReconstructionStatus::NotReady ==> r is Pending)
                    &&& final(self).processed@ == old(self).processed@
                    &&& has_acc(final(self).accumulators@, slot, fec)
                    &&& acc_at(final(self).accumulators@, slot, fec).view() == after
                    &&& acc_at(final(self).accumulators@, slot, fec).created_at_millis == (if has_acc(
                        old(self).accumulators@,
                        slot,
                        fec,
                    ) {
                        acc_at(old(self).accumulators@, slot, fec).created_at_millis
                    } else {
                        now_millis
                    })
                }
            }),
    {
        let slot = shred_meta.shred.slot;
        let fec_set_index = shred_meta.shred.fec_set_index;
        let key = fec_key(slot, fec_set_index);
        if self.processed.contains(&key) {
            return FecOutcome::Dropped;
        }
        let mut acc = match self.take(slot, fec_set_index) {
            Some(a) => a,
            None => FecSetAccumulator::new(slot, fec_set_index, now_millis),
        };
        acc.store_fec_shred(shred_meta);
        match acc.can_reconstruct_fec_set() {
            ReconstructionStatus::ReadyNatural => {
                self.processed.insert(key);
                proof {
                    assert forall|i: int| 0 <= i < self.accumulators@.len() implies !self.processed@.contains(
                        fec_key_id((#[trigger] self.accumulators@[i]).slot, self.accumulators@[i].fec_set_index),
                    ) by {
                        if fec_key_id(self.accumulators@[i].slot, self.accumulators@[i].fec_set_index) == key {
                            lemma_fec_key_injective(self.accumulators@[i].slot, self.accumulators@[i].fec_set_index, slot, fec_set_index);
                            assert(acc_has_key(self.accumulators@[i], slot, fec_set_index));
                        }
                    }
                }
                FecOutcome::Completed(
                    CompletedFecSet { slot, fec_set_index, data_shreds: acc.data_shreds },
                )
            },
            ReconstructionStatus::ReadyRecovery => {
                let ghost mid = self.accumulators@;
                self.put(acc);
                proof {
                    lemma_same_other_sets_trans(old(self).accumulators@, mid, self.accumulators@, slot, fec_set_index);
                }
                FecOutcome::NeedsRecovery
            },
            ReconstructionStatus::NotReady => {
                let ghost mid = self.accumulators@;
                self.put(acc);
                proof {
                    lemma_same_other_sets_trans(old(self).accumulators@, mid, self.accumulators@, slot, fec_set_index);
                }
                FecOutcome::Pending
            },
        }
    }

    /// Finishes a set after the recovery decoder ran on it: with the decoder's
    /// fragments, the recovered data fragments whose index is absent are added
    /// without arrival time and the set is emitted; on a decoder failure
    /// (`None`) the set is kept, as a later fragment may still complete it.
    pub fn complete_recovery(&mut self, slot: u64, fec_set_index: u32, recovered: Option<Vec<Shred>>) -> (r: Option<CompletedFecSet>)
        requires
            old(self).wf(),
        ensures
            final(self).wf(),
            same_other_sets(old(self).accumulators@, final(self).accumulators@, slot, fec_set_index),
            match recovered {
                Some(rec) if has_acc(old(self).accumulators@, slot, fec_set_index) => {
                    &&& r matches Some(set) && set.slot == slot && set.fec_set_index == fec_set_index
                        && set.data_shreds@ == merge_recovered(
                            acc_at(old(self).accumulators@, slot, fec_set_index).data_shreds@,
                            rec@,
                        )
                    &&& final(self).processed@ == old(self).processed@.insert(fec_key_id(slot, fec_set_index))
                    &&& !has_acc(final(self).accumulators@, slot, fec_set_index)
                },
                _ => {
                    &&& r is None
                    &&& final(self).processed@ == old(self).processed@
                    &&& has_acc(final(self).accumulators@, slot, fec_set_index) == has_acc(old(self).accumulators@, slot, fec_set_index)
                    &&& has_acc(old(self).accumulators@, slot, fec_set_index) ==> acc_at(
                        final(self).accumulators@,
                        slot,
                        fec_set_index,
                    ) == acc_at(old(self).accumulators@, slot, fec_set_index)
                },
            },
    {
        let mut rec = match recovered {
            Some(rec) => rec,
            None => {
                return None;
            },
        };
        let mut acc = match self.take(slot, fec_set_index) {
            Some(a) => a,
            None => {
                return None;
            },
        };
        let ghost orig = acc.data_shreds@;
        let ghost all = rec@;
        let n: usize = rec.len();
        assert(all.len() == n);
        let mut i: usize = 0;
        while rec.len() > 0
            invariant
                rec@ == all.subrange(i as int, all.len() as int),
                i <= all.len(),
                all.len() <= usize::MAX,
                acc.data_shreds@ == merge_recovered(orig, all.subrange(0, i as int)),
                unique_indices(acc.data_shreds@),
                all_of_type(acc.data_shreds@, ShredType::Data),
            decreases rec@.len(),
        {
            let s = rec.remove(0);
            proof {
                assert(s == all[i as int]);
                assert(all.subrange(0, i + 1).drop_last() =~= all.subrange(0, i as int));
                assert(rec@ =~= all.subrange(i + 1, all.len() as int));
            }
            if s.shred_type == ShredType::Data {
                let m = ShredMeta { shred: s, received_at_micros: None };
                insert_if_absent(&mut acc.data_shreds, m);
            }
            i = i + 1;
        }
        proof {
            assert(all.subrange(0, i as int) =~= all);
        }
        self.processed.insert(fec_key(slot, fec_set_index));
        proof {
            let key = fec_key_id(slot, fec_set_index);
            assert forall|j: int| 0 <= j < self.accumulators@.len() implies !self.processed@.contains(
                fec_key_id((#[trigger] self.accumulators@[j]).slot, self.accumulators@[j].fec_set_index),
            ) by {
                if fec_key_id(self.accumulators@[j].slot, self.accumulators@[j].fec_set_index) == key {
                    lemma_fec_key_injective(self.accumulators@[j].slot, self.accumulators@[j].fec_set_index, slot, fec_set_index);
                    assert(acc_has_key(self.accumulators@[j], slot, fec_set_index));
                }
            }
        }
        Some(CompletedFecSet { slot, fec_set_index, data_shreds: acc.data_shreds })
    }

    /// Drops the sets older than the maximum age.
    pub fn cleanup_fec_sets(&mut self, now_millis: u64)
        requires
            old(self).wf(),
        ensures
            final(self).wf(),
            final(self).processed@ == old(self).processed@,
            final(self).accumulators@ == old(self).accumulators@.filter(fresh_pred(now_millis)),
    {
        let ghost orig = self.accumulators@;
        let ghost pred = fresh_pred(now_millis);
        let mut rest: Vec<FecSetAccumulator> = Vec::new();
        std::mem::swap(&mut rest, &mut self.accumulators);
        let n: usize = rest.len();
        assert(orig.len() == n);
        let mut kept: Vec<FecSetAccumulator> = Vec::new();
        let ghost mut pos: Seq<int> = Seq::empty();
        let mut i: usize = 0;
        while rest.len() > 0
            invariant
                rest@ == orig.subrange(i as int, orig.len() as int),
                i <= orig.len(),
                orig.len() <= usize::MAX,
                pred == fresh_pred(now_millis),
                kept@ == orig.subrange(0, i as int).filter(pred),
                pos.len() == kept@.len(),
                forall|a: int| 0 <= a < pos.len() ==> 0 <= #[trigger] pos[a] < i && kept@[a] == orig[pos[a]],
                forall|a: int, b: int| 0 <= a < b < pos.len() ==> #[trigger] pos[a] < #[trigger] pos[b],
            decreases rest@.len(),
        {
            let a = rest.remove(0);
            proof {
                assert(a == orig[i as int]);
                assert(orig.subrange(0, i + 1).drop_last() =~= orig.subrange(0, i as int));
                assert(orig.subrange(0, i + 1).last() == a);
                reveal(Seq::filter);
                assert(orig.subrange(0, i + 1).filter(pred) == (if pred(a) {
                    orig.subrange(0, i as int).filter(pred).push(a)
                } else {
                    orig.subrange(0, i as int).filter(pred)
                }));
                assert(pred(a) == is_fresh(a, now_millis));
                assert(pred(a) == (now_millis < a.created_at_millis || now_millis - a.created_at_millis <= FEC_SET_MAX_AGE_MILLIS));
                assert(rest@ =~= orig.subrange(i + 1, orig.len() as int));
            }
            if now_millis < a.created_at_millis || now_millis - a.created_at_millis <= FEC_SET_MAX_AGE_MILLIS {
                proof {
                    pos = pos.push(i as int);
                }
                kept.push(a);
            }
            i = i + 1;
        }
        proof {
            assert(orig.subrange(0, i as int) =~= orig);
        }
        self.accumulators = kept;
        proof {
            let k = self.accumulators@;
            assert forall|x: int, y: int| 0 <= x < k.len() && 0 <= y < k.len() && x != y
                implies !acc_has_key(#[trigger] k[x], (#[trigger] k[y]).slot, k[y].fec_set_index) by {
                assert(k[x] == orig[pos[x]] && k[y] == orig[pos[y]]);
                if x < y { assert(pos[x] < pos[y]); } else { assert(pos[y] < pos[x]); }
            }
            assert forall|x: int| 0 <= x < k.len() implies (#[trigger] k[x]).wf() && !self.processed@.contains(
                fec_key_id(k[x].slot, k[x].fec_set_index)) by {
                assert(k[x] == orig[pos[x]]);
            }
        }
    }
}

pub proof fn lemma_fec_key_injective(s1: u64, f1: u32, s2: u64, f2: u32)
    requires
        fec_key_id(s1, f1) == fec_key_id(s2, f2),
    ensures
        s1 == s2 && f1 == f2,
{
    assert(s1 as int * 0x1_0000_0000 + f1 as int == s2 as int * 0x1_0000_0000 + f2 as int) by (nonlinear_arith)
        requires
            fec_key_id(s1, f1) == fec_key_id(s2, f2),
            0 <= s1 < 0x1_0000_0000_0000_0000,
            0 <= s2 < 0x1_0000_0000_0000_0000,
            0 <= f1 < 0x1_0000_0000,
            0 <= f2 < 0x1_0000_0000;
    assert(s1 == s2 && f1 == f2) by (nonlinear_arith)
        requires
            s1 as int * 0x1_0000_0000 + f1 as int == s2 as int * 0x1_0000_0000 + f2 as int,
            0 <= f1 < 0x1_0000_0000,
            0 <= f2 < 0x1_0000_0000;
}


/// The accumulator after storing each fragment of `d` in order.
pub open spec fn feed_all(v: FecSetView, d: Seq<ShredMeta>) -> FecSetView
    decreases d.len(),
{
    if d.len() == 0 {
        v
    } else {
        stored_view(feed_all(v, d.drop_last()), d.last())
    }
}

/// Feeding all data fragments of a set, in whatever order they arrive, to an
/// accumulator without code fragments that knows the set's size (or, knowing
/// nothing, to a set of the optimistic size) completes it naturally on the last
/// fragment and not before, holding exactly the fragments fed.
pub proof fn lemma_natural_completion(v: FecSetView, d: Seq<ShredMeta>)
    requires
        v.data.len() == 0,
        v.code.len() == 0,
        unique_indices(d),
        all_of_type(d, ShredType::Data),
        (v.expected matches Some(e) && e == d.len()) || (v.expected.is_none() && d.len() == OPTIMISTIC_DATA_COUNT),
        d.len() > 0,
    ensures
        feed_all(v, d).data == d,
        view_status(feed_all(v, d)) == ReconstructionStatus::ReadyNatural,
        forall|p: int| 0 <= p < d.len() ==> view_status(#[trigger] feed_all(v, d.take(p))) == ReconstructionStatus::NotReady,
{
    lemma_feed_prefix(v, d, d.len() as int);
    assert(d.take(d.len() as int) =~= d);
    assert forall|p: int| 0 <= p < d.len() implies view_status(#[trigger] feed_all(v, d.take(p))) == ReconstructionStatus::NotReady by {
        lemma_feed_prefix(v, d, p);
        assert(d.take(p).len() == p);
    }
}

proof fn lemma_feed_prefix(v: FecSetView, d: Seq<ShredMeta>, p: int)
    requires
        v.data.len() == 0,
        v.code.len() == 0,
        unique_indices(d),
        all_of_type(d, ShredType::Data),
        0 <= p <= d.len(),
    ensures
        feed_all(v, d.take(p)).data == d.take(p),
        feed_all(v, d.take(p)).code.len() == 0,
        feed_all(v, d.take(p)).expected == v.expected,
    decreases p,
{
    if p == 0 {
        assert(d.take(0) =~= Seq::<ShredMeta>::empty());
        assert(v.data =~= Seq::<ShredMeta>::empty());
    } else {
        lemma_feed_prefix(v, d, p - 1);
        assert(d.take(p).drop_last() =~= d.take(p - 1));
        assert(d.take(p).last() == d[p - 1]);
        let prev = d.take(p - 1);
        if has_index(prev, d[p - 1].shred.index) {
            let j = choose|j: int| 0 <= j < prev.len() && (#[trigger] prev[j]).shred.index == d[p - 1].shred.index;
            assert(prev[j] == d[j]);
        }
        assert(prev.push(d[p - 1]) =~= d.take(p));
    }
}

/// A set whose size is known, holding fewer data fragments than that but at
/// least that many data and code fragments together, is ready for recovery;
/// recovery keeps every fragment held, with its arrival time, and adds a data
/// fragment for each recovered data index.
pub proof fn lemma_recovery_keeps_received(v: FecSetView, rec: Seq<Shred>)
    requires
        v.expected matches Some(e) && v.data.len() < e <= v.data.len() + v.code.len(),
    ensures
        view_status(v) == ReconstructionStatus::ReadyRecovery,
        v.data.is_prefix_of(merge_recovered(v.data, rec)),
        forall|t: int| 0 <= t < rec.len() && (#[trigger] rec[t]).shred_type == ShredType::Data
            ==> has_index(merge_recovered(v.data, rec), rec[t].index),
{
    lemma_merge_recovered(v.data, rec);
}

proof fn lemma_merge_recovered(data: Seq<ShredMeta>, rec: Seq<Shred>)
    ensures
        data.is_prefix_of(merge_recovered(data, rec)),
        forall|t: int| 0 <= t < rec.len() && (#[trigger] rec[t]).shred_type == ShredType::Data
            ==> has_index(merge_recovered(data, rec), rec[t].index),
    decreases rec.len(),
{
    if rec.len() > 0 {
        let r0 = rec.drop_last();
        lemma_merge_recovered(data, r0);
        let d = merge_recovered(data, r0);
        lemma_insert_absent_has(d, recovered_meta(rec.last()));
        if !has_index(d, rec.last().index) {
            assert(d.is_prefix_of(d.push(recovered_meta(rec.last()))));
        }
        assert forall|t: int| 0 <= t < rec.len() && (#[trigger] rec[t]).shred_type == ShredType::Data
            implies has_index(merge_recovered(data, rec), rec[t].index) by {
            if t < rec.len() - 1 {
                assert(rec[t] == r0[t]);
            }
        }
    }
}

/// Removing the set at `i` leaves the other keys where they were.
proof fn lemma_remove_frame(before: Seq<FecSetAccumulator>, i: int, s: u64, f: u32)
    requires
        unique_keys(before),
        0 <= i < before.len(),
        !acc_has_key(before[i], s, f),
    ensures
        has_acc(before.remove(i), s, f) == has_acc(before, s, f),
        has_acc(before, s, f) ==> acc_at(before.remove(i), s, f) == acc_at(before, s, f),
{
    let after = before.remove(i);
    if has_acc(before, s, f) {
        let jo = choose|j: int| 0 <= j < before.len() && acc_has_key(#[trigger] before[j], s, f);
        let w = if jo < i { jo } else { jo - 1 };
        assert(after[w] == before[jo]);
        let jf = choose|j: int| 0 <= j < after.len() && acc_has_key(#[trigger] after[j], s, f);
        let m = if jf < i { jf } else { jf + 1 };
        assert(after[jf] == before[m]);
        if m != jo {
            assert(!acc_has_key(before[m], before[jo].slot, before[jo].fec_set_index));
        }
    }
    if has_acc(after, s, f) {
        let jf = choose|j: int| 0 <= j < after.len() && acc_has_key(#[trigger] after[j], s, f);
        let m = if jf < i { jf } else { jf + 1 };
        assert(after[jf] == before[m]);
    }
}

/// Adding a set of another key leaves the key's set where it was.
proof fn lemma_push_frame(before: Seq<FecSetAccumulator>, a: FecSetAccumulator, s: u64, f: u32)
    requires
        unique_keys(before),
        !acc_has_key(a, s, f),
    ensures
        has_acc(before.push(a), s, f) == has_acc(before, s, f),
        has_acc(before, s, f) ==> acc_at(before.push(a), s, f) == acc_at(before, s, f),
{
    let after = before.push(a);
    if has_acc(before, s, f) {
        let jo = choose|j: int| 0 <= j < before.len() && acc_has_key(#[trigger] before[j], s, f);
        assert(after[jo] == before[jo]);
        let jf = choose|j: int| 0 <= j < after.len() && acc_has_key(#[trigger] after[j], s, f);
        assert(jf < before.len());
        assert(after[jf] == before[jf]);
        if jf != jo {
            assert(!acc_has_key(before[jf], before[jo].slot, before[jo].fec_set_index));
        }
    }
    if has_acc(after, s, f) {
        let jf = choose|j: int| 0 <= j < after.len() && acc_has_key(#[trigger] after[j], s, f);
        assert(jf < before.len());
        assert(after[jf] == before[jf]);
    }
}

/// The sets of keys other than `(slot, fec)` are the same in `a` and `b`.
pub open spec fn same_other_sets(a: Seq<FecSetAccumulator>, b: Seq<FecSetAccumulator>, slot: u64, fec: u32) -> bool {
    forall|s: u64, f: u32| !(s == slot && f == fec) ==> #[trigger] same_set_at(a, b, s, f)
}

/// `a` and `b` hold the same set for `(s, f)`, or neither holds one.
pub open spec fn same_set_at(a: Seq<FecSetAccumulator>, b: Seq<FecSetAccumulator>, s: u64, f: u32) -> bool {
    &&& has_acc(b, s, f) == has_acc(a, s, f)
    &&& has_acc(a, s, f) ==> acc_at(b, s, f) == acc_at(a, s, f)
}

proof fn lemma_same_other_sets_trans(
    a: Seq<FecSetAccumulator>,
    b: Seq<FecSetAccumulator>,
    c: Seq<FecSetAccumulator>,
    slot: u64,
    fec: u32,
)
    requires
        same_other_sets(a, b, slot, fec),
        same_other_sets(b, c, slot, fec),
    ensures
        same_other_sets(a, c, slot, fec),
{
    assert forall|s: u64, f: u32| !(s == slot && f == fec) implies #[trigger] same_set_at(a, c, s, f) by {
        assert(same_set_at(a, b, s, f));
        assert(same_set_at(b, c, s, f));
    }
}

/// A set is emitted at most once. `ps` is the set of emitted keys of a worker
/// at each step of a run; every method of `FecWorker` only adds to it, and a set
/// is emitted only when its key is absent and adds it. So once step `i` has
/// emitted `key`, the key is present at every later step `j`, and no later step
/// emits the set again.
pub proof fn lemma_set_emitted_once(ps: Seq<Set<u128>>, i: int, j: int, key: u128)
    requires
        forall|k: int| 0 <= k < ps.len() - 1 ==> (#[trigger] ps[k]).subset_of(ps[k + 1]),
        0 <= i < j < ps.len(),
        ps[i + 1].contains(key),
    ensures
        ps[j].contains(key),
    decreases j - i,
{
    if j > i + 1 {
        lemma_set_emitted_once(ps, i, j - 1, key);
        assert(ps[j - 1].subset_of(ps[j]));
    }
}

/// The data fragments of a set fed one by one to a worker that holds nothing of
/// the set: `views[k]` is the set's state before fragment `d[k]`, and each step
/// stores the fragment, as `FecWorker::process_fec_shred` states while the set
/// is not emitted. With the optimistic number of data fragments and no code
/// fragment, in whatever order they come, the set is not ready before the last
/// one and is then ready without recovery, holding exactly the fragments fed.
pub proof fn lemma_worker_natural_completion(views: Seq<FecSetView>, d: Seq<ShredMeta>)
    requires
        d.len() == OPTIMISTIC_DATA_COUNT,
        unique_indices(d),
        all_of_type(d, ShredType::Data),
        views.len() == d.len() + 1,
        views[0] == empty_view(),
        forall|k: int| 0 <= k < d.len() ==> #[trigger] views[k + 1] == stored_view(views[k], d[k]),
    ensures
        forall|k: int| 0 <= k < d.len() ==> view_status(#[trigger] views[k]) == ReconstructionStatus::NotReady,
        view_status(views[d.len() as int]) == ReconstructionStatus::ReadyNatural,
        views[d.len() as int].data == d,
{
    assert forall|k: int| 0 <= k <= d.len() implies #[trigger] views[k] == feed_all(empty_view(), d.take(k)) by {
        lemma_views_follow_feed(views, d, k);
    }
    lemma_natural_completion(empty_view(), d);
    assert(d.take(d.len() as int) =~= d);
    assert(views[d.len() as int] == feed_all(empty_view(), d.take(d.len() as int)));
    assert forall|k: int| 0 <= k < d.len() implies view_status(#[trigger] views[k]) == ReconstructionStatus::NotReady by {
        assert(views[k] == feed_all(empty_view(), d.take(k)));
    }
}

proof fn lemma_views_follow_feed(views: Seq<FecSetView>, d: Seq<ShredMeta>, k: int)
    requires
        views.len() == d.len() + 1,
        views[0] == empty_view(),
        forall|m: int| 0 <= m < d.len() ==> #[trigger] views[m + 1] == stored_view(views[m], d[m]),
        0 <= k <= d.len(),
    ensures
        views[k] == feed_all(empty_view(), d.take(k)),
    decreases k,
{
    if k == 0 {
        assert(d.take(0) =~= Seq::<ShredMeta>::empty());
    } else {
        lemma_views_follow_feed(views, d, k - 1);
        assert(d.take(k).drop_last() =~= d.take(k - 1));
        assert(d.take(k).last() == d[k - 1]);
        assert(views[(k - 1) + 1] == stored_view(views[k - 1], d[k - 1]));
    }
}

} // verus!
