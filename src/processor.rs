//! The pipeline as a whole: sizing of the worker pools, routing of fragments
//! to FEC workers, and the dispatcher's periodic maintenance.
use std::collections::HashSet;
use vstd::prelude::*;
use crate::dispatch::{
    slot_fresh_pred, slot_is_fresh, unique_slots, Dispatcher, SlotAccumulator, SLOT_MAX_AGE_MILLIS,
};

verus! {

broadcast use vstd::std_specs::hash::group_hash_axioms;

/// Capacity of each FEC worker's inbox; a fragment that finds it full is dropped.
pub const FEC_INBOX_CAPACITY: usize = 10_000;

/// Capacity of the queue from the FEC workers to the dispatcher.
pub const COMPLETED_QUEUE_CAPACITY: usize = 1_000;

/// Capacity of each batch worker's inbox.
pub const BATCH_INBOX_CAPACITY: usize = 10_000;

/// Slots of `accs` whose accumulator is too old at `now`.
pub open spec fn expired_slots(accs: Seq<SlotAccumulator>, now: u64) -> Set<u64> {
    Set::new(|s: u64| exists|i: int| 0 <= i < accs.len() && (#[trigger] accs[i]).slot == s && !slot_is_fresh(accs[i], now))
}

/// Number of FEC workers on a machine of `cores` cores.
pub open spec fn spec_num_fec_workers(cores: usize) -> usize {
    if cores >= 4 { (cores - 2) as usize } else { 2 }
}

/// Number of batch workers on a machine of `cores` cores.
pub open spec fn spec_num_batch_workers(cores: usize) -> usize {
    if cores >= 4 { (cores - 3) as usize } else { 1 }
}

/// Multipliers of the routing hash (the 64-bit golden ratio and a large odd constant).
pub const MIX_SLOT: u64 = 0x9E37_79B9_7F4A_7C15;
pub const MIX_FEC: u64 = 0xC2B2_AE3D_27D4_EB4F;

/// A stable hash of `(slot, fec_set_index)`: both halves of the key are spread
/// over all 64 bits, combined, and the high half folded into the low half.
pub open spec fn fec_key_hash(slot: u64, fec_set_index: u32) -> u64 {
    let h = slot.wrapping_mul(MIX_SLOT) ^ (fec_set_index as u64).wrapping_mul(MIX_FEC);
    h ^ (h >> 32u64)
}

/// The FEC worker that owns `(slot, fec_set_index)` among `n` workers.
pub open spec fn spec_route(slot: u64, fec_set_index: u32, n: usize) -> int {
    fec_key_hash(slot, fec_set_index) as int % (n as int)
}

pub struct ShredProcessor {}

impl ShredProcessor {
    pub fn new() -> (r: Self) {
        ShredProcessor {}
    }

    pub fn num_fec_workers(cores: usize) -> (r: usize)
        ensures
            r == spec_num_fec_workers(cores),
            r >= 2,
    {
        if cores >= 4 { cores - 2 } else { 2 }
    }

    pub fn num_batch_workers(cores: usize) -> (r: usize)
        ensures
            r == spec_num_batch_workers(cores),
            r >= 1,
    {
        if cores >= 4 { cores - 3 } else { 1 }
    }

    /// The FEC worker inbox for a fragment: every fragment of one FEC set goes
    /// to the same worker.
    pub fn route_fec_shred(slot: u64, fec_set_index: u32, n: usize) -> (r: usize)
        requires
            n > 0,
        ensures
            r == spec_route(slot, fec_set_index, n),
            r < n,
    {
        let h = slot.wrapping_mul(MIX_SLOT) ^ (fec_set_index as u64).wrapping_mul(MIX_FEC);
        let h = h ^ (h >> 32u64);
        (h % n as u64) as usize
    }

    /// Drops the slot accumulators older than the maximum age, and their slots
    /// from the closed-out set.
    pub fn cleanup_memory(
        slot_accumulators: &mut Vec<SlotAccumulator>,
        processed_slots: &mut HashSet<u64>,
        now_millis: u64,
    )
        requires
            unique_slots(old(slot_accumulators)@),
            forall|i: int| 0 <= i < old(slot_accumulators)@.len() ==> (#[trigger] old(slot_accumulators)@[i]).wf(),
        ensures
            unique_slots(final(slot_accumulators)@),
            forall|i: int| 0 <= i < final(slot_accumulators)@.len() ==> (#[trigger] final(slot_accumulators)@[i]).wf(),
            final(slot_accumulators)@ == old(slot_accumulators)@.filter(slot_fresh_pred(now_millis)),
            final(processed_slots)@ == old(processed_slots)@.difference(
                expired_slots(old(slot_accumulators)@, now_millis),
            ),
    {
        let ghost orig = slot_accumulators@;
        let ghost p0 = processed_slots@;
        let ghost pred = slot_fresh_pred(now_millis);
        let mut rest: Vec<SlotAccumulator> = Vec::new();
        std::mem::swap(&mut rest, slot_accumulators);
        let n: usize = rest.len();
        assert(orig.len() == n);
        let mut kept: Vec<SlotAccumulator> = Vec::new();
        let ghost mut pos: Seq<int> = Seq::empty();
        let mut i: usize = 0;
        while rest.len() > 0
            invariant
                rest@ == orig.subrange(i as int, orig.len() as int),
                i <= orig.len(),
                orig.len() <= usize::MAX,
                pred == slot_fresh_pred(now_millis),
                kept@ == orig.subrange(0, i as int).filter(pred),
                processed_slots@ == p0.difference(expired_slots(orig.subrange(0, i as int), now_millis)),
                pos.len() == kept@.len(),
                forall|a: int| 0 <= a < pos.len() ==> 0 <= #[trigger] pos[a] < i && kept@[a] == orig[pos[a]],
                forall|a: int, b: int| 0 <= a < b < pos.len() ==> #[trigger] pos[a] < #[trigger] pos[b],
            decreases rest@.len(),
        {
            let a = rest.remove(0);
            let ghost pre = orig.subrange(0, i as int);
            let ghost post = orig.subrange(0, i + 1);
            proof {
                assert(a == orig[i as int]);
                assert(post.drop_last() =~= pre);
                assert(post.last() == a);
                reveal(Seq::filter);
                assert(post.filter(pred) == (if pred(a) { pre.filter(pred).push(a) } else { pre.filter(pred) }));
                assert(pred(a) == slot_is_fresh(a, now_millis));
                assert(rest@ =~= orig.subrange(i + 1, orig.len() as int));
            }
            if now_millis < a.created_at_millis || now_millis - a.created_at_millis <= SLOT_MAX_AGE_MILLIS {
                proof {
                    pos = pos.push(i as int);
                    assert forall|s: u64| expired_slots(post, now_millis).contains(s) <==> expired_slots(pre, now_millis).contains(s) by {
                        if expired_slots(post, now_millis).contains(s) {
                            let j = choose|j: int| 0 <= j < post.len() && (#[trigger] post[j]).slot == s && !slot_is_fresh(post[j], now_millis);
                            assert(j < i);
                            assert(pre[j] == post[j]);
                        }
                        if expired_slots(pre, now_millis).contains(s) {
                            let j = choose|j: int| 0 <= j < pre.len() && (#[trigger] pre[j]).slot == s && !slot_is_fresh(pre[j], now_millis);
                            assert(pre[j] == post[j]);
                        }
                    }
                    assert(expired_slots(post, now_millis) =~= expired_slots(pre, now_millis));
                }
                kept.push(a);
            } else {
                processed_slots.remove(&a.slot);
                proof {
                    assert forall|s: u64| expired_slots(post, now_millis).contains(s) <==> (expired_slots(pre, now_millis).contains(s) || s == a.slot) by {
                        if expired_slots(post, now_millis).contains(s) {
                            let j = choose|j: int| 0 <= j < post.len() && (#[trigger] post[j]).slot == s && !slot_is_fresh(post[j], now_millis);
                            if j < i {
                                assert(pre[j] == post[j]);
                            }
                        }
                        if expired_slots(pre, now_millis).contains(s) {
                            let j = choose|j: int| 0 <= j < pre.len() && (#[trigger] pre[j]).slot == s && !slot_is_fresh(pre[j], now_millis);
                            assert(pre[j] == post[j]);
                        }
                        if s == a.slot {
                            assert(post[i as int] == a);
                        }
                    }
                    assert(processed_slots@ =~= p0.difference(expired_slots(post, now_millis)));
                }
            }
            i = i + 1;
        }
        proof {
            assert(orig.subrange(0, i as int) =~= orig);
        }
        *slot_accumulators = kept;
        proof {
            let k = slot_accumulators@;
            assert forall|x: int, y: int| 0 <= x < k.len() && 0 <= y < k.len() && x != y
                implies (#[trigger] k[x]).slot != (#[trigger] k[y]).slot by {
                assert(k[x] == orig[pos[x]] && k[y] == orig[pos[y]]);
                if x < y { assert(pos[x] < pos[y]); } else { assert(pos[y] < pos[x]); }
            }
            assert forall|x: int| 0 <= x < k.len() implies (#[trigger] k[x]).wf() by {
                assert(k[x] == orig[pos[x]]);
            }
        }
    }

    /// Number of slots being accumulated, for the active-slots gauge.
    pub fn update_resource_metrics(slot_accumulators: &Vec<SlotAccumulator>) -> (r: usize)
        requires
            unique_slots(slot_accumulators@),
        ensures
            r == slot_accumulators@.len(),
    {
        slot_accumulators.len()
    }
}

impl Dispatcher {
    /// The periodic maintenance: slots older than the maximum age are dropped,
    /// with whatever they held that no batch took.
    pub fn maintenance(&mut self, now_millis: u64)
        requires
            old(self).wf(),
        ensures
            final(self).wf(),
            final(self).slot_accumulators@ == old(self).slot_accumulators@.filter(slot_fresh_pred(now_millis)),
            final(self).processed_slots@ == old(self).processed_slots@.difference(
                expired_slots(old(self).slot_accumulators@, now_millis),
            ),
            final(self).next_worker == old(self).next_worker,
            final(self).num_workers == old(self).num_workers,
    {
        ShredProcessor::cleanup_memory(&mut self.slot_accumulators, &mut self.processed_slots, now_millis);
    }

    /// Number of slots being accumulated.
    pub fn active_slots(&self) -> (r: usize)
        requires
            self.wf(),
        ensures
            r == self.slot_accumulators@.len(),
    {
        ShredProcessor::update_resource_metrics(&self.slot_accumulators)
    }
}

} // verus!
