use unshred::batch::{get_batch_data, BatchError, EntryCursor};
use unshred::dispatch::{BatchWork, Dispatcher};
use unshred::fec::{CompletedFecSet, FecOutcome, FecSetAccumulator, FecWorker, ReconstructionStatus};
use unshred::layout::{closes_batch, expected_data_count, read_le_u16, read_le_u64, Shred, ShredMeta, ShredType};
use unshred::processor::ShredProcessor;

/// A data fragment carrying `data` as its entry-stream bytes.
fn data_payload(data: &[u8], closes: bool) -> Vec<u8> {
    let mut p = vec![0u8; 88];
    if closes {
        p[85] = 0x40;
    }
    let total = (88 + data.len()) as u16;
    p[86] = (total & 0xff) as u8;
    p[87] = (total >> 8) as u8;
    p.extend_from_slice(data);
    p
}

fn code_payload(expected: u16) -> Vec<u8> {
    let mut p = vec![0u8; 100];
    p[83] = (expected & 0xff) as u8;
    p[84] = (expected >> 8) as u8;
    p
}

fn data_meta(slot: u64, fec: u32, index: u32, closes: bool, ts: Option<u64>) -> ShredMeta {
    ShredMeta {
        shred: Shred {
            slot,
            index,
            fec_set_index: fec,
            shred_type: ShredType::Data,
            payload: data_payload(&[index as u8, 0xAA], closes),
        },
        received_at_micros: ts,
    }
}

fn code_meta(slot: u64, fec: u32, index: u32, expected: u16, ts: Option<u64>) -> ShredMeta {
    ShredMeta {
        shred: Shred { slot, index, fec_set_index: fec, shred_type: ShredType::Code, payload: code_payload(expected) },
        received_at_micros: ts,
    }
}

fn completed(slot: u64, indices: &[u32], closing: &[u32]) -> CompletedFecSet {
    CompletedFecSet {
        slot,
        fec_set_index: 0,
        data_shreds: indices
            .iter()
            .map(|&i| data_meta(slot, 0, i, closing.contains(&i), Some(1000 + i as u64)))
            .collect(),
    }
}

fn ranges(ws: &[BatchWork]) -> Vec<(u32, u32)> {
    ws.iter().map(|w| (w.batch_start_idx, w.batch_end_idx)).collect()
}

#[test]
fn natural_completion_single_batch() {
    let mut worker = FecWorker::new();
    let mut emitted = Vec::new();
    for i in 0..32u32 {
        match worker.process_fec_shred(data_meta(100, 0, i, i == 31, Some(10 + i as u64)), 0) {
            FecOutcome::Completed(set) => emitted.push(set),
            FecOutcome::Pending => {}
            other => panic!("unexpected {:?}", other),
        }
    }
    assert_eq!(emitted.len(), 1);
    assert!(matches!(worker.process_fec_shred(code_meta(100, 0, 0, 32, Some(99)), 0), FecOutcome::Dropped));
    let set = emitted.pop().unwrap();
    assert_eq!(set.slot, 100);
    assert_eq!(set.data_shreds.len(), 32);

    let mut dispatcher = Dispatcher::new(2);
    let ws = dispatcher.accumulate_completed_fec_set(set, 0);
    assert_eq!(ranges(&ws), vec![(0, 31)]);
    assert_eq!(ws[0].slot, 100);
    assert_eq!(ws[0].shreds.len(), 32);
    assert_eq!(dispatcher.pick_worker(), 0);
    assert_eq!(dispatcher.pick_worker(), 1);
    assert_eq!(dispatcher.pick_worker(), 0);

    let meta = get_batch_data(&ws[0].shreds, 0, 31).unwrap();
    assert_eq!(meta.combined_data.len(), 64);
    assert_eq!(meta.combined_data_shred_indices[0], 0);
    assert_eq!(meta.combined_data_shred_indices[31], 62);
    assert_eq!(meta.combined_data_shred_received_at_micros[31], Some(41));
}

#[test]
fn recovery_completion() {
    let mut worker = FecWorker::new();
    assert!(matches!(worker.process_fec_shred(code_meta(100, 0, 0, 32, Some(1)), 0), FecOutcome::Pending));
    for i in 0..32u32 {
        if i == 5 || i == 17 {
            continue;
        }
        assert!(matches!(worker.process_fec_shred(data_meta(100, 0, i, i == 31, Some(10 + i as u64)), 0), FecOutcome::Pending));
    }
    assert!(matches!(worker.process_fec_shred(code_meta(100, 0, 1, 32, Some(2)), 0), FecOutcome::NeedsRecovery));
    let pending = worker.pending_set(100, 0).unwrap();
    assert_eq!(pending.can_reconstruct_fec_set(), ReconstructionStatus::ReadyRecovery);
    assert_eq!(pending.data_shreds.len(), 30);
    assert_eq!(pending.code_shreds.len(), 2);

    // What the decoder hands back: every data fragment of the set, and a code one.
    let mut recovered: Vec<Shred> = (0..32u32).map(|i| data_meta(100, 0, i, i == 31, None).shred).collect();
    recovered.push(code_meta(100, 0, 2, 32, None).shred);
    assert!(worker.complete_recovery(100, 0, None).is_none());
    assert!(worker.pending_set(100, 0).is_some());
    let set = worker.complete_recovery(100, 0, Some(recovered)).unwrap();
    assert_eq!(set.data_shreds.len(), 32);
    for m in &set.data_shreds {
        let i = m.shred.index;
        if i == 5 || i == 17 {
            assert_eq!(m.received_at_micros, None);
        } else {
            assert_eq!(m.received_at_micros, Some(10 + i as u64));
        }
    }
    assert!(worker.pending_set(100, 0).is_none());
    assert!(matches!(worker.process_fec_shred(code_meta(100, 0, 3, 32, Some(3)), 0), FecOutcome::Dropped));
}

#[test]
fn out_of_order_batch_closure() {
    let mut d = Dispatcher::new(1);
    assert!(d.accumulate_completed_fec_set(completed(200, &[10], &[10]), 0).is_empty());
    assert!(d.accumulate_completed_fec_set(completed(200, &[0, 1, 2, 3, 4], &[]), 0).is_empty());
    assert!(d.accumulate_completed_fec_set(completed(200, &[5, 6, 7, 8], &[]), 0).is_empty());
    let ws = d.accumulate_completed_fec_set(completed(200, &[9], &[]), 0);
    assert_eq!(ranges(&ws), vec![(0, 10)]);
    assert_eq!(ws[0].shreds.len(), 11);
}

#[test]
fn gap_stalls_dispatch() {
    let mut d = Dispatcher::new(3);
    assert!(d.accumulate_completed_fec_set(completed(300, &[0, 1, 2, 3, 4, 5, 7], &[7]), 0).is_empty());
    let ws = d.accumulate_completed_fec_set(completed(300, &[6], &[]), 0);
    assert_eq!(ranges(&ws), vec![(0, 7)]);
}

#[test]
fn deduplication() {
    let mut d = Dispatcher::new(2);
    let first = d.accumulate_completed_fec_set(completed(400, &[0, 1, 2, 3], &[3]), 0);
    let second = d.accumulate_completed_fec_set(completed(400, &[0, 1, 2, 3], &[3]), 0);
    assert_eq!(ranges(&first), vec![(0, 3)]);
    assert!(second.is_empty());
    assert_eq!(d.active_slots(), 1);
}

#[test]
fn gc_after_stall() {
    let mut d = Dispatcher::new(1);
    assert!(d.accumulate_completed_fec_set(completed(500, &[3], &[3]), 1_000).is_empty());
    d.maintenance(31_000);
    assert_eq!(d.active_slots(), 1);
    d.maintenance(31_001);
    assert_eq!(d.active_slots(), 0);
}

#[test]
fn batches_follow_without_gaps() {
    let mut d = Dispatcher::new(1);
    let ws = d.accumulate_completed_fec_set(completed(7, &[0, 1, 2, 3, 4, 5], &[1, 3, 5]), 0);
    assert_eq!(ranges(&ws), vec![(0, 1), (2, 3), (4, 5)]);
    let ws = d.accumulate_completed_fec_set(completed(7, &[6, 7, 9], &[7, 9]), 0);
    assert_eq!(ranges(&ws), vec![(6, 7)]);
    let ws = d.accumulate_completed_fec_set(completed(7, &[8], &[]), 0);
    assert_eq!(ranges(&ws), vec![(8, 9)]);
}

#[test]
fn batch_end_at_index_zero() {
    let mut d = Dispatcher::new(1);
    let ws = d.accumulate_completed_fec_set(completed(8, &[0], &[0]), 0);
    assert_eq!(ranges(&ws), vec![(0, 0)]);
}

#[test]
fn same_fragment_twice_changes_nothing() {
    let mut acc = FecSetAccumulator::new(1, 0, 0);
    acc.store_fec_shred(data_meta(1, 0, 4, false, Some(5)));
    acc.store_fec_shred(data_meta(1, 0, 4, false, Some(6)));
    assert_eq!(acc.data_shreds.len(), 1);
    assert_eq!(acc.data_shreds[0].received_at_micros, Some(5));
    acc.store_fec_shred(code_meta(1, 0, 0, 40, Some(7)));
    acc.store_fec_shred(code_meta(1, 0, 0, 50, Some(8)));
    assert_eq!(acc.code_shreds.len(), 1);
    assert_eq!(acc.expected_data_shreds, Some(40));
}

#[test]
fn optimistic_completion_of_32_data_fragments() {
    let mut acc = FecSetAccumulator::new(1, 0, 0);
    for i in 0..31u32 {
        acc.store_fec_shred(data_meta(1, 0, i, false, None));
    }
    assert_eq!(acc.can_reconstruct_fec_set(), ReconstructionStatus::NotReady);
    acc.store_fec_shred(data_meta(1, 0, 31, false, None));
    assert_eq!(acc.can_reconstruct_fec_set(), ReconstructionStatus::ReadyNatural);
}

#[test]
fn reconstruction_status_with_expected_count() {
    let mut acc = FecSetAccumulator::new(1, 0, 0);
    acc.store_fec_shred(code_meta(1, 0, 0, 3, None));
    acc.store_fec_shred(data_meta(1, 0, 0, false, None));
    assert_eq!(acc.can_reconstruct_fec_set(), ReconstructionStatus::NotReady);
    acc.store_fec_shred(data_meta(1, 0, 1, false, None));
    assert_eq!(acc.can_reconstruct_fec_set(), ReconstructionStatus::ReadyRecovery);
    acc.store_fec_shred(data_meta(1, 0, 2, false, None));
    assert_eq!(acc.can_reconstruct_fec_set(), ReconstructionStatus::ReadyNatural);
}

#[test]
fn short_code_fragment_sets_no_count() {
    let mut acc = FecSetAccumulator::new(1, 0, 0);
    let mut m = code_meta(1, 0, 0, 3, None);
    m.shred.payload.truncate(84);
    acc.store_fec_shred(m);
    assert_eq!(acc.expected_data_shreds, None);
}

#[test]
fn stale_fec_sets_are_swept() {
    let mut worker = FecWorker::new();
    worker.process_fec_shred(data_meta(1, 0, 0, false, None), 1_000);
    worker.process_fec_shred(data_meta(2, 0, 0, false, None), 20_000);
    worker.cleanup_fec_sets(31_000);
    assert_eq!(worker.accumulators.len(), 2);
    worker.cleanup_fec_sets(31_001);
    assert_eq!(worker.accumulators.len(), 1);
    assert_eq!(worker.accumulators[0].slot, 2);
}

#[test]
fn redundant_fragment_after_emission_is_dropped() {
    let mut worker = FecWorker::new();
    worker.process_fec_shred(code_meta(9, 32, 0, 1, None), 0);
    assert!(matches!(worker.process_fec_shred(data_meta(9, 32, 32, false, None), 0), FecOutcome::Completed(_)));
    assert!(matches!(worker.process_fec_shred(data_meta(9, 32, 32, false, None), 0), FecOutcome::Dropped));
    assert!(worker.accumulators.is_empty());
}

#[test]
fn empty_batch_yields_no_entries() {
    let cursor = EntryCursor::new(&vec![5, 0, 0, 0, 0, 0, 0, 0]);
    assert_eq!(cursor.next_entry_start(), None);
    let cursor = EntryCursor::new(&vec![]);
    assert_eq!(cursor.next_entry_start(), None);
}

#[test]
fn entries_are_walked_and_timed() {
    // Two fragments: the first gives 10 bytes, the second 12.
    let mut bytes = vec![2u8, 0, 0, 0, 0, 0, 0, 0];
    bytes.extend_from_slice(&[0u8; 14]);
    let shreds = vec![
        ShredMeta { shred: Shred { slot: 1, index: 0, fec_set_index: 0, shred_type: ShredType::Data, payload: data_payload(&bytes[0..10], false) }, received_at_micros: Some(100) },
        ShredMeta { shred: Shred { slot: 1, index: 1, fec_set_index: 0, shred_type: ShredType::Data, payload: data_payload(&bytes[10..22], true) }, received_at_micros: Some(200) },
    ];
    let meta = get_batch_data(&shreds, 0, 1).unwrap();
    assert_eq!(meta.combined_data, bytes);
    assert_eq!(meta.combined_data_shred_indices, vec![0, 10]);
    let mut cursor = EntryCursor::new(&meta.combined_data);
    assert_eq!(cursor.next_entry_start(), Some(8));
    let e1 = cursor
        .record("first", 6, &meta.combined_data_shred_indices, &meta.combined_data_shred_received_at_micros)
        .unwrap();
    assert_eq!(e1.received_at_micros, Some(100));
    assert_eq!(cursor.next_entry_start(), Some(14));
    assert_eq!(
        cursor.record("too long", 9, &meta.combined_data_shred_indices, &meta.combined_data_shred_received_at_micros).unwrap_err(),
        BatchError::EntryOutOfBounds
    );
    let e2 = cursor
        .record("second", 8, &meta.combined_data_shred_indices, &meta.combined_data_shred_received_at_micros)
        .unwrap();
    assert_eq!(e2.entry, "second");
    assert_eq!(e2.received_at_micros, Some(200));
    assert_eq!(cursor.next_entry_start(), None);
}

#[test]
fn timestamp_attribution() {
    let idx = vec![0usize, 10, 10, 25];
    let ts = vec![Some(1u64), None, Some(3), Some(4)];
    assert_eq!(ShredProcessor::find_earliest_contributing_shred_timestamp(0, &idx, &ts), Some(1));
    assert_eq!(ShredProcessor::find_earliest_contributing_shred_timestamp(9, &idx, &ts), Some(1));
    assert_eq!(ShredProcessor::find_earliest_contributing_shred_timestamp(10, &idx, &ts), Some(3));
    assert_eq!(ShredProcessor::find_earliest_contributing_shred_timestamp(24, &idx, &ts), Some(3));
    assert_eq!(ShredProcessor::find_earliest_contributing_shred_timestamp(25, &idx, &ts), Some(4));
    assert_eq!(ShredProcessor::find_earliest_contributing_shred_timestamp(1000, &idx, &ts), Some(4));
    assert_eq!(ShredProcessor::find_earliest_contributing_shred_timestamp(5, &vec![], &vec![]), None);
}

#[test]
fn batch_data_errors() {
    let mut short = data_meta(1, 0, 0, false, None);
    short.shred.payload.truncate(87);
    assert_eq!(get_batch_data(&vec![short], 0, 0).unwrap_err(), BatchError::InvalidPayload);
    let mut cut = data_meta(1, 0, 0, false, None);
    cut.shred.payload.truncate(89);
    assert_eq!(get_batch_data(&vec![cut], 0, 0).unwrap_err(), BatchError::MissingData);
    let one = data_meta(1, 0, 0, false, None);
    assert_eq!(get_batch_data(&vec![one], 0, 1).unwrap_err(), BatchError::MissingShred(1));
    let mut small = data_meta(1, 0, 0, false, None);
    small.shred.payload[86] = 10;
    small.shred.payload[87] = 0;
    assert_eq!(get_batch_data(&vec![small], 0, 0).unwrap().combined_data.len(), 0);
}

#[test]
fn byte_layout_readers() {
    assert_eq!(read_le_u16(0x34, 0x12), 0x1234);
    assert_eq!(read_le_u64(&vec![1, 2, 3, 4, 5, 6, 7, 8, 9]), 0x0807060504030201);
    assert_eq!(expected_data_count(&code_payload(300)), Some(300));
    assert_eq!(expected_data_count(&vec![0u8; 84]), None);
    assert!(closes_batch(&data_payload(&[], true)));
    assert!(!closes_batch(&data_payload(&[], false)));
    assert!(!closes_batch(&vec![0xffu8; 85]));
}

#[test]
fn worker_pool_sizes_and_routing() {
    assert_eq!(ShredProcessor::num_fec_workers(1), 2);
    assert_eq!(ShredProcessor::num_fec_workers(4), 2);
    assert_eq!(ShredProcessor::num_fec_workers(16), 14);
    assert_eq!(ShredProcessor::num_batch_workers(2), 1);
    assert_eq!(ShredProcessor::num_batch_workers(16), 13);
    assert_eq!(ShredProcessor::route_fec_shred(10, 3, 4), 2);
    assert_eq!(ShredProcessor::route_fec_shred(u64::MAX, u32::MAX, 7), 1);
    assert_eq!(ShredProcessor::route_fec_shred(10, 3, 4), ShredProcessor::route_fec_shred(10, 3, 4));
    let _ = ShredProcessor::new();
}

#[test]
fn routing_spreads_sets_of_one_slot() {
    // FEC set indices of one slot that differ by multiples of the worker count.
    let workers: Vec<usize> = (0..64u32).step_by(4).map(|f| ShredProcessor::route_fec_shred(100, f, 4)).collect();
    assert_eq!(workers, vec![1, 1, 0, 0, 3, 2, 2, 1, 1, 0, 3, 3, 2, 1, 1, 0]);
}

#[test]
fn new_accumulators_start_their_age_at_creation() {
    let mut worker = FecWorker::new();
    worker.process_fec_shred(data_meta(1, 0, 0, false, None), 5_000);
    worker.process_fec_shred(data_meta(1, 0, 1, false, None), 9_000);
    assert_eq!(worker.pending_set(1, 0).unwrap().created_at_millis, 5_000);
    worker.cleanup_fec_sets(35_000);
    assert!(worker.pending_set(1, 0).is_some());
    worker.cleanup_fec_sets(35_001);
    assert!(worker.pending_set(1, 0).is_none());

    let mut d = Dispatcher::new(1);
    d.accumulate_completed_fec_set(completed(500, &[3], &[]), 2_000);
    d.accumulate_completed_fec_set(completed(500, &[4], &[]), 20_000);
    assert_eq!(d.slot_accumulators[0].created_at_millis, 2_000);
    d.maintenance(32_001);
    assert_eq!(d.active_slots(), 0);
}

#[test]
fn second_delivery_leaves_slot_as_it_was() {
    let mut d = Dispatcher::new(2);
    let first = d.accumulate_completed_fec_set(completed(400, &[0, 1, 2, 3, 5], &[3]), 7);
    assert_eq!(ranges(&first), vec![(0, 3)]);
    let before: Vec<(u32, Option<u64>)> = d.slot_accumulators[0].data_shreds.iter().map(|m| (m.shred.index, m.received_at_micros)).collect();
    let second = d.accumulate_completed_fec_set(completed(400, &[0, 1, 2, 3, 5], &[3]), 99);
    assert!(second.is_empty());
    let acc = &d.slot_accumulators[0];
    let after: Vec<(u32, Option<u64>)> = acc.data_shreds.iter().map(|m| (m.shred.index, m.received_at_micros)).collect();
    assert_eq!(before, after);
    assert_eq!(acc.last_processed_batch_idx, Some(3));
    assert_eq!(acc.created_at_millis, 7);
    assert_eq!(d.next_worker, 0);
}

#[test]
fn recovery_completes_on_second_code_fragment() {
    let mut worker = FecWorker::new();
    for i in 0..32u32 {
        if i == 5 || i == 17 {
            continue;
        }
        assert!(matches!(worker.process_fec_shred(data_meta(100, 0, i, false, Some(i as u64)), 0), FecOutcome::Pending));
    }
    assert!(matches!(worker.process_fec_shred(code_meta(100, 0, 0, 32, None), 0), FecOutcome::Pending));
    assert!(matches!(worker.process_fec_shred(code_meta(100, 0, 1, 32, None), 0), FecOutcome::NeedsRecovery));
    let recovered = vec![data_meta(100, 0, 5, false, None).shred, data_meta(100, 0, 17, false, None).shred];
    let set = worker.complete_recovery(100, 0, Some(recovered)).unwrap();
    let mut indices: Vec<u32> = set.data_shreds.iter().map(|m| m.shred.index).collect();
    indices.sort();
    assert_eq!(indices, (0..32u32).collect::<Vec<_>>());
    assert!(matches!(worker.process_fec_shred(code_meta(100, 0, 2, 32, None), 0), FecOutcome::Dropped));
    assert!(matches!(worker.process_fec_shred(code_meta(100, 0, 3, 32, None), 0), FecOutcome::Dropped));
}
