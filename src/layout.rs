//! Byte layout of data and code fragments, and the fragment model shared by
//! every stage of the pipeline.
use vstd::prelude::*;

verus! {

/// Offset of the little-endian `u16` count of data fragments in a code fragment.
pub const OFFSET_EXPECTED_DATA: usize = 83;

/// Offset of the flags byte in a data fragment.
pub const OFFSET_FLAGS: usize = 85;

/// Offset of the little-endian `u16` total size (header and payload) of a data fragment.
pub const OFFSET_SIZE: usize = 86;

/// Offset at which the entry-stream bytes of a data fragment begin.
pub const DATA_OFFSET_PAYLOAD: usize = 88;

/// Flag bit that marks a data fragment as the last one of a batch.
pub const BATCH_COMPLETE_FLAG: u8 = 0x40;

#[derive(Debug, Clone, Copy, PartialEq, Eq, Structural)]
pub enum ShredType {
    Data,
    Code,
}

/// A parsed fragment: the header fields the pipeline reads, and the whole
/// serialized fragment as `payload`.
#[derive(Debug)]
pub struct Shred {
    pub slot: u64,
    pub index: u32,
    pub fec_set_index: u32,
    pub shred_type: ShredType,
    pub payload: Vec<u8>,
}

/// A fragment with its network-arrival time, if it came from the wire.
#[derive(Debug)]
pub struct ShredMeta {
    pub shred: Shred,
    pub received_at_micros: Option<u64>,
}

/// Two fragments with equal fields and equal bytes.
pub open spec fn same_meta(a: ShredMeta, b: ShredMeta) -> bool {
    &&& a.shred.slot == b.shred.slot
    &&& a.shred.index == b.shred.index
    &&& a.shred.fec_set_index == b.shred.fec_set_index
    &&& a.shred.shred_type == b.shred.shred_type
    &&& a.shred.payload@ == b.shred.payload@
    &&& a.received_at_micros == b.received_at_micros
}

/// Little-endian `u16` of two bytes.
pub open spec fn le_u16(lo: u8, hi: u8) -> u16 {
    ((lo as u16) | ((hi as u16) << 8u16)) as u16
}

/// Little-endian `u64` of the first eight bytes of `b`.
pub open spec fn le_u64(b: Seq<u8>) -> u64
    recommends
        b.len() >= 8,
{
    ((b[0] as u64) | ((b[1] as u64) << 8u64) | ((b[2] as u64) << 16u64) | ((b[3] as u64)
        << 24u64) | ((b[4] as u64) << 32u64) | ((b[5] as u64) << 40u64) | ((b[6] as u64)
        << 48u64) | ((b[7] as u64) << 56u64)) as u64
}

/// A data fragment closes a batch when its flags byte has the batch-complete bit.
pub open spec fn spec_closes_batch(p: Seq<u8>) -> bool {
    p.len() > OFFSET_FLAGS && p[OFFSET_FLAGS as int] & BATCH_COMPLETE_FLAG != 0
}

/// The data-fragment count a code fragment carries, when it is long enough to carry one.
pub open spec fn spec_expected_data_count(p: Seq<u8>) -> Option<u16> {
    if p.len() >= OFFSET_EXPECTED_DATA + 2 {
        Some(le_u16(p[OFFSET_EXPECTED_DATA as int], p[OFFSET_EXPECTED_DATA + 1]))
    } else {
        None
    }
}

pub fn closes_batch(payload: &Vec<u8>) -> (r: bool)
    ensures
        r == spec_closes_batch(payload@),
{
    payload.len() > OFFSET_FLAGS && payload[OFFSET_FLAGS] & BATCH_COMPLETE_FLAG != 0
}

pub fn read_le_u16(lo: u8, hi: u8) -> (r: u16)
    ensures
        r == le_u16(lo, hi),
{
    (lo as u16) | ((hi as u16) << 8u16)
}

pub fn read_le_u64(b: &Vec<u8>) -> (r: u64)
    requires
        b@.len() >= 8,
    ensures
        r == le_u64(b@),
{
    (b[0] as u64) | ((b[1] as u64) << 8u64) | ((b[2] as u64) << 16u64) | ((b[3] as u64)
        << 24u64) | ((b[4] as u64) << 32u64) | ((b[5] as u64) << 40u64) | ((b[6] as u64)
        << 48u64) | ((b[7] as u64) << 56u64)
}

pub fn expected_data_count(payload: &Vec<u8>) -> (r: Option<u16>)
    ensures
        r == spec_expected_data_count(payload@),
{
    if payload.len() >= OFFSET_EXPECTED_DATA + 2 {
        Some(read_le_u16(payload[OFFSET_EXPECTED_DATA], payload[OFFSET_EXPECTED_DATA + 1]))
    } else {
        None
    }
}

/// A byte-for-byte copy of a buffer.
pub fn copy_bytes(v: &Vec<u8>) -> (r: Vec<u8>)
    ensures
        r@ == v@,
{
    let mut r: Vec<u8> = Vec::with_capacity(v.len());
    let mut i: usize = 0;
    while i < v.len()
        invariant
            i <= v@.len(),
            r@ == v@.subrange(0, i as int),
        decreases v@.len() - i,
    {
        r.push(v[i]);
        i = i + 1;
        assert(r@ =~= v@.subrange(0, i as int));
    }
    assert(r@ =~= v@);
    r
}

/// A copy of a fragment and its arrival time.
pub fn copy_meta(m: &ShredMeta) -> (r: ShredMeta)
    ensures
        same_meta(r, *m),
{
    ShredMeta {
        shred: Shred {
            slot: m.shred.slot,
            index: m.shred.index,
            fec_set_index: m.shred.fec_set_index,
            shred_type: m.shred.shred_type,
            payload: copy_bytes(&m.shred.payload),
        },
        received_at_micros: m.received_at_micros,
    }
}

} // verus!

verus! {

/// Some fragment of `s` has index `k`.
pub open spec fn has_index(s: Seq<ShredMeta>, k: u32) -> bool {
    exists|i: int| 0 <= i < s.len() && (#[trigger] s[i]).shred.index == k
}

/// No two fragments of `s` share an index: `s` is a map from index to fragment.
pub open spec fn unique_indices(s: Seq<ShredMeta>) -> bool {
    forall|i: int, j: int|
        0 <= i < s.len() && 0 <= j < s.len() && i != j ==> (#[trigger] s[i]).shred.index
            != (#[trigger] s[j]).shred.index
}

/// Every fragment of `s` has type `t`.
pub open spec fn all_of_type(s: Seq<ShredMeta>, t: ShredType) -> bool {
    forall|i: int| 0 <= i < s.len() ==> (#[trigger] s[i]).shred.shred_type == t
}

/// `s` with `m` added, unless a fragment of that index is already there.
pub open spec fn insert_absent(s: Seq<ShredMeta>, m: ShredMeta) -> Seq<ShredMeta> {
    if has_index(s, m.shred.index) {
        s
    } else {
        s.push(m)
    }
}

/// Position of the fragment with index `k`.
pub fn position_of(v: &Vec<ShredMeta>, k: u32) -> (r: Option<usize>)
    ensures
        match r {
            Some(i) => i < v@.len() && v@[i as int].shred.index == k,
            None => !has_index(v@, k),
        },
{
    let mut i: usize = 0;
    while i < v.len()
        invariant
            i <= v@.len(),
            forall|j: int| 0 <= j < i ==> (#[trigger] v@[j]).shred.index != k,
        decreases v@.len() - i,
    {
        if v[i].shred.index == k {
            return Some(i);
        }
        i = i + 1;
    }
    None
}

/// Adds `m` unless a fragment of its index is present; says whether it did.
pub fn insert_if_absent(v: &mut Vec<ShredMeta>, m: ShredMeta) -> (inserted: bool)
    requires
        unique_indices(old(v)@),
    ensures
        final(v)@ == insert_absent(old(v)@, m),
        inserted == !has_index(old(v)@, m.shred.index),
        unique_indices(final(v)@),
{
    match position_of(v, m.shred.index) {
        Some(_) => false,
        None => {
            v.push(m);
            true
        },
    }
}

pub proof fn lemma_insert_absent_has(s: Seq<ShredMeta>, m: ShredMeta)
    ensures
        has_index(insert_absent(s, m), m.shred.index),
        forall|k: u32| has_index(s, k) ==> has_index(insert_absent(s, m), k),
{
    if !has_index(s, m.shred.index) {
        assert(s.push(m)[s.len() as int] == m);
        assert forall|k: u32| has_index(s, k) implies has_index(s.push(m), k) by {
            let i = choose|i: int| 0 <= i < s.len() && (#[trigger] s[i]).shred.index == k;
            assert(s.push(m)[i] == s[i]);
        }
    }
}

} // verus!
