//! Stage D: the bytes of a batch, the entry stream inside them, and the arrival
//! time of each entry.
use vstd::prelude::*;
use crate::dispatch::{frag_at, present};
use crate::layout::{
    le_u16, le_u64, position_of, read_le_u16, read_le_u64, unique_indices, ShredMeta,
    DATA_OFFSET_PAYLOAD, OFFSET_SIZE,
};

verus! {

/// Why a batch could not be turned into entries.
#[derive(Debug, Clone, Copy, PartialEq, Eq, Structural)]
pub enum BatchError {
    /// No fragment of this index, inside a range that was complete.
    MissingShred(u32),
    /// The fragment is too short to hold its size field.
    InvalidPayload,
    /// The size field points past the end of the fragment.
    MissingData,
    /// An entry claims more bytes than the batch holds.
    EntryOutOfBounds,
}

/// The concatenated entry-stream bytes of a batch, the offset at which each
/// fragment's bytes begin, and each fragment's arrival time.
#[derive(Debug)]
pub struct CombinedDataMeta {
    pub combined_data_shred_indices: Vec<usize>,
    pub combined_data_shred_received_at_micros: Vec<Option<u64>>,
    pub combined_data: Vec<u8>,
}

/// An entry and the arrival time of the fragment where it begins.
#[derive(Debug)]
pub struct EntryMeta<E> {
    pub entry: E,
    pub received_at_micros: Option<u64>,
}

/// The entry-stream bytes a data fragment carries.
pub open spec fn fragment_bytes(p: Seq<u8>) -> Result<Seq<u8>, BatchError> {
    if p.len() < OFFSET_SIZE + 2 {
        Err(BatchError::InvalidPayload)
    } else {
        let total = le_u16(p[OFFSET_SIZE as int], p[OFFSET_SIZE + 1]) as int;
        let size = if total > DATA_OFFSET_PAYLOAD { total - DATA_OFFSET_PAYLOAD } else { 0 };
        if DATA_OFFSET_PAYLOAD + size > p.len() {
            Err(BatchError::MissingData)
        } else {
            Ok(p.subrange(DATA_OFFSET_PAYLOAD as int, DATA_OFFSET_PAYLOAD + size))
        }
    }
}

/// The bytes of the first `n` fragments from index `a`, or the first error met.
pub open spec fn batch_bytes(s: Seq<ShredMeta>, a: int, n: nat) -> Result<Seq<u8>, BatchError>
    decreases n,
{
    if n == 0 {
        Ok(Seq::empty())
    } else {
        match batch_bytes(s, a, (n - 1) as nat) {
            Err(e) => Err(e),
            Ok(b) => {
                let k = a + n - 1;
                if !present(s, k) {
                    Err(BatchError::MissingShred(k as u32))
                } else {
                    match fragment_bytes(frag_at(s, k).shred.payload@) {
                        Err(e) => Err(e),
                        Ok(x) => Ok(b + x),
                    }
                }
            },
        }
    }
}

/// Length of the bytes of the first `n` fragments from index `a`.
pub open spec fn prefix_len(s: Seq<ShredMeta>, a: int, n: nat) -> int {
    match batch_bytes(s, a, n) {
        Ok(b) => b.len() as int,
        Err(_) => -1,
    }
}

/// Appends the entry-stream bytes of one fragment.
fn append_fragment_bytes(out: &mut Vec<u8>, p: &Vec<u8>) -> (r: Result<(), BatchError>)
    ensures
        match fragment_bytes(p@) {
            Ok(x) => r is Ok && final(out)@ == old(out)@ + x,
            Err(e) => r == Err::<(), BatchError>(e),
        },
{
    if p.len() < OFFSET_SIZE + 2 {
        return Err(BatchError::InvalidPayload);
    }
    let total = read_le_u16(p[OFFSET_SIZE], p[OFFSET_SIZE + 1]) as usize;
    let size = if total > DATA_OFFSET_PAYLOAD { total - DATA_OFFSET_PAYLOAD } else { 0 };
    if DATA_OFFSET_PAYLOAD + size > p.len() {
        return Err(BatchError::MissingData);
    }
    let ghost o = out@;
    let ghost x = p@.subrange(DATA_OFFSET_PAYLOAD as int, DATA_OFFSET_PAYLOAD + size);
    let end: usize = DATA_OFFSET_PAYLOAD + size;
    let mut j: usize = DATA_OFFSET_PAYLOAD;
    while j < end
        invariant
            end == DATA_OFFSET_PAYLOAD + size,
            DATA_OFFSET_PAYLOAD <= j <= end <= p@.len(),
            out@ == o + p@.subrange(DATA_OFFSET_PAYLOAD as int, j as int),
        decreases end - j,
    {
        out.push(p[j]);
        j = j + 1;
        assert(out@ =~= o + p@.subrange(DATA_OFFSET_PAYLOAD as int, j as int));
    }
    Ok(())
}

/// Concatenates, in index order, the entry-stream bytes of the fragments of
/// indices `start_idx..=end_idx`, noting where each fragment's bytes begin and
/// when it arrived.
pub fn get_batch_data(shreds: &Vec<ShredMeta>, start_idx: u32, end_idx: u32) -> (r: Result<CombinedDataMeta, BatchError>)
    requires
        unique_indices(shreds@),
        start_idx <= end_idx,
    ensures
        ({
            let n = (end_idx - start_idx + 1) as nat;
            match r {
                Ok(m) => {
                    &&& batch_bytes(shreds@, start_idx as int, n) == Ok::<Seq<u8>, BatchError>(m.combined_data@)
                    &&& m.combined_data_shred_indices@.len() == n
                    &&& m.combined_data_shred_received_at_micros@.len() == n
                    &&& sorted_offsets(m.combined_data_shred_indices@)
                    &&& forall|t: int| 0 <= t < n ==> #[trigger] m.combined_data_shred_indices@[t] == prefix_len(shreds@, start_idx as int, t as nat)
                    &&& forall|t: int| 0 <= t < n ==> #[trigger] m.combined_data_shred_received_at_micros@[t]
                        == frag_at(shreds@, start_idx + t).received_at_micros
                },
                Err(e) => batch_bytes(shreds@, start_idx as int, n) == Err::<Seq<u8>, BatchError>(e),
            }
        }),
{
    let mut combined_data: Vec<u8> = Vec::new();
    let mut indices: Vec<usize> = Vec::new();
    let mut times: Vec<Option<u64>> = Vec::new();
    let ghost s = shreds@;
    let ghost a = start_idx as int;
    let mut k: u64 = start_idx as u64;
    while k <= end_idx as u64
        invariant
            start_idx <= k <= end_idx as u64 + 1,
            start_idx <= end_idx,
            s == shreds@,
            a == start_idx as int,
            unique_indices(s),
            batch_bytes(s, a, (k - a) as nat) == Ok::<Seq<u8>, BatchError>(combined_data@),
            indices@.len() == k - a,
            times@.len() == k - a,
            forall|t: int| 0 <= t < k - a ==> #[trigger] indices@[t] == prefix_len(s, a, t as nat),
            forall|t: int| 0 <= t < k - a ==> #[trigger] times@[t] == frag_at(s, a + t).received_at_micros,
        decreases end_idx as u64 + 1 - k,
    {
        let ghost t0 = (k - a) as nat;
        let i = match position_of(shreds, k as u32) {
            Some(i) => i,
            None => {
                proof {
                    assert(!present(s, k as int));
                    assert(batch_bytes(s, a, (t0 + 1) as nat) == Err::<Seq<u8>, BatchError>(BatchError::MissingShred(k as u32)));
                    lemma_batch_bytes_err_stays(s, a, (t0 + 1) as nat, (end_idx - start_idx + 1) as nat);
                }
                return Err(BatchError::MissingShred(k as u32));
            },
        };
        proof {
            crate::dispatch::lemma_frag_at(s, i as int);
        }
        times.push(shreds[i].received_at_micros);
        indices.push(combined_data.len());
        let ghost before = combined_data@;
        match append_fragment_bytes(&mut combined_data, &shreds[i].shred.payload) {
            Ok(()) => {},
            Err(e) => {
                proof {
                    lemma_batch_bytes_err_stays(s, a, (t0 + 1) as nat, (end_idx - start_idx + 1) as nat);
                }
                return Err(e);
            },
        }
        proof {
            assert forall|t: int| 0 <= t < k + 1 - a implies #[trigger] indices@[t] == prefix_len(s, a, t as nat) by {
                if t == t0 {
                    assert(indices@[t] == before.len());
                }
            }
        }
        k = k + 1;
    }
    proof {
        let n = (end_idx - start_idx + 1) as nat;
        assert forall|x: int, y: int| 0 <= x <= y < indices@.len() implies #[trigger] indices@[x] <= #[trigger] indices@[y] by {
            lemma_prefix_len_sorted(s, a, y as nat, n);
            lemma_prefix_len_sorted(s, a, x as nat, y as nat);
        }
    }
    Ok(CombinedDataMeta {
        combined_data_shred_indices: indices,
        combined_data_shred_received_at_micros: times,
        combined_data,
    })
}

/// Once the bytes of a batch prefix fail, every longer prefix fails the same way.
pub proof fn lemma_batch_bytes_err_stays(s: Seq<ShredMeta>, a: int, n: nat, m: nat)
    requires
        n <= m,
        batch_bytes(s, a, n) is Err,
    ensures
        batch_bytes(s, a, m) == batch_bytes(s, a, n),
    decreases m - n,
{
    if n < m {
        lemma_batch_bytes_err_stays(s, a, n, (m - 1) as nat);
    }
}


/// Offsets in ascending order.
pub open spec fn sorted_offsets(idx: Seq<usize>) -> bool {
    forall|i: int, j: int| 0 <= i <= j < idx.len() ==> #[trigger] idx[i] <= #[trigger] idx[j]
}

/// The fragment whose bytes hold position `pos`: the last one whose bytes
/// begin at or before `pos`, or -1 when none does.
pub open spec fn contributing_fragment(pos: int, idx: Seq<usize>) -> int {
    if exists|t: int| 0 <= t < idx.len() && idx[t] <= pos {
        choose|t: int|
            0 <= t < idx.len() && #[trigger] idx[t] <= pos && (t + 1 == idx.len() || idx[t + 1] > pos)
    } else {
        -1
    }
}

/// The arrival time of the fragment holding position `pos`.
pub open spec fn spec_entry_timestamp(pos: int, idx: Seq<usize>, ts: Seq<Option<u64>>) -> Option<u64> {
    let t = contributing_fragment(pos, idx);
    if 0 <= t < ts.len() {
        ts[t]
    } else {
        None
    }
}

impl crate::processor::ShredProcessor {
    /// The arrival time of the fragment in which an entry begins: the one whose
    /// bytes begin at the entry, else the one before it. A fragment that gave
    /// no bytes holds no entry and is passed over.
    pub fn find_earliest_contributing_shred_timestamp(
        entry_start_pos: usize,
        shred_indices: &Vec<usize>,
        shred_received_at_micros: &Vec<Option<u64>>,
    ) -> (r: Option<u64>)
        requires
            sorted_offsets(shred_indices@),
        ensures
            r == spec_entry_timestamp(entry_start_pos as int, shred_indices@, shred_received_at_micros@),
    {
        let n = shred_indices.len();
        // First position whose offset lies after the entry.
        let mut lo: usize = 0;
        let mut hi: usize = n;
        while lo < hi
            invariant
                n == shred_indices@.len(),
                sorted_offsets(shred_indices@),
                0 <= lo <= hi <= n,
                forall|t: int| 0 <= t < lo ==> shred_indices@[t] <= entry_start_pos,
                forall|t: int| hi <= t < n ==> shred_indices@[t] > entry_start_pos,
            decreases hi - lo,
        {
            let mid = lo + (hi - lo) / 2;
            if shred_indices[mid] <= entry_start_pos {
                lo = mid + 1;
            } else {
                hi = mid;
            }
        }
        let ghost idx = shred_indices@;
        let ghost pos = entry_start_pos as int;
        if lo == 0 {
            proof {
                assert forall|t: int| !(0 <= t < idx.len() && idx[t] <= pos) by {
                    if 0 <= t < idx.len() && idx[t] <= pos {
                        assert(idx[0] <= idx[t]);
                    }
                }
            }
            None
        } else {
            let t = lo - 1;
            proof {
                assert(idx[t as int] <= pos);
                let c = contributing_fragment(pos, idx);
                assert(0 <= c < idx.len() && idx[c] <= pos && (c + 1 == idx.len() || idx[c + 1] > pos));
                if c < t {
                    assert(idx[c + 1] <= idx[t as int]);
                } else if c > t {
                    assert(idx[t + 1] <= idx[c]);
                }
                assert(c == t);
            }
            if t < shred_received_at_micros.len() {
                shred_received_at_micros[t]
            } else {
                None
            }
        }
    }
}

/// Walks the entry stream of a batch: an entry count in the first eight bytes,
/// then that many entries back to back. The caller decodes each entry at
/// `position` and reports how many bytes it took.
#[derive(Debug)]
pub struct EntryCursor {
    pub position: usize,
    pub remaining: u64,
    pub data_len: usize,
}

/// Byte offset of the first entry, after the entry count.
pub const ENTRY_STREAM_START: usize = 8;

impl EntryCursor {
    pub open spec fn wf(&self) -> bool {
        self.position <= self.data_len
    }

    /// A batch of at most eight bytes holds no entry.
    pub fn new(combined_data: &Vec<u8>) -> (r: Self)
        ensures
            r.wf(),
            r.data_len == combined_data@.len(),
            combined_data@.len() <= ENTRY_STREAM_START ==> r.remaining == 0,
            combined_data@.len() > ENTRY_STREAM_START ==> r.remaining == le_u64(combined_data@)
                && r.position == ENTRY_STREAM_START,
    {
        if combined_data.len() <= ENTRY_STREAM_START {
            EntryCursor { position: combined_data.len(), remaining: 0, data_len: combined_data.len() }
        } else {
            EntryCursor {
                position: ENTRY_STREAM_START,
                remaining: read_le_u64(combined_data),
                data_len: combined_data.len(),
            }
        }
    }

    /// Where the next entry begins, while entries remain.
    pub fn next_entry_start(&self) -> (r: Option<usize>)
        ensures
            self.remaining == 0 ==> r.is_none(),
            self.remaining > 0 ==> r == Some(self.position),
    {
        if self.remaining == 0 {
            None
        } else {
            Some(self.position)
        }
    }

    /// Records an entry decoded at the cursor that took `consumed` bytes, with
    /// the arrival time of the fragment where it begins.
    pub fn record<E>(
        &mut self,
        entry: E,
        consumed: usize,
        shred_indices: &Vec<usize>,
        shred_received_at_micros: &Vec<Option<u64>>,
    ) -> (r: Result<EntryMeta<E>, BatchError>)
        requires
            old(self).wf(),
            old(self).remaining > 0,
            sorted_offsets(shred_indices@),
        ensures
            final(self).wf(),
            final(self).data_len == old(self).data_len,
            consumed > old(self).data_len - old(self).position ==> r == Err::<EntryMeta<E>, BatchError>(BatchError::EntryOutOfBounds)
                && *final(self) == *old(self),
            consumed <= old(self).data_len - old(self).position ==> (r matches Ok(m) && m.entry == entry
                && m.received_at_micros == spec_entry_timestamp(old(self).position as int, shred_indices@, shred_received_at_micros@)
                && final(self).position == old(self).position + consumed
                && final(self).remaining == old(self).remaining - 1),
    {
        if consumed > self.data_len - self.position {
            return Err(BatchError::EntryOutOfBounds);
        }
        let received_at_micros = crate::processor::ShredProcessor::find_earliest_contributing_shred_timestamp(
            self.position,
            shred_indices,
            shred_received_at_micros,
        );
        self.position = self.position + consumed;
        self.remaining = self.remaining - 1;
        Ok(EntryMeta { entry, received_at_micros })
    }
}

/// The start offsets `get_batch_data` records are in ascending order.
pub proof fn lemma_prefix_len_sorted(s: Seq<ShredMeta>, a: int, i: nat, j: nat)
    requires
        i <= j,
        batch_bytes(s, a, j) is Ok,
    ensures
        batch_bytes(s, a, i) is Ok,
        prefix_len(s, a, i) <= prefix_len(s, a, j),
    decreases j - i,
{
    if i < j {
        lemma_prefix_len_sorted(s, a, i, (j - 1) as nat);
    }
}

} // verus!
