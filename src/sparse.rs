//! The sparse index: a sample of the dense index that is small enough to hold in memory.
use std::collections::BTreeSet;
use vstd::bytes::*;
use vstd::laws_cmp::obeys_cmp;
use vstd::prelude::*;
use vstd::std_specs::btree::increasing_seq;
use vstd::std_specs::cmp::OrdSpec;
use vstd::std_specs::iter::IteratorSpec;

use crate::codec::{put_u64, read_u64, u64_at};
use crate::format::{entries_bytes, entry_at, IndexEntry};
use crate::prelude::{HashedKey, DEFAULT_SPARSE_INDEX_STEP};

verus! {

broadcast use vstd::std_specs::btree::group_btree_axioms, vstd::laws_cmp::group_laws_cmp, vstd::seq_lib::group_seq_properties;

/// A small index that can be quickly loaded in memory: every `step`-th key of
/// the bucket, and its last key, each with the offset of its dense-index record.
#[derive(Debug)]
pub struct SparseIndex {
    pub step: usize,
    pub index: Vec<IndexEntry>,
}

/// Each key is smaller than the next.
pub open spec fn keys_ascending(ks: Seq<HashedKey>) -> bool {
    forall|i: int, j: int| 0 <= i < j < ks.len() ==> ks[i] < ks[j]
}

/// The samples' keys never decrease. (A single-key bucket has two equal samples.)
pub open spec fn samples_sorted(idx: Seq<IndexEntry>) -> bool {
    forall|i: int, j: int| 0 <= i < j < idx.len() ==> idx[i].key <= idx[j].key
}

/// How many positions `0, step, 2 * step, ...` lie below `n`.
pub open spec fn sample_count(n: nat, step: nat) -> nat {
    if n == 0 || step == 0 {
        0
    } else {
        ((n - 1) as nat / step + 1) as nat
    }
}

/// The sample taken at position `pos` of the ordered key list.
pub open spec fn sample(ks: Seq<HashedKey>, pos: int) -> IndexEntry {
    IndexEntry { key: ks[pos], offset: (pos * 16) as u64 }
}

/// The samples at positions `0, step, 2 * step, ...` of the ordered key list.
pub open spec fn regular_samples(ks: Seq<HashedKey>, step: nat) -> Seq<IndexEntry> {
    Seq::new(sample_count(ks.len(), step), |i: int| sample(ks, i * step))
}

/// The sparse index of an ordered key list: the regular samples, then one
/// for the last key where the regular samples end before it. A single key
/// gives two equal samples.
pub open spec fn sparse_samples(ks: Seq<HashedKey>, step: nat) -> Seq<IndexEntry> {
    let n = ks.len();
    let m = sample_count(n, step);
    if n == 0 {
        Seq::empty()
    } else if n == 1 || (m - 1) * step != n - 1 {
        regular_samples(ks, step).push(sample(ks, n - 1))
    } else {
        regular_samples(ks, step)
    }
}

/// `j` is where `key` would be inserted: every sample before it has a
/// smaller key, every sample from it on a key at least as large.
pub open spec fn is_insertion_point(idx: Seq<IndexEntry>, key: HashedKey, j: int) -> bool {
    &&& 0 <= j <= idx.len()
    &&& forall|i: int| 0 <= i < j ==> #[trigger] idx[i].key < key
    &&& forall|i: int| j <= i < idx.len() ==> key <= #[trigger] idx[i].key
}

/// Where `key` would be inserted into the samples.
pub open spec fn insertion_point(idx: Seq<IndexEntry>, key: HashedKey) -> int {
    choose|j: int| is_insertion_point(idx, key, j)
}

/// The slice of the dense index, as two offsets into it, that holds `key` if
/// the bucket has it: one record on a sample's own key, the records between
/// two neighbouring samples otherwise, and none outside the sampled range or
/// with fewer than two samples.
pub open spec fn bracket(idx: Seq<IndexEntry>, key: HashedKey) -> Option<(u64, u64)> {
    let j = insertion_point(idx, key);
    if idx.len() < 2 {
        None
    } else if j < idx.len() && idx[j].key == key {
        Some((idx[j].offset, idx[j].offset))
    } else if j == 0 || j == idx.len() {
        None
    } else {
        Some((idx[j - 1].offset, idx[j].offset))
    }
}

/// The sparse index as it is stored: `step`, the number of samples, then the samples.
pub open spec fn sparse_bytes(step: u64, idx: Seq<IndexEntry>) -> Seq<u8> {
    spec_u64_to_le_bytes(step) + spec_u64_to_le_bytes(idx.len() as u64) + entries_bytes(idx)
}

/// The sparse index stored at `pos`, as its step and its samples, or `None`
/// when the bytes end before it does.
pub open spec fn sparse_at(b: Seq<u8>, pos: int) -> Option<(u64, Seq<IndexEntry>)> {
    if pos + 16 > b.len() || pos + 16 + 16 * u64_at(b, pos + 8) > b.len() {
        None
    } else {
        Some((u64_at(b, pos), Seq::new(u64_at(b, pos + 8) as nat, |i: int| entry_at(b, pos + 16 + 16 * i))))
    }
}

/// At most one point is an insertion point of an ascending sample list.
pub proof fn lemma_insertion_point_unique(idx: Seq<IndexEntry>, key: HashedKey, j: int)
    requires
        is_insertion_point(idx, key, j),
    ensures
        insertion_point(idx, key) == j,
{
    let k = insertion_point(idx, key);
    assert(is_insertion_point(idx, key, k));
    if k < j {
        assert(idx[k].key < key);
    } else if j < k {
        assert(idx[j].key < key);
    }
}

/// The keys of a set in ascending order.
pub fn sorted_keys(s: &BTreeSet<HashedKey>) -> (r: Vec<HashedKey>)
    ensures
        r@.to_set() == s@,
        keys_ascending(r@),
        r@.len() == s@.len(),
{
    let mut out: Vec<HashedKey> = Vec::new();
    let iter = s.iter();
    assert(iter.remaining().unref().to_set() == s@);
    assert(obeys_cmp::<u64>());
    assert(obeys_cmp::<&u64>());
    assert(increasing_seq(iter.remaining()));
    assert forall|i: int, j: int| 0 <= i < j < iter.remaining().len() implies *iter.remaining()[i] < *iter.remaining()[j] by {
        assert(<&u64 as OrdSpec>::cmp_spec(&iter.remaining()[i], &iter.remaining()[j]) is Less);
    }
    assert(keys_ascending(iter.remaining().unref()));
    for v in it: iter
        invariant
            out@ == it.seq().unref().take(it.index() as int),
            it.seq().unref().to_set() == s@,
            it.seq().unref().len() == s@.len(),
            keys_ascending(it.seq().unref()),
    {
        out.push(*v);
        assert(out@ =~= it.seq().unref().take(it.index() as int + 1));
    }
    out
}

/// `k` is the number of sample positions below `n` when the `k`-th position is
/// the last one below `n`.
proof fn lemma_sample_count(n: nat, step: nat, k: nat)
    requires
        step > 0,
        (k as int - 1) * step < n,
        n <= k * step,
        k > 0,
    ensures
        sample_count(n, step) == k,
{
    let q = (n - 1) as nat / step;
    let r = (n - 1) as nat % step;
    vstd::arithmetic::div_mod::lemma_fundamental_div_mod((n - 1) as int, step as int);
    assert(q * step + r == n - 1);
    assert(q == k - 1) by (nonlinear_arith)
        requires
            q * step + r == n - 1,
            0 <= r < step,
            (k - 1) * step <= n - 1,
            n - 1 < k * step,
            step > 0,
            k > 0,
    ;
}

impl SparseIndex {
    /// The sparse index of `entries` with the default step.
    pub fn new(entries: &BTreeSet<HashedKey>) -> (r: SparseIndex)
        requires
            entries@.len() * 16 <= u64::MAX,
        ensures
            r.step == DEFAULT_SPARSE_INDEX_STEP,
            exists|ks: Seq<HashedKey>|
                {
                    &&& keys_ascending(ks)
                    &&& ks.to_set() == entries@
                    &&& ks.len() == entries@.len()
                    &&& r.index@ == sparse_samples(ks, DEFAULT_SPARSE_INDEX_STEP as nat)
                },
    {
        assert(DEFAULT_SPARSE_INDEX_STEP == 256);
        Self::new_with_step(DEFAULT_SPARSE_INDEX_STEP, entries)
    }

    /// The sparse index of `entries` with samples `step` entries apart.
    /// An empty set gives an empty index; otherwise the first sample holds the
    /// smallest key and the last sample the largest.
    pub fn new_with_step(step: usize, entries: &BTreeSet<HashedKey>) -> (r: SparseIndex)
        requires
            step > 0,
            entries@.len() * 16 <= u64::MAX,
        ensures
            r.step == step,
            exists|ks: Seq<HashedKey>|
                {
                    &&& keys_ascending(ks)
                    &&& ks.to_set() == entries@
                    &&& ks.len() == entries@.len()
                    &&& r.index@ == sparse_samples(ks, step as nat)
                },
    {
        let ks = sorted_keys(entries);
        let r = Self::from_ordered_keys(step, &ks);
        r
    }

    /// The sparse index of an ordered key list.
    pub fn from_ordered_keys(step: usize, ks: &Vec<HashedKey>) -> (r: SparseIndex)
        requires
            step > 0,
            ks@.len() * 16 <= u64::MAX,
        ensures
            r.step == step,
            r.index@ == sparse_samples(ks@, step as nat),
    {
        let n = ks.len();
        let mut index: Vec<IndexEntry> = Vec::new();
        if n == 0 {
            assert(index@ =~= sparse_samples(ks@, step as nat));
            return SparseIndex { step, index };
        }
        let mut i: usize = 0;
        let ghost mut k: nat = 0;
        loop
            invariant_except_break
                i == k * step,
                i < n,
                index@ =~= Seq::new(k, |t: int| sample(ks@, t * step)),
            invariant
                n == ks@.len(),
                n * 16 <= u64::MAX,
                step > 0,
            ensures
                k > 0,
                (k - 1) * step < n,
                n <= k * step,
                index@ =~= Seq::new(k, |t: int| sample(ks@, t * step)),
                i == (k - 1) * step,
            decreases n - i,
        {
            assert(i * 16 <= n * 16) by (nonlinear_arith)
                requires i < n;
            index.push(IndexEntry { key: ks[i], offset: (i as u64) * 16 });
            proof {
                k = k + 1;
                assert(index@ =~= Seq::new(k, |t: int| sample(ks@, t * step)));
            }
            if n - i <= step {
                assert(n <= k * step) by (nonlinear_arith)
                    requires i == (k - 1) * step, n - i <= step;
                break;
            }
            i = i + step;
            assert(i == k * step) by (nonlinear_arith)
                requires i == (k - 1) * step + step;
        }
        proof {
            lemma_sample_count(n as nat, step as nat, k);
            assert(index@ =~= regular_samples(ks@, step as nat));
        }
        // With ascending keys, the last regular sample holds the last key
        // exactly when it was taken at the last position.
        if n == 1 || i != n - 1 {
            assert((n - 1) * 16 <= n * 16) by (nonlinear_arith);
            index.push(IndexEntry { key: ks[n - 1], offset: ((n - 1) as u64) * 16 });
        }
        SparseIndex { step, index }
    }

    /// The slice of the dense index that holds `key` if the bucket has it,
    /// as offsets into the dense index; `None` when the bucket cannot hold it.
    pub fn try_get(&self, key: HashedKey) -> (r: Option<(u64, u64)>)
        ensures
            self.index@.len() < 2 ==> r is None,
            samples_sorted(self.index@) ==> r == bracket(self.index@, key),
            r matches Some((lo, hi)) ==> exists|i: int, j: int|
                0 <= i <= j < self.index@.len() && lo == self.index@[i].offset && hi == self.index@[j].offset,
    {
        let n = self.index.len();
        if n < 2 {
            return None;
        }
        let mut lo: usize = 0;
        let mut hi: usize = n;
        while lo < hi
            invariant
                n == self.index@.len(),
                0 <= lo <= hi <= n,
                samples_sorted(self.index@) ==> forall|i: int| 0 <= i < lo ==> #[trigger] self.index@[i].key < key,
                samples_sorted(self.index@) ==> forall|i: int| hi <= i < n ==> key <= #[trigger] self.index@[i].key,
            decreases hi - lo,
        {
            let mid = lo + (hi - lo) / 2;
            if self.index[mid].key < key {
                lo = mid + 1;
            } else {
                hi = mid;
            }
        }
        proof {
            if samples_sorted(self.index@) {
                lemma_insertion_point_unique(self.index@, key, lo as int);
            }
        }
        if lo < n && self.index[lo].key == key {
            Some((self.index[lo].offset, self.index[lo].offset))
        } else if lo == 0 || lo == n {
            None
        } else {
            Some((self.index[lo - 1].offset, self.index[lo].offset))
        }
    }
}

impl SparseIndex {
    /// The number of bytes that `encode` writes.
    pub fn size(&self) -> (r: u64)
        requires
            16 + 16 * self.index@.len() <= u64::MAX,
        ensures
            r == sparse_bytes(self.step as u64, self.index@).len(),
    {
        proof {
            crate::format::lemma_entries_len(self.index@);
            lemma_auto_spec_u64_to_from_le_bytes();
        }
        16 + 16 * (self.index.len() as u64)
    }

    /// Appends the stored form of the index: its step, the number of samples,
    /// then the samples.
    pub fn encode(&self, out: &mut Vec<u8>)
        ensures
            final(out)@ == old(out)@ + sparse_bytes(self.step as u64, self.index@),
    {
        let ghost start = out@;
        put_u64(out, self.step as u64);
        put_u64(out, self.index.len() as u64);
        let ghost head = out@;
        let mut i: usize = 0;
        while i < self.index.len()
            invariant
                i <= self.index@.len(),
                head == start + spec_u64_to_le_bytes(self.step as u64) + spec_u64_to_le_bytes(self.index@.len() as u64),
                out@ == head + entries_bytes(self.index@.subrange(0, i as int)),
            decreases self.index@.len() - i,
        {
            self.index[i].encode(out);
            proof {
                let t = self.index@.subrange(0, i + 1);
                assert(t.drop_last() =~= self.index@.subrange(0, i as int));
                assert(out@ =~= head + entries_bytes(t));
            }
            i = i + 1;
        }
        assert(self.index@.subrange(0, i as int) =~= self.index@);
        assert(out@ =~= start + sparse_bytes(self.step as u64, self.index@));
    }

    /// Decodes the sparse index stored at `pos`; `None` when the bytes end
    /// before it does or its step does not fit a `usize`.
    pub fn decode(b: &[u8], pos: usize) -> (r: Option<SparseIndex>)
        ensures
            match sparse_at(b@, pos as int) {
                None => r is None,
                Some((step, idx)) => if step > usize::MAX {
                    r is None
                } else {
                    r matches Some(si) && si.step == step && si.index@ == idx
                },
            },
    {
        if pos > b.len() || b.len() - pos < 16 {
            return None;
        }
        let step = read_u64(b, pos).unwrap();
        let count = read_u64(b, pos + 8).unwrap();
        let room = b.len() - pos - 16;
        if ((room / 16) as u64) < count {
            return None;
        }
        if step > usize::MAX as u64 {
            return None;
        }
        assert(16 * count <= room) by (nonlinear_arith)
            requires count <= room / 16;
        let cnt = count as usize;
        let blen = b.len();
        let mut index: Vec<IndexEntry> = Vec::new();
        let mut i: usize = 0;
        while i < cnt
            invariant
                i <= cnt,
                cnt == count,
                blen == b@.len(),
                pos + 16 + 16 * cnt <= b@.len(),
                count == u64_at(b@, pos + 8),
                index@ =~= Seq::new(i as nat, |t: int| entry_at(b@, pos + 16 + 16 * t)),
            decreases cnt - i,
        {
            assert(16 * i < 16 * cnt) by (nonlinear_arith)
                requires i < cnt;
            let p: usize = pos + 16 + 16 * i;
            let e = IndexEntry::decode(b, p).unwrap();
            index.push(e);
            i = i + 1;
        }
        Some(SparseIndex { step: step as usize, index })
    }
}

impl Default for SparseIndex {
    /// An empty index with the default step.
    fn default() -> (r: SparseIndex)
        ensures
            r.step == DEFAULT_SPARSE_INDEX_STEP,
            r.index@.len() == 0,
    {
        SparseIndex { step: DEFAULT_SPARSE_INDEX_STEP, index: Vec::new() }
    }
}

} // verus!
