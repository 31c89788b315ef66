//! The fixed-size records of a bucket file: the header and the index entries.
use vstd::bytes::*;
use vstd::prelude::*;

use crate::codec::{put_u32, put_u64, read_u32, read_u64, u32_at, u64_at};
use crate::prelude::{HashedKey, HEADER_SIZE, MAGIC, VERSION};

verus! {

/// The header of a bucket: it says where each region starts.
#[derive(Debug, Clone, Copy, PartialEq, Eq, Structural)]
pub struct BucketHeader {
    pub magic: u32,
    pub version: u32,
    pub timestamp: i64,
    pub si_base_offset: u64,
    pub di_base_offset: u64,
    pub data_base_offset: u64,
    pub num_entries: u64,
}

/// One record of an index: a key and an offset. In the dense index the
/// offset points into the data section; in the sparse index it points into
/// the dense index.
#[derive(Debug, Clone, Copy, PartialEq, Eq, Structural)]
pub struct IndexEntry {
    pub key: HashedKey,
    pub offset: u64,
}

/// The records' keys ascend strictly.
pub open spec fn records_ascending(es: Seq<IndexEntry>) -> bool {
    forall|i: int, j: int| 0 <= i < j < es.len() ==> es[i].key < es[j].key
}

/// The 48 bytes of a header.
pub open spec fn header_bytes(h: BucketHeader) -> Seq<u8> {
    spec_u32_to_le_bytes(h.magic) + spec_u32_to_le_bytes(h.version)
        + spec_u64_to_le_bytes(#[verifier::truncate] (h.timestamp as u64)) + spec_u64_to_le_bytes(h.si_base_offset)
        + spec_u64_to_le_bytes(h.di_base_offset) + spec_u64_to_le_bytes(h.data_base_offset)
        + spec_u64_to_le_bytes(h.num_entries)
}

/// The header that the first 48 bytes of `b` hold.
pub open spec fn header_of(b: Seq<u8>) -> BucketHeader {
    BucketHeader {
        magic: u32_at(b, 0),
        version: u32_at(b, 4),
        timestamp: #[verifier::truncate] (u64_at(b, 8) as i64),
        si_base_offset: u64_at(b, 16),
        di_base_offset: u64_at(b, 24),
        data_base_offset: u64_at(b, 32),
        num_entries: u64_at(b, 40),
    }
}

/// The 16 bytes of an index record.
pub open spec fn entry_bytes(e: IndexEntry) -> Seq<u8> {
    spec_u64_to_le_bytes(e.key) + spec_u64_to_le_bytes(e.offset)
}

/// Index records back to back.
pub open spec fn entries_bytes(es: Seq<IndexEntry>) -> Seq<u8>
    decreases es.len(),
{
    if es.len() == 0 {
        Seq::empty()
    } else {
        entries_bytes(es.drop_last()) + entry_bytes(es.last())
    }
}

/// The index record stored at `pos`.
pub open spec fn entry_at(b: Seq<u8>, pos: int) -> IndexEntry {
    IndexEntry { key: u64_at(b, pos), offset: u64_at(b, pos + 8) }
}

/// A header's bytes decode to that header, whatever follows them.
pub proof fn lemma_header_round_trip(h: BucketHeader, rest: Seq<u8>)
    ensures
        header_bytes(h).len() == HEADER_SIZE,
        header_of(header_bytes(h) + rest) == h,
{
    lemma_auto_spec_u32_to_from_le_bytes();
    lemma_auto_spec_u64_to_from_le_bytes();
    let b = header_bytes(h) + rest;
    let t = h.timestamp;
    assert((#[verifier::truncate] ((#[verifier::truncate] (t as u64)) as i64)) == t) by (bit_vector);
    assert(b.subrange(0, 4) =~= spec_u32_to_le_bytes(h.magic));
    assert(b.subrange(4, 8) =~= spec_u32_to_le_bytes(h.version));
    assert(b.subrange(8, 16) =~= spec_u64_to_le_bytes(#[verifier::truncate] (h.timestamp as u64)));
    assert(b.subrange(16, 24) =~= spec_u64_to_le_bytes(h.si_base_offset));
    assert(b.subrange(24, 32) =~= spec_u64_to_le_bytes(h.di_base_offset));
    assert(b.subrange(32, 40) =~= spec_u64_to_le_bytes(h.data_base_offset));
    assert(b.subrange(40, 48) =~= spec_u64_to_le_bytes(h.num_entries));
}

/// Records laid out back to back decode one by one, whatever surrounds them.
pub proof fn lemma_entries_round_trip(pre: Seq<u8>, es: Seq<IndexEntry>, post: Seq<u8>, i: int)
    requires
        0 <= i < es.len(),
    ensures
        entries_bytes(es).len() == 16 * es.len(),
        entry_at(pre + entries_bytes(es) + post, pre.len() + 16 * i) == es[i],
    decreases es.len(),
{
    lemma_auto_spec_u64_to_from_le_bytes();
    lemma_entries_len(es);
    let n = es.len() - 1;
    if i == n {
        let b = pre + entries_bytes(es) + post;
        let p = pre.len() + 16 * i;
        lemma_entries_len(es.drop_last());
        assert(b.subrange(p, p + 8) =~= spec_u64_to_le_bytes(es[i].key));
        assert(b.subrange(p + 8, p + 16) =~= spec_u64_to_le_bytes(es[i].offset));
    } else {
        let e = entry_bytes(es.last());
        lemma_entries_round_trip(pre, es.drop_last(), e + post, i);
        assert(pre + entries_bytes(es.drop_last()) + (e + post) =~= pre + entries_bytes(es) + post);
    }
}

/// The records take sixteen bytes each.
pub proof fn lemma_entries_len(es: Seq<IndexEntry>)
    ensures
        entries_bytes(es).len() == 16 * es.len(),
    decreases es.len(),
{
    lemma_auto_spec_u64_to_from_le_bytes();
    if es.len() > 0 {
        lemma_entries_len(es.drop_last());
    }
}

impl BucketHeader {
    /// A header with the current magic and version, the given creation time,
    /// and all offsets and the entry count set to zero.
    pub fn with_timestamp(timestamp: i64) -> (r: BucketHeader)
        ensures
            r == (BucketHeader {
                magic: MAGIC,
                version: VERSION,
                timestamp,
                si_base_offset: 0,
                di_base_offset: 0,
                data_base_offset: 0,
                num_entries: 0,
            }),
    {
        BucketHeader {
            magic: MAGIC,
            version: VERSION,
            timestamp,
            si_base_offset: 0,
            di_base_offset: 0,
            data_base_offset: 0,
            num_entries: 0,
        }
    }

    /// Appends the header's 48 bytes.
    pub fn encode(&self, out: &mut Vec<u8>)
        ensures
            final(out)@ == old(out)@ + header_bytes(*self),
    {
        let ghost start = out@;
        put_u32(out, self.magic);
        put_u32(out, self.version);
        put_u64(out, #[verifier::truncate] (self.timestamp as u64));
        put_u64(out, self.si_base_offset);
        put_u64(out, self.di_base_offset);
        put_u64(out, self.data_base_offset);
        put_u64(out, self.num_entries);
        assert(out@ =~= start + header_bytes(*self));
    }

    /// Decodes the header at the front of `b`, or `None` when `b` is shorter
    /// than a header.
    pub fn decode(b: &[u8]) -> (r: Option<BucketHeader>)
        ensures
            b@.len() < HEADER_SIZE ==> r is None,
            b@.len() >= HEADER_SIZE ==> r == Some(header_of(b@)),
    {
        if b.len() < HEADER_SIZE {
            return None;
        }
        let magic = read_u32(b, 0).unwrap();
        let version = read_u32(b, 4).unwrap();
        let timestamp = #[verifier::truncate] (read_u64(b, 8).unwrap() as i64);
        let si_base_offset = read_u64(b, 16).unwrap();
        let di_base_offset = read_u64(b, 24).unwrap();
        let data_base_offset = read_u64(b, 32).unwrap();
        let num_entries = read_u64(b, 40).unwrap();
        Some(BucketHeader {
            magic,
            version,
            timestamp,
            si_base_offset,
            di_base_offset,
            data_base_offset,
            num_entries,
        })
    }
}

impl Default for BucketHeader {
    /// A header with the current magic and version, stamped with the current
    /// time, and all offsets and the entry count set to zero.
    fn default() -> (r: BucketHeader)
        ensures
            r.magic == MAGIC,
            r.version == VERSION,
            r.si_base_offset == 0,
            r.di_base_offset == 0,
            r.data_base_offset == 0,
            r.num_entries == 0,
    {
        BucketHeader::with_timestamp(crate::clock::now_timestamp())
    }
}

impl IndexEntry {
    /// Appends the record's 16 bytes.
    pub fn encode(&self, out: &mut Vec<u8>)
        ensures
            final(out)@ == old(out)@ + entry_bytes(*self),
    {
        let ghost start = out@;
        put_u64(out, self.key);
        put_u64(out, self.offset);
        assert(out@ =~= start + entry_bytes(*self));
    }

    /// Decodes the record at `pos`, or `None` when fewer than 16 bytes remain.
    pub fn decode(b: &[u8], pos: usize) -> (r: Option<IndexEntry>)
        ensures
            pos + 16 <= b@.len() ==> r == Some(entry_at(b@, pos as int)),
            pos + 16 > b@.len() ==> r is None,
    {
        if pos > b.len() || b.len() - pos < 16 {
            return None;
        }
        let key = read_u64(b, pos).unwrap();
        let offset = read_u64(b, pos + 8).unwrap();
        Some(IndexEntry { key, offset })
    }
}

} // verus!
