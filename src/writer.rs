//! Building a bucket: header, sparse index, dense index and data section in one
//! forward pass, with the dense index and the header filled in afterwards.
use std::collections::{BTreeMap, BTreeSet};
use vstd::laws_cmp::obeys_cmp;
use vstd::prelude::*;
use vstd::std_specs::btree::increasing_seq;
use vstd::std_specs::cmp::OrdSpec;
use vstd::std_specs::iter::IteratorSpec;

use crate::codec::{append_bytes, encode_values, sorted_values, strictly_ascending, values_bytes};
use crate::bucket::{set_listing_of, SetListing};
use crate::error::Result;
use crate::format::{entries_bytes, header_bytes, BucketHeader, IndexEntry};
use crate::frame::{compress, lz4_frame};
use crate::prelude::{HashedKey, Value, COMPRESSION_LEVEL, DEFAULT_SPARSE_INDEX_STEP, HEADER_SIZE, MAGIC, VERSION};
use crate::sparse::{keys_ascending, sparse_bytes, sparse_samples, SparseIndex};

verus! {

broadcast use vstd::std_specs::btree::group_btree_axioms, vstd::laws_cmp::group_laws_cmp, vstd::seq_lib::group_seq_properties;

/// An ordered listing of a bucket's entries: each key with its values in
/// ascending order.
pub type Listing = Seq<(HashedKey, Seq<Value>)>;

/// The keys of a listing, in order.
pub open spec fn listing_keys(es: Listing) -> Seq<HashedKey> {
    es.map_values(|e: (HashedKey, Seq<Value>)| e.0)
}

/// The listing's keys ascend and so do the values of each entry.
pub open spec fn listing_ordered(es: Listing) -> bool {
    &&& keys_ascending(listing_keys(es))
    &&& forall|i: int| 0 <= i < es.len() ==> strictly_ascending(#[trigger] es[i].1)
}

/// `es` lists exactly the entries of `m`, in order.
pub open spec fn lists(es: Listing, m: Map<HashedKey, Set<Value>>) -> bool {
    &&& listing_ordered(es)
    &&& forall|i: int| 0 <= i < es.len() ==> m.contains_key(#[trigger] es[i].0) && m[es[i].0] == es[i].1.to_set()
    &&& forall|k: HashedKey| m.contains_key(k) ==> exists|i: int| 0 <= i < es.len() && #[trigger] es[i].0 == k
}

/// The key-to-value-set map that a `BTreeMap` of `BTreeSet`s holds.
pub open spec fn entries_model(m: Map<HashedKey, BTreeSet<Value>>) -> Map<HashedKey, Set<Value>> {
    m.map_values(|s: BTreeSet<Value>| s@)
}

/// The compressed blob of one value sequence.
pub open spec fn blob_of(vs: Seq<Value>) -> Seq<u8> {
    lz4_frame(COMPRESSION_LEVEL, values_bytes(vs))
}

/// The data section of a listing: its blobs back to back.
pub open spec fn data_section(es: Listing) -> Seq<u8>
    decreases es.len(),
{
    if es.len() == 0 {
        Seq::empty()
    } else {
        data_section(es.drop_last()) + blob_of(es.last().1)
    }
}

/// Where the `i`-th blob starts in the data section.
pub open spec fn data_offset(es: Listing, i: int) -> int {
    data_section(es.take(i)).len() as int
}

/// The dense index of a listing.
pub open spec fn dense_records(es: Listing) -> Seq<IndexEntry> {
    Seq::new(es.len(), |i: int| IndexEntry { key: es[i].0, offset: data_offset(es, i) as u64 })
}

/// The sparse index samples of a listing.
pub open spec fn listing_samples(es: Listing) -> Seq<IndexEntry> {
    sparse_samples(listing_keys(es), DEFAULT_SPARSE_INDEX_STEP as nat)
}

/// The header of the bucket built from a listing at time `ts`.
pub open spec fn image_header(es: Listing, ts: i64) -> BucketHeader {
    let di = HEADER_SIZE + 16 + 16 * listing_samples(es).len();
    BucketHeader {
        magic: MAGIC,
        version: VERSION,
        timestamp: ts,
        si_base_offset: HEADER_SIZE as u64,
        di_base_offset: di as u64,
        data_base_offset: (di + 16 * es.len()) as u64,
        num_entries: es.len() as u64,
    }
}

/// The bytes of the bucket built from a listing at time `ts`.
pub open spec fn bucket_image(es: Listing, ts: i64) -> Seq<u8> {
    header_bytes(image_header(es, ts))
        + sparse_bytes(DEFAULT_SPARSE_INDEX_STEP as u64, listing_samples(es))
        + entries_bytes(dense_records(es))
        + data_section(es)
}

/// A listing fits a bucket file: its dense index and its whole image have
/// offsets that a `u64` holds, and each value sequence a `u64` count.
pub open spec fn listing_fits(es: Listing, ts: i64) -> bool {
    &&& bucket_image(es, ts).len() <= u64::MAX
    &&& forall|i: int| 0 <= i < es.len() ==> (#[trigger] es[i]).1.len() <= u64::MAX
}

/// The listing that a vector of entries holds.
pub open spec fn listing_of(v: Seq<(HashedKey, Vec<Value>)>) -> Listing {
    v.map_values(|e: (HashedKey, Vec<Value>)| (e.0, e.1@))
}

/// Overwrites `src.len()` bytes of `w` from `pos` on.
fn overwrite(w: &mut Vec<u8>, pos: usize, src: &[u8])
    requires
        pos + src@.len() <= old(w)@.len(),
    ensures
        final(w)@ == old(w)@.subrange(0, pos as int) + src@ + old(w)@.subrange(pos + src@.len(), old(w)@.len() as int),
{
    let ghost start = w@;
    let wlen = w.len();
    let mut i: usize = 0;
    while i < src.len()
        invariant
            wlen == start.len(),
            i <= src@.len(),
            pos + src@.len() <= start.len(),
            w@.len() == start.len(),
            w@ == start.subrange(0, pos as int) + src@.subrange(0, i as int) + start.subrange(pos + i, start.len() as int),
        decreases src@.len() - i,
    {
        w[pos + i] = src[i];
        i = i + 1;
        assert(w@ =~= start.subrange(0, pos as int) + src@.subrange(0, i as int) + start.subrange(pos + i, start.len() as int));
    }
    assert(src@.subrange(0, i as int) =~= src@);
}

/// Appends `n` zero bytes.
fn reserve(w: &mut Vec<u8>, n: usize)
    ensures
        final(w)@.len() == old(w)@.len() + n,
        final(w)@.subrange(0, old(w)@.len() as int) == old(w)@,
{
    let ghost start = w@;
    let mut i: usize = 0;
    while i < n
        invariant
            i <= n,
            w@.len() == start.len() + i,
            w@.subrange(0, start.len() as int) == start,
        decreases n - i,
    {
        w.push(0);
        i = i + 1;
        assert(w@.subrange(0, start.len() as int) =~= start);
    }
}

proof fn lemma_data_section_len_take(es: Listing, i: int)
    requires
        0 <= i < es.len(),
    ensures
        data_section(es.take(i + 1)) == data_section(es.take(i)) + blob_of(es[i].1),
{
    assert(es.take(i + 1).drop_last() =~= es.take(i));
}

/// Writes the bucket of an ordered listing, created at `timestamp`.
pub fn write_bucket(es: &Vec<(HashedKey, Vec<Value>)>, timestamp: i64) -> (r: Result<Vec<u8>>)
    requires
        es@.len() * 16 <= u64::MAX,
        es@.len() * 16 <= usize::MAX,
    ensures
        r matches Ok(b) && b@ == bucket_image(listing_of(es@), timestamp),
        listing_fits(listing_of(es@), timestamp),
{
    let ghost l = listing_of(es@);
    let n = es.len();
    let mut w: Vec<u8> = Vec::new();
    let mut header = BucketHeader::with_timestamp(timestamp);
    let ghost placeholder = header;
    header.encode(&mut w);
    proof { crate::format::lemma_header_round_trip(placeholder, Seq::empty()); }
    let ghost h0 = w@;

    // The sparse index.
    let mut keys: Vec<HashedKey> = Vec::new();
    let mut i: usize = 0;
    while i < n
        invariant
            n == es@.len(),
            i <= n,
            keys@ == listing_keys(l).take(i as int),
            l == listing_of(es@),
        decreases n - i,
    {
        keys.push(es[i].0);
        i = i + 1;
        assert(keys@ =~= listing_keys(l).take(i as int));
    }
    assert(keys@ =~= listing_keys(l));
    let si = SparseIndex::from_ordered_keys(DEFAULT_SPARSE_INDEX_STEP, &keys);
    let si_base = w.len();
    si.encode(&mut w);
    let ghost s_bytes = sparse_bytes(DEFAULT_SPARSE_INDEX_STEP as u64, listing_samples(l));
    assert(w@ == h0 + s_bytes);
    proof {
        crate::format::lemma_entries_len(listing_samples(l));
        vstd::bytes::lemma_auto_spec_u64_to_from_le_bytes();
        assert(s_bytes.len() == 16 + 16 * listing_samples(l).len());
    }

    // Room for the dense index.
    let di_base = w.len();
    reserve(&mut w, n * 16);
    let data_base = w.len();
    let ghost zeros = w@.subrange(di_base as int, data_base as int);
    assert(w@ =~= h0 + s_bytes + zeros);

    // The data section.
    let mut offsets: Vec<u64> = Vec::new();
    let mut i: usize = 0;
    while i < n
        invariant
            n == es@.len(),
            i <= n,
            l == listing_of(es@),
            data_base == (h0 + s_bytes + zeros).len(),
            w@ == h0 + s_bytes + zeros + data_section(l.take(i as int)),
            offsets@.len() == i,
            forall|j: int| 0 <= j < i ==> offsets@[j] == data_offset(l, j) as u64,
            forall|j: int| 0 <= j < i ==> (#[trigger] l[j]).1.len() <= u64::MAX,
        decreases n - i,
    {
        let ghost before = w@;
        let count = es[i].1.len();
        assert(l[i as int].1.len() == count);
        offsets.push((w.len() - data_base) as u64);
        let raw = encode_values(&es[i].1);
        let blob = match compress(COMPRESSION_LEVEL, raw.as_slice()) {
            Ok(b) => b,
            Err(e) => return Err(e),
        };
        append_bytes(&mut w, blob.as_slice());
        proof {
            lemma_data_section_len_take(l, i as int);
            assert(l[i as int].1 == es@[i as int].1@);
            assert(w@ =~= h0 + s_bytes + zeros + data_section(l.take(i + 1)));
            assert(l.take(i as int).take(i as int) =~= l.take(i as int));
        }
        i = i + 1;
    }
    assert(l.take(n as int) =~= l);
    assert forall|j: int| 0 <= j < l.len() implies (#[trigger] l[j]).1.len() <= u64::MAX by {}

    // Back to the dense index.
    let mut dense: Vec<u8> = Vec::new();
    let mut i: usize = 0;
    while i < n
        invariant
            n == es@.len(),
            i <= n,
            l == listing_of(es@),
            offsets@.len() == n,
            forall|j: int| 0 <= j < n ==> offsets@[j] == data_offset(l, j) as u64,
            dense@ == entries_bytes(dense_records(l).take(i as int)),
        decreases n - i,
    {
        let e = IndexEntry { key: es[i].0, offset: offsets[i] };
        e.encode(&mut dense);
        proof {
            let t = dense_records(l).take(i + 1);
            assert(t.drop_last() =~= dense_records(l).take(i as int));
            assert(t.last() == e);
        }
        i = i + 1;
    }
    assert(dense_records(l).take(n as int) =~= dense_records(l));
    proof { crate::format::lemma_entries_len(dense_records(l)); }
    overwrite(&mut w, di_base, dense.as_slice());

    // Back to the header.
    header.si_base_offset = si_base as u64;
    header.di_base_offset = di_base as u64;
    header.data_base_offset = data_base as u64;
    header.num_entries = n as u64;
    let mut hb: Vec<u8> = Vec::new();
    header.encode(&mut hb);
    proof { crate::format::lemma_header_round_trip(header, Seq::empty()); }
    overwrite(&mut w, 0, hb.as_slice());
    proof {
        crate::format::lemma_header_round_trip(placeholder, Seq::empty());
        assert(header == image_header(l, timestamp));
        assert(hb@ =~= header_bytes(image_header(l, timestamp)));
        assert(w@ =~= bucket_image(l, timestamp));
    }
    let total = w.len();
    assert(total == bucket_image(l, timestamp).len());
    Ok(w)
}

/// The ordered listing of a map of value sets.
pub fn listing_from_map(m: &BTreeMap<HashedKey, BTreeSet<Value>>) -> (r: Vec<(HashedKey, Vec<Value>)>)
    ensures
        lists(listing_of(r@), entries_model(m@)),
        r@.len() == m@.dom().len(),
{
    let mut out: Vec<(HashedKey, Vec<Value>)> = Vec::new();
    let iter = m.iter();
    let ghost rem = iter.remaining();
    let ghost ks = rem.map_values(|kv: (&HashedKey, &BTreeSet<Value>)| *kv.0);
    assert(obeys_cmp::<u64>());
    assert(increasing_seq(ks));
    assert forall|i: int, j: int| 0 <= i < j < ks.len() implies ks[i] < ks[j] by {
        assert(ks[i].cmp_spec(&ks[j]) is Less);
    }
    assert(rem.len() == m@.dom().len());
    for kv in it: iter
        invariant
            it.seq() == rem,
            ks == rem.map_values(|kv: (&HashedKey, &BTreeSet<Value>)| *kv.0),
            forall|i: int, j: int| 0 <= i < j < ks.len() ==> ks[i] < ks[j],
            rem.len() == m@.dom().len(),
            forall|i: int| 0 <= i < rem.len() ==> m@.contains_key(*(#[trigger] rem[i]).0) && m@[*rem[i].0] == *rem[i].1,
            forall|k: HashedKey| #[trigger] m@.contains_key(k) ==> rem.contains((&k, &m@[k])),
            out@.len() == it.index(),
            forall|j: int| 0 <= j < out@.len() ==> {
                &&& (#[trigger] out@[j]).0 == *rem[j].0
                &&& out@[j].1@.to_set() == rem[j].1@
                &&& strictly_ascending(out@[j].1@)
            },
    {
        let (k, s) = kv;
        let vs = sorted_values(s);
        out.push((*k, vs));
    }
    proof {
        let l = listing_of(out@);
        assert(out@.len() == rem.len());
        assert forall|i: int, j: int| 0 <= i < j < l.len() implies listing_keys(l)[i] < listing_keys(l)[j] by {
            assert(listing_keys(l)[i] == ks[i]);
            assert(listing_keys(l)[j] == ks[j]);
        }
        assert forall|i: int| 0 <= i < l.len() implies strictly_ascending(#[trigger] l[i].1) by {
            assert(l[i].1 == out@[i].1@);
        }
        assert forall|i: int| 0 <= i < l.len() implies entries_model(m@).contains_key(#[trigger] l[i].0) && entries_model(m@)[l[i].0] == l[i].1.to_set() by {
            assert(l[i].0 == *rem[i].0);
        }
        assert forall|k: HashedKey| entries_model(m@).contains_key(k) implies exists|i: int| 0 <= i < l.len() && #[trigger] l[i].0 == k by {
            assert(m@.contains_key(k));
            assert(rem.contains((&k, &m@[k])));
            let i = choose|i: int| 0 <= i < rem.len() && rem[i] == (&k, &m@[k]);
            assert(l[i].0 == k);
        }
    }
    out
}

/// Builds the bucket of `entries`, created at `timestamp`.
pub fn create_with_timestamp(entries: &BTreeMap<HashedKey, BTreeSet<Value>>, timestamp: i64) -> (r: Result<Vec<u8>>)
    requires
        entries@.dom().len() * 16 <= usize::MAX,
    ensures
        r matches Ok(b) && exists|es: Listing|
            lists(es, entries_model(entries@)) && listing_fits(es, timestamp) && b@ == bucket_image(es, timestamp),
{
    let es = listing_from_map(entries);
    write_bucket(&es, timestamp)
}

/// Builds the bucket of `entries`, stamped with the current time.
pub fn create(entries: &BTreeMap<HashedKey, BTreeSet<Value>>) -> (r: Result<Vec<u8>>)
    requires
        entries@.dom().len() * 16 <= usize::MAX,
    ensures
        r matches Ok(b) && exists|es: Listing, ts: i64|
            lists(es, entries_model(entries@)) && listing_fits(es, ts) && b@ == bucket_image(es, ts),
{
    let ts = crate::clock::now_timestamp();
    create_with_timestamp(entries, ts)
}

/// `es` lists the entries of `sl`, in the same order, each with its values ascending.
pub open spec fn lists_sets(es: Listing, sl: SetListing) -> bool {
    &&& es.len() == sl.len()
    &&& forall|i: int| 0 <= i < es.len() ==> {
        &&& (#[trigger] es[i]).0 == sl[i].0
        &&& strictly_ascending(es[i].1)
        &&& es[i].1.to_set() == sl[i].1
    }
}

/// Writes the bucket of the entries of `v`, in their order, created at `timestamp`.
pub fn write_set_listing(v: &Vec<(HashedKey, BTreeSet<Value>)>, timestamp: i64) -> (r: Result<Vec<u8>>)
    requires
        v@.len() * 16 <= usize::MAX,
    ensures
        r matches Ok(b) && exists|es: Listing|
            lists_sets(es, set_listing_of(v@)) && listing_fits(es, timestamp) && b@ == bucket_image(es, timestamp),
{
    let mut es: Vec<(HashedKey, Vec<Value>)> = Vec::new();
    let mut i: usize = 0;
    while i < v.len()
        invariant
            i <= v@.len(),
            es@.len() == i,
            forall|t: int| 0 <= t < i ==> {
                &&& (#[trigger] es@[t]).0 == v@[t].0
                &&& strictly_ascending(es@[t].1@)
                &&& es@[t].1@.to_set() == v@[t].1@
            },
        decreases v@.len() - i,
    {
        let vs = sorted_values(&v[i].1);
        es.push((v[i].0, vs));
        i = i + 1;
    }
    assert(lists_sets(listing_of(es@), set_listing_of(v@)));
    write_bucket(&es, timestamp)
}

} // verus!
