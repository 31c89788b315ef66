//! What holds of buckets across operations: a built bucket reads back as the
//! map it was built from, merging unites value sets, deleting subtracts them,
//! and the shape of the sparse index.
use vstd::bytes::*;
use vstd::prelude::*;

use crate::bucket::{blob_holds, contents_framed, dense_at, get_result, lookup_result, scan, SetListing};
use crate::codec::{strictly_ascending, decode_value_set, lemma_values_round_trip, values_bytes};
use crate::format::{
    entries_bytes, entry_at, header_bytes, header_of, lemma_entries_len, lemma_entries_round_trip, lemma_header_round_trip,
    records_ascending, IndexEntry,
};
use crate::frame::holds_frame;
use crate::delete::minus;
use crate::merge::{header_ok, merged};
use crate::prelude::{HashedKey, Value, COMPRESSION_LEVEL, DEFAULT_SPARSE_INDEX_STEP, HEADER_SIZE};
use crate::sparse::{
    bracket, insertion_point, is_insertion_point, keys_ascending, lemma_insertion_point_unique, sample, sample_count, samples_sorted, sparse_at,
    sparse_bytes, sparse_samples,
};
use crate::writer::{
    lists_sets, listing_fits, blob_of, bucket_image, data_offset, data_section, dense_records, image_header, listing_keys, listing_ordered,
    listing_samples, Listing,
};

verus! {

/// The value sets of a listing.
pub open spec fn set_listing(es: Listing) -> SetListing {
    es.map_values(|e: (HashedKey, Seq<Value>)| (e.0, e.1.to_set()))
}

proof fn lemma_data_prefix(es: Listing, j: int)
    requires
        0 <= j <= es.len(),
    ensures
        data_section(es.take(j)).len() <= data_section(es).len(),
        data_section(es).subrange(0, data_section(es.take(j)).len() as int) == data_section(es.take(j)),
    decreases es.len() - j,
{
    if j == es.len() {
        assert(es.take(j) =~= es);
    } else {
        lemma_data_prefix(es, j + 1);
        let t = es.take(j + 1);
        assert(t.drop_last() =~= es.take(j));
        let p = data_section(es.take(j));
        assert(data_section(t) == p + blob_of(es[j].1));
        assert(data_section(es).subrange(0, p.len() as int) =~= data_section(t).subrange(0, p.len() as int));
    }
}

/// The bucket built from an ordered listing has the header, sparse index
/// and dense index that the listing gives, and each of its blobs is the
/// frame of its entry's values: the reader finds every entry again.
pub proof fn lemma_image_contents(es: Listing, ts: i64)
    requires
        listing_ordered(es),
        listing_fits(es, ts),
    ensures
        header_of(bucket_image(es, ts)) == image_header(es, ts),
        header_ok(bucket_image(es, ts)),
        sparse_at(bucket_image(es, ts), HEADER_SIZE as int) == Some((DEFAULT_SPARSE_INDEX_STEP as u64, listing_samples(es))),
        dense_at(bucket_image(es, ts), image_header(es, ts)) == Some(dense_records(es)),
        contents_framed(bucket_image(es, ts), image_header(es, ts), set_listing(es)),
{
    lemma_auto_spec_u64_to_from_le_bytes();
    let h = image_header(es, ts);
    let samples = listing_samples(es);
    let dense = dense_records(es);
    let hb = header_bytes(h);
    let sb = sparse_bytes(DEFAULT_SPARSE_INDEX_STEP as u64, samples);
    let eb = entries_bytes(dense);
    let db = data_section(es);
    let b = bucket_image(es, ts);
    lemma_entries_len(samples);
    lemma_entries_len(dense);
    lemma_header_round_trip(h, sb + eb + db);
    assert(b =~= hb + (sb + eb + db));
    assert(hb.len() == 48);
    assert(sb.len() == 16 + 16 * samples.len());
    assert(eb.len() == 16 * es.len());

    // The sparse index.
    let step_bytes = spec_u64_to_le_bytes(DEFAULT_SPARSE_INDEX_STEP as u64);
    let count_bytes = spec_u64_to_le_bytes(samples.len() as u64);
    assert(b.subrange(48, 56) =~= step_bytes);
    assert(b.subrange(56, 64) =~= count_bytes);
    assert(samples.len() <= u64::MAX);
    let pre = hb + step_bytes + count_bytes;
    assert forall|i: int| 0 <= i < samples.len() implies crate::format::entry_at(b, 64 + 16 * i) == samples[i] by {
        lemma_entries_round_trip(pre, samples, eb + db, i);
        assert(pre + entries_bytes(samples) + (eb + db) =~= b);
    }
    assert(Seq::new(samples.len() as nat, |i: int| crate::format::entry_at(b, 48 + 16 + 16 * i)) =~= samples);

    // The dense index.
    let pre2 = hb + sb;
    assert forall|i: int| 0 <= i < es.len() implies crate::format::entry_at(b, h.di_base_offset + 16 * i) == dense[i] by {
        lemma_entries_round_trip(pre2, dense, db, i);
        assert(pre2 + entries_bytes(dense) + db =~= b);
    }
    assert(Seq::new(h.num_entries as nat, |i: int| crate::format::entry_at(b, h.di_base_offset + 16 * i)) =~= dense);
    assert forall|i: int, j: int| 0 <= i < j < dense.len() implies dense[i].key < dense[j].key by {
        assert(listing_keys(es)[i] == es[i].0);
        assert(listing_keys(es)[j] == es[j].0);
    }
    assert(records_ascending(dense));

    // The blobs.
    let data_base = h.data_base_offset as int;
    assert(data_base == (hb + sb + eb).len());
    assert forall|i: int| 0 <= i < es.len() implies blob_holds(b, h.data_base_offset + dense[i].offset, set_listing(es)[i].1) by {
        let off = data_offset(es, i);
        lemma_data_prefix(es, i + 1);
        assert(es.take(i + 1).drop_last() =~= es.take(i));
        let p = data_section(es.take(i));
        let blob = blob_of(es[i].1);
        assert(data_section(es.take(i + 1)) == p + blob);
        assert(off == p.len());
        assert(dense[i].offset == off);
        let s = b.subrange(data_base + off, b.len() as int);
        let rest = db.subrange(off + blob.len(), db.len() as int);
        assert(db.subrange(0, off + blob.len()) == p + blob);
        assert(s =~= db.subrange(off, db.len() as int));
        assert(s =~= blob + rest) by {
            assert(db =~= db.subrange(0, off + blob.len()) + rest);
        }
        assert(holds_frame(s, COMPRESSION_LEVEL, values_bytes(es[i].1)));
        lemma_values_round_trip(es[i].1, Seq::empty());
        assert(values_bytes(es[i].1) + Seq::empty() =~= values_bytes(es[i].1));
    }
}

/// The keys of a listing ascend strictly.
pub open spec fn ascending(sl: SetListing) -> bool {
    forall|i: int, j: int| 0 <= i < j < sl.len() ==> sl[i].0 < sl[j].0
}

/// The value set that a listing gives `k`, if it holds `k`.
pub open spec fn find(sl: SetListing, k: HashedKey) -> Option<Set<Value>>
    decreases sl.len(),
{
    if sl.len() == 0 {
        None
    } else if sl[0].0 == k {
        Some(sl[0].1)
    } else {
        find(sl.drop_first(), k)
    }
}

/// The union of two optional value sets, a missing one counting as empty.
pub open spec fn union_opt(a: Option<Set<Value>>, b: Option<Set<Value>>) -> Option<Set<Value>> {
    match (a, b) {
        (None, None) => None,
        (Some(x), None) => Some(x),
        (None, Some(y)) => Some(y),
        (Some(x), Some(y)) => Some(x.union(y)),
    }
}

/// A value set without `d`, or nothing when no value is left.
pub open spec fn minus_opt(a: Option<Set<Value>>, d: Set<Value>) -> Option<Set<Value>> {
    match a {
        None => None,
        Some(x) => if x.difference(d).is_empty() {
            None
        } else {
            Some(x.difference(d))
        },
    }
}

/// In an ascending listing, `find` gives the entry that holds the key.
pub proof fn lemma_find(sl: SetListing, k: HashedKey)
    requires
        ascending(sl),
    ensures
        forall|i: int| 0 <= i < sl.len() && #[trigger] sl[i].0 == k ==> find(sl, k) == Some(sl[i].1),
        (forall|i: int| 0 <= i < sl.len() ==> #[trigger] sl[i].0 != k) ==> find(sl, k) is None,
    decreases sl.len(),
{
    if sl.len() > 0 {
        let t = sl.drop_first();
        assert(ascending(t));
        lemma_find(t, k);
        assert forall|i: int| 0 <= i < sl.len() && #[trigger] sl[i].0 == k implies find(sl, k) == Some(sl[i].1) by {
            if i > 0 {
                assert(t[i - 1] == sl[i]);
                assert(sl[0].0 < sl[i].0);
            }
        }
        if forall|i: int| 0 <= i < sl.len() ==> #[trigger] sl[i].0 != k {
            assert forall|i: int| 0 <= i < t.len() implies #[trigger] t[i].0 != k by {
                assert(t[i] == sl[i + 1]);
            }
        }
    }
}

/// A listing of a map finds each key's value set in the map.
pub proof fn lemma_lists_find(es: Listing, m: Map<HashedKey, Set<Value>>, k: HashedKey)
    requires
        crate::writer::lists(es, m),
    ensures
        ascending(set_listing(es)),
        find(set_listing(es), k) == (if m.contains_key(k) { Some(m[k]) } else { None }),
{
    let sl = set_listing(es);
    assert forall|i: int, j: int| 0 <= i < j < sl.len() implies sl[i].0 < sl[j].0 by {
        assert(listing_keys(es)[i] == es[i].0);
        assert(listing_keys(es)[j] == es[j].0);
    }
    lemma_find(sl, k);
    if m.contains_key(k) {
        let i = choose|i: int| 0 <= i < es.len() && #[trigger] es[i].0 == k;
        assert(sl[i].0 == k);
    } else {
        assert forall|i: int| 0 <= i < sl.len() implies #[trigger] sl[i].0 != k by {
            assert(m.contains_key(es[i].0));
        }
    }
}

proof fn lemma_find_below(sl: SetListing, k: HashedKey)
    requires
        ascending(sl),
        sl.len() > 0 ==> k < sl[0].0,
    ensures
        find(sl, k) is None,
{
    lemma_find(sl, k);
    assert forall|i: int| 0 <= i < sl.len() implies #[trigger] sl[i].0 != k by {
        if i > 0 {
            assert(sl[0].0 < sl[i].0);
        }
    }
}

/// The listing holds an entry with key `x`.
pub open spec fn has_key(sl: SetListing, x: HashedKey) -> bool {
    exists|j: int| 0 <= j < sl.len() && sl[j].0 == x
}

/// Every key of a merge comes from one of its inputs.
proof fn lemma_merged_keys(a: SetListing, b: SetListing)
    ensures
        forall|i: int| 0 <= i < merged(a, b).len() ==> has_key(a, (#[trigger] merged(a, b)[i]).0) || has_key(b, merged(a, b)[i].0),
    decreases a.len() + b.len(),
{
    let m = merged(a, b);
    if a.len() == 0 || b.len() == 0 {
        assert forall|i: int| 0 <= i < m.len() implies has_key(a, (#[trigger] m[i]).0) || has_key(b, m[i].0) by {
            if a.len() == 0 {
                assert(b[i].0 == m[i].0);
            } else {
                assert(a[i].0 == m[i].0);
            }
        }
        return;
    }
    let a1 = a.drop_first();
    let b1 = b.drop_first();
    if a[0].0 < b[0].0 {
        lemma_merged_keys(a1, b);
        let r = merged(a1, b);
        assert forall|i: int| 0 <= i < m.len() implies has_key(a, (#[trigger] m[i]).0) || has_key(b, m[i].0) by {
            if i == 0 {
                assert(a[0].0 == m[0].0);
            } else {
                assert(m[i] == r[i - 1]);
                if has_key(a1, r[i - 1].0) {
                    let j = choose|j: int| 0 <= j < a1.len() && a1[j].0 == r[i - 1].0;
                    assert(a[j + 1].0 == m[i].0);
                }
            }
        }
    } else if b[0].0 < a[0].0 {
        lemma_merged_keys(a, b1);
        let r = merged(a, b1);
        assert forall|i: int| 0 <= i < m.len() implies has_key(a, (#[trigger] m[i]).0) || has_key(b, m[i].0) by {
            if i == 0 {
                assert(b[0].0 == m[0].0);
            } else {
                assert(m[i] == r[i - 1]);
                if has_key(b1, r[i - 1].0) {
                    let j = choose|j: int| 0 <= j < b1.len() && b1[j].0 == r[i - 1].0;
                    assert(b[j + 1].0 == m[i].0);
                }
            }
        }
    } else {
        lemma_merged_keys(a1, b1);
        let r = merged(a1, b1);
        assert forall|i: int| 0 <= i < m.len() implies has_key(a, (#[trigger] m[i]).0) || has_key(b, m[i].0) by {
            if i == 0 {
                assert(a[0].0 == m[0].0);
            } else {
                assert(m[i] == r[i - 1]);
                if has_key(a1, r[i - 1].0) {
                    let j = choose|j: int| 0 <= j < a1.len() && a1[j].0 == r[i - 1].0;
                    assert(a[j + 1].0 == m[i].0);
                } else {
                    let j = choose|j: int| 0 <= j < b1.len() && b1[j].0 == r[i - 1].0;
                    assert(b[j + 1].0 == m[i].0);
                }
            }
        }
    }
}

/// Merging two ascending listings gives an ascending listing in which each
/// key has the union of the value sets that the two inputs give it.
pub proof fn lemma_merge_union(a: SetListing, b: SetListing, k: HashedKey)
    requires
        ascending(a),
        ascending(b),
    ensures
        ascending(merged(a, b)),
        find(merged(a, b), k) == union_opt(find(a, k), find(b, k)),
    decreases a.len() + b.len(),
{
    let m = merged(a, b);
    if a.len() == 0 {
        assert(find(a, k) is None);
        assert(union_opt(None, find(b, k)) == find(b, k));
        return;
    }
    if b.len() == 0 {
        assert(find(b, k) is None);
        return;
    }
    let a1 = a.drop_first();
    let b1 = b.drop_first();
    assert(ascending(a1));
    assert(ascending(b1));
    if a[0].0 < b[0].0 {
        lemma_merge_union(a1, b, k);
        lemma_merged_keys(a1, b);
        let r = merged(a1, b);
        assert(m.drop_first() =~= r);
        assert forall|i: int, j: int| 0 <= i < j < m.len() implies m[i].0 < m[j].0 by {
            if i == 0 {
                assert(m[j] == r[j - 1]);
                if has_key(a1, r[j - 1].0) {
                    let t = choose|t: int| 0 <= t < a1.len() && a1[t].0 == r[j - 1].0;
                    assert(a[0].0 < a[t + 1].0);
                } else {
                    let t = choose|t: int| 0 <= t < b.len() && b[t].0 == r[j - 1].0;
                    assert(t > 0 ==> b[0].0 < b[t].0);
                }
            } else {
                assert(m[i] == r[i - 1]);
                assert(m[j] == r[j - 1]);
            }
        }
        if k == a[0].0 {
            lemma_find_below(b, k);
        }
    } else if b[0].0 < a[0].0 {
        lemma_merge_union(a, b1, k);
        lemma_merged_keys(a, b1);
        let r = merged(a, b1);
        assert(m.drop_first() =~= r);
        assert forall|i: int, j: int| 0 <= i < j < m.len() implies m[i].0 < m[j].0 by {
            if i == 0 {
                assert(m[j] == r[j - 1]);
                if has_key(a, r[j - 1].0) {
                    let t = choose|t: int| 0 <= t < a.len() && a[t].0 == r[j - 1].0;
                    assert(t > 0 ==> a[0].0 < a[t].0);
                } else {
                    let t = choose|t: int| 0 <= t < b1.len() && b1[t].0 == r[j - 1].0;
                    assert(b[0].0 < b[t + 1].0);
                }
            } else {
                assert(m[i] == r[i - 1]);
                assert(m[j] == r[j - 1]);
            }
        }
        if k == b[0].0 {
            lemma_find_below(a, k);
        }
    } else {
        lemma_merge_union(a1, b1, k);
        lemma_merged_keys(a1, b1);
        let r = merged(a1, b1);
        assert(m.drop_first() =~= r);
        assert forall|i: int, j: int| 0 <= i < j < m.len() implies m[i].0 < m[j].0 by {
            if i == 0 {
                assert(m[j] == r[j - 1]);
                if has_key(a1, r[j - 1].0) {
                    let t = choose|t: int| 0 <= t < a1.len() && a1[t].0 == r[j - 1].0;
                    assert(a[0].0 < a[t + 1].0);
                } else {
                    let t = choose|t: int| 0 <= t < b1.len() && b1[t].0 == r[j - 1].0;
                    assert(b[0].0 < b[t + 1].0);
                }
            } else {
                assert(m[i] == r[i - 1]);
                assert(m[j] == r[j - 1]);
            }
        }
    }
}

/// Merging is symmetric: swapping the inputs gives the same listing.
pub proof fn lemma_merge_symmetric(a: SetListing, b: SetListing)
    ensures
        merged(a, b) == merged(b, a),
    decreases a.len() + b.len(),
{
    if a.len() == 0 || b.len() == 0 {
        return;
    }
    if a[0].0 < b[0].0 {
        lemma_merge_symmetric(a.drop_first(), b);
    } else if b[0].0 < a[0].0 {
        lemma_merge_symmetric(a, b.drop_first());
    } else {
        lemma_merge_symmetric(a.drop_first(), b.drop_first());
        assert(a[0].1.union(b[0].1) =~= b[0].1.union(a[0].1));
    }
}

proof fn lemma_find_push(sl: SetListing, x: (HashedKey, Set<Value>), k: HashedKey)
    requires
        ascending(sl.push(x)),
    ensures
        find(sl.push(x), k) == (if x.0 == k { Some(x.1) } else { find(sl, k) }),
{
    let t = sl.push(x);
    lemma_find(t, k);
    assert(ascending(sl)) by {
        assert forall|i: int, j: int| 0 <= i < j < sl.len() implies sl[i].0 < sl[j].0 by {
            assert(t[i] == sl[i] && t[j] == sl[j]);
        }
    }
    lemma_find(sl, k);
    if x.0 == k {
        assert(t[sl.len() as int].0 == k);
    } else if has_key(sl, k) {
        let i = choose|i: int| 0 <= i < sl.len() && sl[i].0 == k;
        assert(t[i] == sl[i]);
    } else {
        assert forall|i: int| 0 <= i < t.len() implies #[trigger] t[i].0 != k by {
            if i < sl.len() {
                assert(t[i] == sl[i]);
                assert(!(0 <= i < sl.len() && sl[i].0 == k));
            }
        }
        assert forall|i: int| 0 <= i < sl.len() implies #[trigger] sl[i].0 != k by {
            assert(!(0 <= i < sl.len() && sl[i].0 == k));
        }
    }
}

/// Removing the values of `d` from an ascending listing keeps it ascending,
/// takes them out of each key's value set, and drops the keys left empty.
pub proof fn lemma_delete_minus(sl: SetListing, d: Set<Value>, k: HashedKey)
    requires
        ascending(sl),
    ensures
        ascending(minus(sl, d)),
        find(minus(sl, d), k) == minus_opt(find(sl, k), d),
        forall|i: int| 0 <= i < minus(sl, d).len() ==> has_key(sl, (#[trigger] minus(sl, d)[i]).0),
    decreases sl.len(),
{
    if sl.len() == 0 {
        return;
    }
    let s1 = sl.drop_last();
    let x = sl.last();
    assert(sl =~= s1.push(x));
    assert(ascending(s1));
    lemma_delete_minus(s1, d, k);
    lemma_find_push(s1, x, k);
    let rest = minus(s1, d);
    let s2 = x.1.difference(d);
    assert forall|i: int| 0 <= i < rest.len() implies has_key(sl, (#[trigger] rest[i]).0) by {
        let j = choose|j: int| 0 <= j < s1.len() && s1[j].0 == rest[i].0;
        assert(sl[j] == s1[j]);
    }
    assert forall|i: int| 0 <= i < rest.len() implies (#[trigger] rest[i]).0 < x.0 by {
        let j = choose|j: int| 0 <= j < s1.len() && s1[j].0 == rest[i].0;
        assert(sl[j] == s1[j]);
    }
    if x.0 == k {
        lemma_find(s1, k);
        assert forall|i: int| 0 <= i < s1.len() implies #[trigger] s1[i].0 != k by {
            assert(sl[i] == s1[i]);
        }
    }
    if !s2.is_empty() {
        let m = rest.push((x.0, s2));
        assert forall|i: int, j: int| 0 <= i < j < m.len() implies m[i].0 < m[j].0 by {
            assert(m[i] == rest[i]);
            if j < rest.len() {
                assert(m[j] == rest[j]);
            }
        }
        lemma_find_push(rest, (x.0, s2), k);
        assert forall|i: int| 0 <= i < m.len() implies has_key(sl, (#[trigger] m[i]).0) by {
            if i < rest.len() {
                assert(m[i] == rest[i]);
            } else {
                assert(sl[sl.len() - 1].0 == m[i].0);
            }
        }
    }
}

/// Deleting no value gives back the listing, when no entry is empty.
pub proof fn lemma_delete_nothing(sl: SetListing)
    requires
        forall|i: int| 0 <= i < sl.len() ==> !(#[trigger] sl[i]).1.is_empty(),
    ensures
        minus(sl, Set::empty()) == sl,
    decreases sl.len(),
{
    if sl.len() > 0 {
        let s1 = sl.drop_last();
        assert forall|i: int| 0 <= i < s1.len() implies !(#[trigger] s1[i]).1.is_empty() by {
            assert(sl[i] == s1[i]);
        }
        lemma_delete_nothing(s1);
        assert(sl.last().1.difference(Set::empty()) =~= sl.last().1);
        assert(s1.push(sl.last()) =~= sl);
    }
}

/// The position in the ordered key list where the `i`-th sample was taken.
pub open spec fn sample_pos(n: nat, step: nat, i: int) -> int {
    if i < sample_count(n, step) {
        i * step
    } else {
        n - 1
    }
}

/// The samples of a non-empty key list: at least two; the `i`-th taken at
/// `sample_pos`, which starts at the first position, ends at the last, never
/// decreases, and is `i * step` for all but the last sample.
pub proof fn lemma_sparse_shape(ks: Seq<HashedKey>, step: nat)
    requires
        step > 0,
        ks.len() >= 1,
        ks.len() * 16 <= u64::MAX,
    ensures
        sparse_samples(ks, step).len() >= 2,
        forall|i: int| 0 <= i < sparse_samples(ks, step).len() ==> {
            &&& 0 <= sample_pos(ks.len(), step, i) < ks.len()
            &&& #[trigger] sparse_samples(ks, step)[i] == sample(ks, sample_pos(ks.len(), step, i))
        },
        forall|i: int| 0 <= i < sparse_samples(ks, step).len() - 1 ==> #[trigger] sample_pos(ks.len(), step, i) == i * step,
        sample_pos(ks.len(), step, 0) == 0,
        sample_pos(ks.len(), step, sparse_samples(ks, step).len() - 1) == ks.len() - 1,
        forall|i: int, j: int| 0 <= i <= j < sparse_samples(ks, step).len()
            ==> sample_pos(ks.len(), step, i) <= sample_pos(ks.len(), step, j),
{
    let n = ks.len();
    let m = sample_count(n, step);
    let q = (n - 1) as nat / step;
    vstd::arithmetic::div_mod::lemma_fundamental_div_mod((n - 1) as int, step as int);
    assert(q * step <= n - 1);
    assert(m == q + 1);
    let sm = sparse_samples(ks, step);
    assert forall|i: int| 0 <= i < m implies 0 <= #[trigger] (i * step) <= n - 1 by {
        assert(0 <= i * step <= q * step) by (nonlinear_arith)
            requires 0 <= i <= q, step > 0;
    }
    if n == 1 || (m - 1) * step != n - 1 {
        assert(sm.len() == m + 1);
    } else {
        assert(q * step == n - 1);
        assert(q >= 1) by (nonlinear_arith)
            requires q * step == n - 1, n >= 2;
        assert(sm.len() == m);
    }
    assert forall|i: int| 0 <= i < sm.len() implies {
        &&& 0 <= sample_pos(n, step, i) < n
        &&& #[trigger] sm[i] == sample(ks, sample_pos(n, step, i))
    } by {
        if i < m {
            assert(0 <= i * step <= n - 1);
        }
    }
    assert forall|i: int, j: int| 0 <= i <= j < sm.len() implies sample_pos(n, step, i) <= sample_pos(n, step, j) by {
        if j < m {
            assert(i * step <= j * step) by (nonlinear_arith)
                requires 0 <= i <= j, step > 0;
        } else if i < m {
            assert(0 <= i * step <= n - 1);
        }
    }
    assert(sample_pos(n, step, 0) == 0);
}

/// For two or more keys the sparse index has at least two samples, its keys
/// ascend strictly, the first sample holds the smallest key and the last the
/// largest, and all but the last sample sit `step` records apart.
pub proof fn lemma_sparse_index_shape(ks: Seq<HashedKey>, step: nat)
    requires
        keys_ascending(ks),
        ks.len() >= 2,
        step > 0,
        ks.len() * 16 <= u64::MAX,
    ensures
        sparse_samples(ks, step).len() >= 2,
        sparse_samples(ks, step)[0].key == ks[0],
        sparse_samples(ks, step).last().key == ks.last(),
        forall|i: int, j: int| 0 <= i < j < sparse_samples(ks, step).len()
            ==> sparse_samples(ks, step)[i].key < sparse_samples(ks, step)[j].key,
        forall|i: int| 0 <= i < sparse_samples(ks, step).len() - 1
            ==> (#[trigger] sparse_samples(ks, step)[i]).offset == i * step * 16,
{
    let n = ks.len();
    let sm = sparse_samples(ks, step);
    let m = sample_count(n, step);
    lemma_sparse_shape(ks, step);
    let last = sm.len() - 1;
    // The last sample lies past the one before it.
    let q = (n - 1) as nat / step;
    vstd::arithmetic::div_mod::lemma_fundamental_div_mod((n - 1) as int, step as int);
    assert(sample_pos(n, step, last - 1) < n - 1) by {
        assert(sample_pos(n, step, last - 1) == (last - 1) * step);
        if n == 1 || (m - 1) * step != n - 1 {
            assert(last - 1 == m - 1);
        } else {
            assert(last == m - 1);
            assert((m - 2) * step < (m - 1) * step) by (nonlinear_arith)
                requires step > 0;
        }
    }
    assert forall|i: int, j: int| 0 <= i < j < sm.len() implies sm[i].key < sm[j].key by {
        assert(sm[i] == sample(ks, sample_pos(n, step, i)));
        assert(sm[j] == sample(ks, sample_pos(n, step, j)));
        if j < last {
            assert(i * step < j * step) by (nonlinear_arith)
                requires 0 <= i < j, step > 0;
            assert(sample_pos(n, step, i) == i * step);
            assert(sample_pos(n, step, j) == j * step);
        } else {
            assert(sample_pos(n, step, i) <= sample_pos(n, step, last - 1));
        }
    }
    assert forall|i: int| 0 <= i < sm.len() - 1 implies (#[trigger] sm[i]).offset == i * step * 16 by {
        assert(sm[i] == sample(ks, sample_pos(n, step, i)));
        assert(sample_pos(n, step, i) == i * step);
        assert(0 <= i * step * 16 <= n * 16) by (nonlinear_arith)
            requires 0 <= i * step < n;
    }
    assert(sm[0] == sample(ks, 0));
    assert(sm[last] == sample(ks, n - 1));
}

/// A single key gives two identical samples, both at the start of the dense index.
pub proof fn lemma_sparse_index_single(ks: Seq<HashedKey>, step: nat)
    requires
        ks.len() == 1,
        step > 0,
    ensures
        sparse_samples(ks, step).len() == 2,
        sparse_samples(ks, step)[0] == sparse_samples(ks, step)[1],
        sparse_samples(ks, step)[0] == (IndexEntry { key: ks[0], offset: 0 }),
{
    assert(sample_count(1, step) == 1) by {
        assert(0nat / step == 0) by (nonlinear_arith)
            requires step > 0;
    }
}

/// The bracket of the sparse index of an ascending key list: two offsets of
/// records in the dense index, in order; and where the key is in the list,
/// it lies between them.
pub proof fn lemma_bracket_bounds(ks: Seq<HashedKey>, step: nat, k: HashedKey)
    requires
        keys_ascending(ks),
        ks.len() >= 1,
        step > 0,
        ks.len() * 16 <= u64::MAX,
    ensures
        samples_sorted(sparse_samples(ks, step)),
        bracket(sparse_samples(ks, step), k) matches Some((lo, hi)) ==> {
            &&& lo % 16 == 0
            &&& hi % 16 == 0
            &&& lo <= hi <= 16 * (ks.len() - 1)
            &&& forall|p: int| 0 <= p < ks.len() && ks[p] == k ==> lo <= 16 * p <= hi
        },
        (exists|p: int| 0 <= p < ks.len() && ks[p] == k) ==> bracket(sparse_samples(ks, step), k) is Some,
{
    let n = ks.len();
    let sm = sparse_samples(ks, step);
    lemma_sparse_shape(ks, step);
    let pos = |i: int| sample_pos(n, step, i);
    assert forall|i: int, j: int| 0 <= i < j < sm.len() implies sm[i].key <= sm[j].key by {
        assert(sm[i] == sample(ks, sample_pos(n, step, i)));
        assert(sm[j] == sample(ks, sample_pos(n, step, j)));
        assert(sample_pos(n, step, i) <= sample_pos(n, step, j));
    }
    assert forall|i: int| 0 <= i < sm.len() implies (#[trigger] sm[i]).offset == 16 * sample_pos(n, step, i) && 0 <= sample_pos(n, step, i) < n by {
        assert(sm[i] == sample(ks, sample_pos(n, step, i)));
    }
    // The insertion point exists for a sorted list.
    let j = choose|j: int| is_insertion_point(sm, k, j);
    assert(exists|j: int| is_insertion_point(sm, k, j)) by {
        lemma_insertion_point_exists(sm, k, 0);
    }
    lemma_insertion_point_unique(sm, k, j);
    assert forall|p: int| 0 <= p < n && ks[p] == k implies (j < sm.len() && sm[j].key == k && sample_pos(n, step, j) == p)
        || (0 < j < sm.len() && sample_pos(n, step, j - 1) < p < sample_pos(n, step, j)) by {
        if j == sm.len() {
            assert(sm[sm.len() - 1].key < k);
            assert(sm[sm.len() - 1] == sample(ks, n - 1));
            if p < n - 1 {
                assert(ks[p] < ks[n - 1]);
            }
        } else {
            let pj = sample_pos(n, step, j);
            assert(sm[j] == sample(ks, pj));
            assert(k <= ks[pj]);
            if pj < p {
                assert(ks[pj] < ks[p]);
            }
            if sm[j].key != k {
                assert(p < pj) by {
                    if pj == p {
                        assert(ks[pj] == k);
                    }
                }
                if j == 0 {
                    assert(sample_pos(n, step, 0) == 0);
                }
                assert(j > 0);
                let pi = sample_pos(n, step, j - 1);
                assert(sm[j - 1] == sample(ks, pi));
                assert(sm[j - 1].key < k);
                if p <= pi {
                    if p < pi {
                        assert(ks[p] < ks[pi]);
                    }
                }
            } else {
                if pj != p {
                    if pj < p {
                        assert(ks[pj] < ks[p]);
                    } else {
                        assert(ks[p] < ks[pj]);
                    }
                }
            }
        }
    }
}

/// A sorted sample list has an insertion point for every key: the first
/// sample from `start` on whose key is not smaller, or the end.
proof fn lemma_insertion_point_exists(sm: Seq<IndexEntry>, k: HashedKey, start: int)
    requires
        samples_sorted(sm),
        0 <= start <= sm.len(),
        forall|i: int| 0 <= i < start ==> #[trigger] sm[i].key < k,
    ensures
        exists|j: int| is_insertion_point(sm, k, j),
    decreases sm.len() - start,
{
    if start == sm.len() || k <= sm[start].key {
        assert forall|i: int| start <= i < sm.len() implies k <= #[trigger] sm[i].key by {
            assert(sm[start].key <= sm[i].key);
        }
        assert(is_insertion_point(sm, k, start));
    } else {
        lemma_insertion_point_exists(sm, k, start + 1);
    }
}

/// A key below the smallest or above the largest has no bracket.
pub proof fn lemma_sparse_bounds(ks: Seq<HashedKey>, step: nat, k: HashedKey)
    requires
        keys_ascending(ks),
        step > 0,
        ks.len() * 16 <= u64::MAX,
        ks.len() == 0 || k < ks[0] || k > ks.last(),
    ensures
        bracket(sparse_samples(ks, step), k) is None,
{
    let n = ks.len();
    if n == 0 {
        return;
    }
    let sm = sparse_samples(ks, step);
    lemma_sparse_shape(ks, step);
    lemma_bracket_bounds(ks, step, 0);
    assert forall|i: int| 0 <= i < sm.len() implies ks[0] <= (#[trigger] sm[i]).key && sm[i].key <= ks.last() by {
        let pi = sample_pos(n, step, i);
        assert(sm[i] == sample(ks, pi));
        if pi > 0 {
            assert(ks[0] < ks[pi]);
        }
        if pi < n - 1 {
            assert(ks[pi] < ks[n - 1]);
        }
    }
    if k < ks[0] {
        assert(is_insertion_point(sm, k, 0));
        lemma_insertion_point_unique(sm, k, 0);
    } else {
        assert(is_insertion_point(sm, k, sm.len() as int));
        lemma_insertion_point_unique(sm, k, sm.len() as int);
    }
}

/// Scanning records `q` to `q1` of a dense index laid out at `di`: the first
/// record with the key gives its offset; with no such record the scan ends
/// empty-handed.
proof fn lemma_scan(b: Seq<u8>, k: HashedKey, di: int, dense: Seq<IndexEntry>, q: int, q1: int)
    requires
        0 <= di,
        0 <= q <= q1 < dense.len(),
        di + 16 * dense.len() <= b.len(),
        forall|t: int| 0 <= t < dense.len() ==> entry_at(b, di + 16 * t) == #[trigger] dense[t],
    ensures
        (forall|t: int| q <= t <= q1 ==> (#[trigger] dense[t]).key != k) ==> scan(b, k, di + 16 * q, di + 16 * q1) == Some(
            None::<u64>,
        ),
        forall|p: int|
            q <= p <= q1 && (#[trigger] dense[p]).key == k && (forall|t: int| q <= t < p ==> (#[trigger] dense[t]).key != k)
                ==> scan(b, k, di + 16 * q, di + 16 * q1) == Some(Some(dense[p].offset)),
    decreases q1 - q,
{
    assert(entry_at(b, di + 16 * q) == dense[q]);
    if q < q1 {
        lemma_scan(b, k, di, dense, q + 1, q1);
        assert(di + 16 * q + 16 == di + 16 * (q + 1));
        assert forall|p: int|
            q <= p <= q1 && (#[trigger] dense[p]).key == k && (forall|t: int| q <= t < p ==> (#[trigger] dense[t]).key != k)
            implies scan(b, k, di + 16 * q, di + 16 * q1) == Some(Some(dense[p].offset)) by {
            if p > q {
                assert(dense[q].key != k);
            }
        }
    }
}

/// Round trip: looking a key up in the bucket built from a listing of `m`
/// finds the value set that `m` gives it, and nothing for a key that `m`
/// does not hold. `r` is any result that `get` may return on that bucket.
pub proof fn lemma_round_trip(
    es: Listing,
    m: Map<HashedKey, Set<Value>>,
    ts: i64,
    k: HashedKey,
    r: crate::error::Result<Option<std::collections::BTreeSet<Value>>>,
)
    requires
        crate::writer::lists(es, m),
        listing_fits(es, ts),
        get_result(bucket_image(es, ts), header_of(bucket_image(es, ts)), k, r),
    ensures
        header_ok(bucket_image(es, ts)),
        m.contains_key(k) ==> (r matches Ok(Some(v)) && v@ == m[k]),
        !m.contains_key(k) ==> (r matches Ok(None)),
{
    let b = bucket_image(es, ts);
    let h = image_header(es, ts);
    let n = es.len();
    let ks = listing_keys(es);
    let dense = dense_records(es);
    let samples = listing_samples(es);
    lemma_image_contents(es, ts);
    lemma_entries_len(dense);
    assert(b.len() >= h.di_base_offset + 16 * n);
    assert(n * 16 <= u64::MAX);
    assert(keys_ascending(ks)) by {
        assert forall|i: int, j: int| 0 <= i < j < ks.len() implies ks[i] < ks[j] by {
            assert(ks[i] == es[i].0 && ks[j] == es[j].0);
        }
    }
    if n == 0 {
        assert(samples.len() == 0);
        if m.contains_key(k) {
            let i = choose|i: int| 0 <= i < es.len() && #[trigger] es[i].0 == k;
        }
        return;
    }
    lemma_bracket_bounds(ks, DEFAULT_SPARSE_INDEX_STEP as nat, k);
    assert forall|t: int| 0 <= t < dense.len() implies entry_at(b, h.di_base_offset + 16 * t) == #[trigger] dense[t] by {
        assert(dense_at(b, h) == Some(dense));
    }
    if m.contains_key(k) {
        let p = choose|i: int| 0 <= i < es.len() && #[trigger] es[i].0 == k;
        assert(ks[p] == k);
        let (lo, hi) = bracket(samples, k)->Some_0;
        let q = lo / 16;
        let q1 = hi / 16;
        assert(lo == 16 * q && hi == 16 * q1);
        assert(q <= p <= q1);
        lemma_scan(b, k, h.di_base_offset as int, dense, q as int, q1 as int);
        assert forall|t: int| q <= t < p implies (#[trigger] dense[t]).key != k by {
            assert(ks[t] < ks[p]);
        }
        assert(dense[p].key == k);
        let sl = set_listing(es);
        assert(contents_framed(b, h, sl));
        assert(blob_holds(b, h.data_base_offset + dense[p].offset, sl[p].1));
        let blob = b.subrange(h.data_base_offset + dense[p].offset, b.len() as int);
        let (level, raw) = choose|level: u32, raw: Seq<u8>|
            #[trigger] holds_frame(blob, level, raw) && decode_value_set(raw) == Some(sl[p].1);
        assert(sl[p].1 == m[k]);
    } else {
        match bracket(samples, k) {
            None => {},
            Some((lo, hi)) => {
                let q = lo / 16;
                let q1 = hi / 16;
                assert(lo == 16 * q && hi == 16 * q1);
                lemma_scan(b, k, h.di_base_offset as int, dense, q as int, q1 as int);
                assert forall|t: int| q <= t <= q1 implies (#[trigger] dense[t]).key != k by {
                    assert(m.contains_key(es[t].0));
                }
            },
        }
    }
}

/// The value set that a map gives `k`, if any.
pub open spec fn map_get(m: Map<HashedKey, Set<Value>>, k: HashedKey) -> Option<Set<Value>> {
    if m.contains_key(k) {
        Some(m[k])
    } else {
        None
    }
}

/// The map whose value sets are those that `f` gives, where it gives one.
pub open spec fn map_of(f: spec_fn(HashedKey) -> Option<Set<Value>>) -> Map<HashedKey, Set<Value>> {
    Map::new(|k: HashedKey| f(k) is Some, |k: HashedKey| f(k)->Some_0)
}

/// A listing with ascending keys whose value sets are those of an ascending
/// set listing lists the map that the set listing describes.
proof fn lemma_lists_from_sets(es: Listing, sl: SetListing)
    requires
        lists_sets(es, sl),
        ascending(sl),
    ensures
        crate::writer::lists(es, map_of(|k: HashedKey| find(sl, k))),
{
    let m = map_of(|k: HashedKey| find(sl, k));
    assert forall|i: int, j: int| 0 <= i < j < es.len() implies listing_keys(es)[i] < listing_keys(es)[j] by {
        assert(es[i].0 == sl[i].0 && es[j].0 == sl[j].0);
    }
    assert forall|i: int| 0 <= i < es.len() implies m.contains_key(#[trigger] es[i].0) && m[es[i].0] == es[i].1.to_set() by {
        lemma_find(sl, es[i].0);
        assert(sl[i].0 == es[i].0);
    }
    assert forall|k: HashedKey| m.contains_key(k) implies exists|i: int| 0 <= i < es.len() && #[trigger] es[i].0 == k by {
        lemma_find(sl, k);
        if forall|i: int| 0 <= i < sl.len() ==> #[trigger] sl[i].0 != k {
            assert(find(sl, k) is None);
        } else {
            let i = choose|i: int| 0 <= i < sl.len() && #[trigger] sl[i].0 == k;
            assert(es[i].0 == k);
        }
    }
}

/// Merge union: in the bucket that merging the buckets built from `m1` and
/// `m2` yields, each key has the union of the value sets that the two maps
/// give it, a missing one counting as empty, and a key of neither is absent.
/// `es` and `ts` are what `merge` says its output is built from, and `r` any
/// result that `get` may return on the output.
pub proof fn lemma_merge_round_trip(
    es1: Listing,
    m1: Map<HashedKey, Set<Value>>,
    es2: Listing,
    m2: Map<HashedKey, Set<Value>>,
    es: Listing,
    ts: i64,
    k: HashedKey,
    r: crate::error::Result<Option<std::collections::BTreeSet<Value>>>,
)
    requires
        crate::writer::lists(es1, m1),
        crate::writer::lists(es2, m2),
        lists_sets(es, merged(set_listing(es1), set_listing(es2))),
        listing_fits(es, ts),
        get_result(bucket_image(es, ts), header_of(bucket_image(es, ts)), k, r),
    ensures
        union_opt(map_get(m1, k), map_get(m2, k)) matches Some(u) ==> (r matches Ok(Some(v)) && v@ == u),
        union_opt(map_get(m1, k), map_get(m2, k)) is None ==> (r matches Ok(None)),
{
    let sl = merged(set_listing(es1), set_listing(es2));
    lemma_lists_find(es1, m1, k);
    lemma_lists_find(es2, m2, k);
    lemma_merge_union(set_listing(es1), set_listing(es2), k);
    lemma_lists_from_sets(es, sl);
    lemma_round_trip(es, map_of(|x: HashedKey| find(sl, x)), ts, k, r);
}

/// Delete minus: in the bucket that deleting the values of `d` from the
/// bucket built from `m` yields, each key has its value set without `d`, and
/// a key left with no value is absent. `es` and `ts` are what `delete` says
/// its output is built from, and `r` any result that `get` may return on it.
pub proof fn lemma_delete_round_trip(
    es0: Listing,
    m: Map<HashedKey, Set<Value>>,
    d: Set<Value>,
    es: Listing,
    ts: i64,
    k: HashedKey,
    r: crate::error::Result<Option<std::collections::BTreeSet<Value>>>,
)
    requires
        crate::writer::lists(es0, m),
        lists_sets(es, minus(set_listing(es0), d)),
        listing_fits(es, ts),
        get_result(bucket_image(es, ts), header_of(bucket_image(es, ts)), k, r),
    ensures
        minus_opt(map_get(m, k), d) matches Some(u) ==> (r matches Ok(Some(v)) && v@ == u),
        minus_opt(map_get(m, k), d) is None ==> (r matches Ok(None)),
{
    let sl = minus(set_listing(es0), d);
    lemma_lists_find(es0, m, k);
    lemma_delete_minus(set_listing(es0), d, k);
    lemma_lists_from_sets(es, sl);
    lemma_round_trip(es, map_of(|x: HashedKey| find(sl, x)), ts, k, r);
}

/// Sparse-index bracketing: in the bucket built from an ordered listing,
/// every key that the bucket holds has a bracket `(lo, hi)` with `lo <= hi`,
/// and the dense-index scan from `lo` to `hi` reaches that key's record and
/// returns its blob's offset.
pub proof fn lemma_bracket_scan(es: Listing, ts: i64, p: int)
    requires
        listing_ordered(es),
        listing_fits(es, ts),
        0 <= p < es.len(),
    ensures
        bracket(listing_samples(es), es[p].0) matches Some((lo, hi)) && lo <= hi && scan(
            bucket_image(es, ts),
            es[p].0,
            image_header(es, ts).di_base_offset + lo,
            image_header(es, ts).di_base_offset + hi,
        ) == Some(Some(dense_records(es)[p].offset)),
{
    let b = bucket_image(es, ts);
    let h = image_header(es, ts);
    let ks = listing_keys(es);
    let dense = dense_records(es);
    let k = es[p].0;
    lemma_image_contents(es, ts);
    lemma_entries_len(dense);
    assert(keys_ascending(ks)) by {
        assert forall|i: int, j: int| 0 <= i < j < ks.len() implies ks[i] < ks[j] by {
            assert(ks[i] == es[i].0 && ks[j] == es[j].0);
        }
    }
    assert(ks[p] == k);
    lemma_bracket_bounds(ks, DEFAULT_SPARSE_INDEX_STEP as nat, k);
    assert forall|t: int| 0 <= t < dense.len() implies entry_at(b, h.di_base_offset + 16 * t) == #[trigger] dense[t] by {
        assert(dense_at(b, h) == Some(dense));
    }
    let (lo, hi) = bracket(listing_samples(es), k)->Some_0;
    let q = lo / 16;
    let q1 = hi / 16;
    assert(lo == 16 * q && hi == 16 * q1);
    lemma_scan(b, k, h.di_base_offset as int, dense, q as int, q1 as int);
    assert forall|t: int| q <= t < p implies (#[trigger] dense[t]).key != k by {
        assert(ks[t] < ks[p]);
    }
}

/// Neighbouring samples are at most `step` positions apart.
proof fn lemma_sample_gap(ks: Seq<HashedKey>, step: nat)
    requires
        step > 0,
        ks.len() >= 1,
        ks.len() * 16 <= u64::MAX,
    ensures
        forall|i: int| 0 < i < sparse_samples(ks, step).len()
            ==> #[trigger] sample_pos(ks.len(), step, i) - sample_pos(ks.len(), step, i - 1) <= step,
{
    let n = ks.len();
    let m = sample_count(n, step);
    let q = (n - 1) as nat / step;
    vstd::arithmetic::div_mod::lemma_fundamental_div_mod((n - 1) as int, step as int);
    lemma_sparse_shape(ks, step);
    let sm = sparse_samples(ks, step);
    assert forall|i: int| 0 < i < sm.len() implies #[trigger] sample_pos(n, step, i) - sample_pos(n, step, i - 1) <= step by {
        if i < m {
            assert(i * step - (i - 1) * step == step) by (nonlinear_arith);
        } else {
            assert(sample_pos(n, step, i - 1) == q * step);
        }
    }
}

/// A bracket spans at most `step` records past its first one, so the
/// dense-index scan reads at most `step + 1` records.
pub proof fn lemma_bracket_width(ks: Seq<HashedKey>, step: nat, k: HashedKey)
    requires
        keys_ascending(ks),
        ks.len() >= 1,
        step > 0,
        ks.len() * 16 <= u64::MAX,
    ensures
        bracket(sparse_samples(ks, step), k) matches Some((lo, hi)) ==> hi - lo <= 16 * step,
{
    let n = ks.len();
    let sm = sparse_samples(ks, step);
    lemma_sparse_shape(ks, step);
    lemma_sample_gap(ks, step);
    lemma_bracket_bounds(ks, step, k);
    lemma_insertion_point_exists(sm, k, 0);
    let j = insertion_point(sm, k);
    if 0 < j < sm.len() {
        let p0 = sample_pos(n, step, j - 1);
        let p1 = sample_pos(n, step, j);
        assert(sm[j - 1] == sample(ks, p0));
        assert(sm[j] == sample(ks, p1));
        assert(p1 - p0 <= step);
        assert(0 <= p0 <= p1 < n);
        assert(16 * p0 <= 16 * p1 < 16 * n) by (nonlinear_arith)
            requires 0 <= p0 <= p1 < n;
        assert(sm[j - 1].offset == 16 * p0);
        assert(sm[j].offset == 16 * p1);
        assert(bracket(sm, k) == Some((sm[j - 1].offset, sm[j].offset)) || bracket(sm, k) == Some((sm[j].offset, sm[j].offset)));
    }
}

proof fn lemma_drop_last_set(x: Seq<Value>)
    requires
        strictly_ascending(x),
        x.len() > 0,
    ensures
        x.drop_last().to_set() == x.to_set().remove(x.last()),
        forall|v: Value| x.to_set().contains(v) ==> v <= x.last(),
{
    let d = x.drop_last();
    assert forall|v: Value| d.to_set().contains(v) <==> x.to_set().remove(x.last()).contains(v) by {
        if d.to_set().contains(v) {
            let i = choose|i: int| 0 <= i < d.len() && d[i] == v;
            assert(x[i] == v);
        }
        if x.to_set().remove(x.last()).contains(v) {
            let i = choose|i: int| 0 <= i < x.len() && x[i] == v;
            assert(i != x.len() - 1);
            assert(d[i] == v);
        }
    }
    assert(d.to_set() =~= x.to_set().remove(x.last()));
    assert forall|v: Value| x.to_set().contains(v) implies v <= x.last() by {
        let i = choose|i: int| 0 <= i < x.len() && x[i] == v;
        if i < x.len() - 1 {
            assert(x[i] < x[x.len() - 1]);
        }
    }
}

/// Two ascending sequences with the same values are equal.
proof fn lemma_ascending_unique(x: Seq<Value>, y: Seq<Value>)
    requires
        strictly_ascending(x),
        strictly_ascending(y),
        x.to_set() == y.to_set(),
    ensures
        x == y,
    decreases x.len(),
{
    if x.len() == 0 {
        if y.len() > 0 {
            assert(y.to_set().contains(y[0]));
        }
        assert(x =~= y);
        return;
    }
    if y.len() == 0 {
        assert(x.to_set().contains(x[0]));
        return;
    }
    lemma_drop_last_set(x);
    lemma_drop_last_set(y);
    assert(x.to_set().contains(x.last()));
    assert(y.to_set().contains(y.last()));
    assert(x.last() == y.last());
    assert(strictly_ascending(x.drop_last()));
    assert(strictly_ascending(y.drop_last()));
    lemma_ascending_unique(x.drop_last(), y.drop_last());
    assert(x =~= x.drop_last().push(x.last()));
    assert(y =~= y.drop_last().push(y.last()));
}

/// A set listing has one listing with ascending values.
pub proof fn lemma_lists_sets_unique(es1: Listing, es2: Listing, sl: SetListing)
    requires
        lists_sets(es1, sl),
        lists_sets(es2, sl),
    ensures
        es1 == es2,
{
    assert forall|i: int| 0 <= i < es1.len() implies es1[i] == es2[i] by {
        lemma_ascending_unique(es1[i].1, es2[i].1);
    }
    assert(es1 =~= es2);
}

/// Merge symmetry, byte for byte: the buckets that merging `(a, b)` and
/// `(b, a)` build at the same time are identical.
pub proof fn lemma_merge_symmetric_image(a: SetListing, b: SetListing, es1: Listing, es2: Listing, ts: i64)
    requires
        lists_sets(es1, merged(a, b)),
        lists_sets(es2, merged(b, a)),
    ensures
        bucket_image(es1, ts) == bucket_image(es2, ts),
{
    lemma_merge_symmetric(a, b);
    lemma_lists_sets_unique(es1, es2, merged(a, b));
}

/// Round trip through the two steps of a lookup: in the bucket built from a
/// listing of `m`, the slice `(lo, hi)` that the sparse index gives `k` leads
/// `Bucket::try_get` to the value set that `m` gives `k`, or to nothing when
/// `m` does not hold `k`. `r` is any result that `try_get` may return.
pub proof fn lemma_try_get_round_trip(
    es: Listing,
    m: Map<HashedKey, Set<Value>>,
    ts: i64,
    k: HashedKey,
    lo: u64,
    hi: u64,
    r: crate::error::Result<Option<std::collections::BTreeSet<Value>>>,
)
    requires
        crate::writer::lists(es, m),
        listing_fits(es, ts),
        bracket(listing_samples(es), k) == Some((lo, hi)),
        lookup_result(bucket_image(es, ts), header_of(bucket_image(es, ts)), k, lo, hi, r),
    ensures
        m.contains_key(k) ==> (r matches Ok(Some(v)) && v@ == m[k]),
        !m.contains_key(k) ==> (r matches Ok(None)),
{
    let b = bucket_image(es, ts);
    let ks = listing_keys(es);
    lemma_image_contents(es, ts);
    assert(es.len() >= 1);
    assert(keys_ascending(ks)) by {
        assert forall|i: int, j: int| 0 <= i < j < ks.len() implies ks[i] < ks[j] by {
            assert(ks[i] == es[i].0 && ks[j] == es[j].0);
        }
    }
    lemma_entries_len(dense_records(es));
    assert(es.len() * 16 <= u64::MAX);
    lemma_bracket_bounds(ks, DEFAULT_SPARSE_INDEX_STEP as nat, k);
    assert(get_result(b, header_of(b), k, r));
    lemma_round_trip(es, m, ts, k, r);
}

/// Deleting acts through the set of values alone: two value lists with the
/// same values give the same listing, whatever their order and repeats; and
/// the listing keeps exactly one entry for each key with a value left.
pub proof fn lemma_delete_by_set(sl: SetListing, d1: Seq<Value>, d2: Seq<Value>, k: HashedKey)
    requires
        ascending(sl),
        d1.to_set() == d2.to_set(),
    ensures
        minus(sl, d1.to_set()) == minus(sl, d2.to_set()),
        has_key(minus(sl, d1.to_set()), k) <==> minus_opt(find(sl, k), d1.to_set()) is Some,
{
    lemma_delete_minus(sl, d1.to_set(), k);
    let t = minus(sl, d1.to_set());
    lemma_find(t, k);
    if has_key(t, k) {
        let i = choose|i: int| 0 <= i < t.len() && t[i].0 == k;
        assert(t[i].0 == k);
    } else {
        assert forall|i: int| 0 <= i < t.len() implies #[trigger] t[i].0 != k by {
            assert(!(0 <= i < t.len() && t[i].0 == k));
        }
    }
}

} // verus!
