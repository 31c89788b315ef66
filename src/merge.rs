//! Merging two buckets into one: a sorted two-way merge of their dense
//! indices, with the value sets of a key that both hold united.
use std::collections::BTreeSet;
use vstd::prelude::*;
use vstd::std_specs::iter::IteratorSpec;

use crate::bucket::{contents, contents_framed, dense_at, set_listing_of, Bucket, SetListing};
use crate::error::{Error, Result};
use crate::format::header_of;
use crate::prelude::{HashedKey, Value, HEADER_SIZE, MAGIC, VERSION};
use crate::writer::{bucket_image, listing_fits, lists_sets, write_set_listing, Listing};

verus! {

broadcast use vstd::std_specs::btree::group_btree_axioms, vstd::laws_cmp::group_laws_cmp, vstd::seq_lib::group_seq_properties;

/// The file starts with a header that `check_headers` accepts.
pub open spec fn header_ok(b: Seq<u8>) -> bool {
    &&& b.len() >= HEADER_SIZE
    &&& header_of(b).magic == MAGIC
    &&& header_of(b).version == VERSION
}

/// `e` is the error that `check_headers` gives for a file that starts with
/// no acceptable header.
pub open spec fn header_rejects(b: Seq<u8>, e: Error) -> bool {
    if b.len() < HEADER_SIZE {
        e is DecodeError
    } else if header_of(b).magic != MAGIC {
        e is BadMagic
    } else {
        e is BadVersion
    }
}

/// The sorted two-way merge of two listings: the smaller key goes first, and
/// a key at the front of both goes once, with the union of its value sets.
pub open spec fn merged(a: SetListing, b: SetListing) -> SetListing
    decreases a.len() + b.len(),
{
    if a.len() == 0 {
        b
    } else if b.len() == 0 {
        a
    } else if a[0].0 < b[0].0 {
        seq![a[0]] + merged(a.drop_first(), b)
    } else if b[0].0 < a[0].0 {
        seq![b[0]] + merged(a, b.drop_first())
    } else {
        seq![(a[0].0, a[0].1.union(b[0].1))] + merged(a.drop_first(), b.drop_first())
    }
}

proof fn lemma_merged_len(a: SetListing, b: SetListing)
    ensures
        merged(a, b).len() <= a.len() + b.len(),
    decreases a.len() + b.len(),
{
    if a.len() > 0 && b.len() > 0 {
        if a[0].0 < b[0].0 {
            lemma_merged_len(a.drop_first(), b);
        } else if b[0].0 < a[0].0 {
            lemma_merged_len(a, b.drop_first());
        } else {
            lemma_merged_len(a.drop_first(), b.drop_first());
        }
    }
}

/// The union of two value sets.
fn union_of(a: &BTreeSet<Value>, b: &BTreeSet<Value>) -> (r: BTreeSet<Value>)
    ensures
        r@ == a@.union(b@),
{
    let mut u = a.clone();
    let iter = b.iter();
    assert(iter.remaining().unref().to_set() == b@);
    for v in it: iter
        invariant
            u@ == a@.union(it.seq().unref().take(it.index() as int).to_set()),
            it.seq().unref().to_set() == b@,
    {
        proof { it.seq().unref().take(it.index() as int).lemma_push_to_set_commute(*v); }
        assert(it.seq().unref().take(it.index() as int + 1) == it.seq().unref().take(it.index() as int).push(*v));
        u.insert(*v);
        assert(u@ =~= a@.union(it.seq().unref().take(it.index() as int + 1).to_set()));
    }
    assert(u@ =~= a@.union(b@));
    u
}

/// The sorted two-way merge of two entry lists.
pub fn merge_listings(
    a: &Vec<(HashedKey, BTreeSet<Value>)>,
    b: &Vec<(HashedKey, BTreeSet<Value>)>,
) -> (r: Vec<(HashedKey, BTreeSet<Value>)>)
    ensures
        set_listing_of(r@) == merged(set_listing_of(a@), set_listing_of(b@)),
{
    let ghost la = set_listing_of(a@);
    let ghost lb = set_listing_of(b@);
    let mut out: Vec<(HashedKey, BTreeSet<Value>)> = Vec::new();
    let mut i: usize = 0;
    let mut j: usize = 0;
    while i < a.len() || j < b.len()
        invariant
            la == set_listing_of(a@),
            lb == set_listing_of(b@),
            i <= a@.len(),
            j <= b@.len(),
            set_listing_of(out@) + merged(la.skip(i as int), lb.skip(j as int)) == merged(la, lb),
        decreases a@.len() - i + b@.len() - j,
    {
        let ghost sa = la.skip(i as int);
        let ghost sb = lb.skip(j as int);
        let ghost before = set_listing_of(out@);
        if j == b.len() || (i < a.len() && a[i].0 < b[j].0) {
            out.push((a[i].0, a[i].1.clone()));
            proof {
                assert(sa[0] == la[i as int]);
                assert(sa.drop_first() =~= la.skip(i + 1));
                if sb.len() == 0 {
                    assert(merged(sa, sb) == sa);
                    assert(merged(sa.drop_first(), sb) == sa.drop_first());
                    assert(sa =~= seq![sa[0]] + sa.drop_first());
                }
                assert(set_listing_of(out@) =~= before.push(la[i as int]));
                assert(before.push(la[i as int]) + merged(sa.drop_first(), sb) =~= before + merged(sa, sb));
            }
            i = i + 1;
        } else if i == a.len() || b[j].0 < a[i].0 {
            out.push((b[j].0, b[j].1.clone()));
            proof {
                assert(sb[0] == lb[j as int]);
                assert(sb.drop_first() =~= lb.skip(j + 1));
                if sa.len() == 0 {
                    assert(merged(sa, sb) == sb);
                    assert(merged(sa, sb.drop_first()) == sb.drop_first());
                    assert(sb =~= seq![sb[0]] + sb.drop_first());
                }
                assert(set_listing_of(out@) =~= before.push(lb[j as int]));
                assert(before.push(lb[j as int]) + merged(sa, sb.drop_first()) =~= before + merged(sa, sb));
            }
            j = j + 1;
        } else {
            let u = union_of(&a[i].1, &b[j].1);
            out.push((a[i].0, u));
            proof {
                assert(sa[0] == la[i as int]);
                assert(sb[0] == lb[j as int]);
                assert(sa.drop_first() =~= la.skip(i + 1));
                assert(sb.drop_first() =~= lb.skip(j + 1));
                let e = (la[i as int].0, la[i as int].1.union(lb[j as int].1));
                assert(set_listing_of(out@) =~= before.push(e));
                assert(before.push(e) + merged(sa.drop_first(), sb.drop_first()) =~= before + merged(sa, sb));
            }
            i = i + 1;
            j = j + 1;
        }
    }
    proof {
        assert(la.skip(i as int).len() == 0);
        assert(lb.skip(j as int).len() == 0);
        assert(set_listing_of(out@) =~= merged(la, lb));
    }
    out
}

/// What merging `file_1` and `file_2` into a bucket stamped `ts` returns: the
/// header errors of either file; on two readable buckets, the bucket of the
/// merge of their contents; and success whenever every blob of both is a
/// frame that the encoder wrote.
pub open spec fn merge_outcome(file_1: Seq<u8>, file_2: Seq<u8>, ts: i64, r: Result<Vec<u8>>) -> bool {
    &&& (!header_ok(file_1) ==> (r matches Err(e) && header_rejects(file_1, e)))
    &&& (header_ok(file_1) && !header_ok(file_2) ==> (r matches Err(e) && header_rejects(file_2, e)))
    &&& (header_ok(file_1) && header_ok(file_2) ==> {
        let h1 = header_of(file_1);
        let h2 = header_of(file_2);
        &&& (r matches Ok(out) ==> exists|c1: SetListing, c2: SetListing, es: Listing| {
            &&& contents(file_1, h1) == Some(c1)
            &&& contents(file_2, h2) == Some(c2)
            &&& lists_sets(es, merged(c1, c2))
            &&& listing_fits(es, ts)
            &&& out@ == bucket_image(es, ts)
        })
        &&& (dense_at(file_1, h1) is None || dense_at(file_2, h2) is None ==> r is Err)
        &&& (r matches Err(e) ==> e is IoError || e is DecodeError)
        &&& forall|sl1: SetListing, sl2: SetListing|
            #[trigger] contents_framed(file_1, h1, sl1) && #[trigger] contents_framed(file_2, h2, sl2) ==> (r matches Ok(
                out,
            ) && exists|es: Listing|
                lists_sets(es, merged(sl1, sl2)) && listing_fits(es, ts) && out@ == bucket_image(es, ts))
    })
}

/// Merges two bucket files into the bytes of a new bucket that holds every key
/// of either, with the union of the value sets of a key that both hold,
/// stamped with the current time.
pub fn merge(file_1: Vec<u8>, file_2: Vec<u8>) -> (r: Result<Vec<u8>>)
    requires
        file_1@.len() + file_2@.len() <= usize::MAX,
    ensures
        exists|ts: i64| merge_outcome(file_1@, file_2@, ts, r),
{
    let ts = crate::clock::now_timestamp();
    merge_with_timestamp(file_1, file_2, ts)
}

/// Merges two bucket files into the bytes of a new bucket that holds every key
/// of either, with the union of the value sets of a key that both hold,
/// stamped `timestamp`.
pub fn merge_with_timestamp(file_1: Vec<u8>, file_2: Vec<u8>, timestamp: i64) -> (r: Result<Vec<u8>>)
    requires
        file_1@.len() + file_2@.len() <= usize::MAX,
    ensures
        merge_outcome(file_1@, file_2@, timestamp, r),
{
    let b1 = match Bucket::open(file_1).check_headers() {
        Ok(b) => b,
        Err(e) => return Err(e),
    };
    let b2 = match Bucket::open(file_2).check_headers() {
        Ok(b) => b,
        Err(e) => return Err(e),
    };
    let e1 = match b1.read_entries() {
        Ok(v) => v,
        Err(e) => {
            assert forall|sl1: SetListing| !contents_framed(file_1@, header_of(file_1@), sl1) by {
                if contents_framed(file_1@, header_of(file_1@), sl1) {
                    assert(contents_framed(b1.bytes(), b1.head(), sl1));
                }
            }
            return Err(e);
        },
    };
    let e2 = match b2.read_entries() {
        Ok(v) => v,
        Err(e) => {
            assert forall|sl2: SetListing| !contents_framed(file_2@, header_of(file_2@), sl2) by {
                if contents_framed(file_2@, header_of(file_2@), sl2) {
                    assert(contents_framed(b2.bytes(), b2.head(), sl2));
                }
            }
            return Err(e);
        },
    };
    let m = merge_listings(&e1, &e2);
    proof {
        lemma_merged_len(set_listing_of(e1@), set_listing_of(e2@));
    }
    write_set_listing(&m, timestamp)
}

} // verus!
