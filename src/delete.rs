//! Rewriting a bucket without some values: keys whose value set becomes
//! empty are dropped.
use std::collections::BTreeSet;
use vstd::prelude::*;

use crate::bucket::{contents, contents_framed, dense_at, set_listing_of, Bucket, SetListing};
use crate::error::{Error, Result};
use crate::format::header_of;
use crate::merge::{header_ok, header_rejects};
use crate::prelude::{HashedKey, Value};
use crate::writer::{bucket_image, listing_fits, lists_sets, write_set_listing, Listing};

verus! {

broadcast use vstd::std_specs::btree::group_btree_axioms, vstd::laws_cmp::group_laws_cmp;

/// The listing without the values of `d`; entries left with no value are dropped.
pub open spec fn minus(sl: SetListing, d: Set<Value>) -> SetListing
    decreases sl.len(),
{
    if sl.len() == 0 {
        Seq::empty()
    } else {
        let rest = minus(sl.drop_last(), d);
        let s = sl.last().1.difference(d);
        if s.is_empty() {
            rest
        } else {
            rest.push((sl.last().0, s))
        }
    }
}

proof fn lemma_minus_len(sl: SetListing, d: Set<Value>)
    ensures
        minus(sl, d).len() <= sl.len(),
    decreases sl.len(),
{
    if sl.len() > 0 {
        lemma_minus_len(sl.drop_last(), d);
    }
}

/// The entries of `v` without the values of `values`; entries left with no
/// value are dropped.
pub fn remove_values(v: &Vec<(HashedKey, BTreeSet<Value>)>, values: &[Value]) -> (r: Vec<(HashedKey, BTreeSet<Value>)>)
    ensures
        set_listing_of(r@) == minus(set_listing_of(v@), values@.to_set()),
{
    let ghost d = values@.to_set();
    let ghost l = set_listing_of(v@);
    let mut out: Vec<(HashedKey, BTreeSet<Value>)> = Vec::new();
    let mut i: usize = 0;
    while i < v.len()
        invariant
            i <= v@.len(),
            l == set_listing_of(v@),
            d == values@.to_set(),
            set_listing_of(out@) == minus(l.take(i as int), d),
        decreases v@.len() - i,
    {
        let mut set = v[i].1.clone();
        let mut j: usize = 0;
        while j < values.len()
            invariant
                j <= values@.len(),
                set@ == v@[i as int].1@.difference(values@.take(j as int).to_set()),
            decreases values@.len() - j,
        {
            set.remove(&values[j]);
            proof {
                values@.take(j as int).lemma_push_to_set_commute(values@[j as int]);
                assert(values@.take(j + 1) == values@.take(j as int).push(values@[j as int]));
            }
            j = j + 1;
            assert(set@ =~= v@[i as int].1@.difference(values@.take(j as int).to_set()));
        }
        assert(values@.take(j as int) =~= values@);
        proof {
            assert(l.take(i + 1).drop_last() =~= l.take(i as int));
        }
        if !set.is_empty() {
            let ghost before = out@;
            out.push((v[i].0, set));
            assert(set_listing_of(out@) =~= set_listing_of(before).push((l[i as int].0, l[i as int].1.difference(d))));
        }
        i = i + 1;
    }
    assert(l.take(i as int) =~= l);
    out
}

/// What rewriting `file` without the values of `d` into a bucket stamped `ts`
/// returns: the header error of the file; on a readable bucket, the bucket of
/// its contents without `d`; and success whenever every blob is a frame that
/// the encoder wrote.
pub open spec fn delete_outcome(file: Seq<u8>, d: Set<Value>, ts: i64, r: Result<Vec<u8>>) -> bool {
    &&& (!header_ok(file) ==> (r matches Err(e) && header_rejects(file, e)))
    &&& (header_ok(file) ==> {
        let h = header_of(file);
        &&& (r matches Ok(out) ==> exists|c: SetListing, es: Listing| {
            &&& contents(file, h) == Some(c)
            &&& lists_sets(es, minus(c, d))
            &&& listing_fits(es, ts)
            &&& out@ == bucket_image(es, ts)
        })
        &&& (dense_at(file, h) is None ==> r matches Err(Error::DecodeError))
        &&& (r matches Err(e) ==> e is IoError || e is DecodeError)
        &&& forall|sl: SetListing| #[trigger] contents_framed(file, h, sl) ==> (r matches Ok(out) && exists|es: Listing|
            lists_sets(es, minus(sl, d)) && listing_fits(es, ts) && out@ == bucket_image(es, ts))
    })
}

/// Rewrites a bucket file without the values in `value_set`: every key keeps
/// the values it had that are not listed, and keys left with none are dropped.
/// The new bucket is stamped with the current time.
pub fn delete(file: Vec<u8>, value_set: &[Value]) -> (r: Result<Vec<u8>>)
    ensures
        exists|ts: i64| delete_outcome(file@, value_set@.to_set(), ts, r),
{
    let ts = crate::clock::now_timestamp();
    delete_with_timestamp(file, value_set, ts)
}

/// Rewrites a bucket file without the values in `value_set`, as `delete`
/// does, into a bucket stamped `timestamp`.
pub fn delete_with_timestamp(file: Vec<u8>, value_set: &[Value], timestamp: i64) -> (r: Result<Vec<u8>>)
    ensures
        delete_outcome(file@, value_set@.to_set(), timestamp, r),
{
    let b = match Bucket::open(file).check_headers() {
        Ok(b) => b,
        Err(e) => return Err(e),
    };
    let entries = match b.read_entries() {
        Ok(v) => v,
        Err(e) => {
            assert forall|sl: SetListing| !contents_framed(file@, header_of(file@), sl) by {
                if contents_framed(file@, header_of(file@), sl) {
                    assert(contents_framed(b.bytes(), b.head(), sl));
                }
            }
            return Err(e);
        },
    };
    let kept = remove_values(&entries, value_set);
    proof {
        lemma_minus_len(set_listing_of(entries@), value_set@.to_set());
    }
    write_set_listing(&kept, timestamp)
}

} // verus!
