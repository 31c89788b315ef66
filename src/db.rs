//! A database: buckets indexed by the calendar day of their creation stamp.
use chrono::{Datelike, TimeZone};
use vstd::prelude::*;

use crate::bucket::{get_result, Bucket, Checked};
use crate::codec::{sorted_values, strictly_ascending};
use crate::error::{Error, Result};
use crate::prelude::{HashedKey, Value};

verus! {

/// A calendar day: year, month (1 to 12) and day of the month.
pub type Day = (i32, u32, u32);

/// `a` comes before `b` on the calendar.
pub open spec fn day_lt(a: Day, b: Day) -> bool {
    a.0 < b.0 || (a.0 == b.0 && (a.1 < b.1 || (a.1 == b.1 && a.2 < b.2)))
}

/// `a` comes before `b` or is `b`.
pub open spec fn day_le(a: Day, b: Day) -> bool {
    day_lt(a, b) || a == b
}

fn day_before(a: Day, b: Day) -> (r: bool)
    ensures
        r == day_lt(a, b),
{
    a.0 < b.0 || (a.0 == b.0 && (a.1 < b.1 || (a.1 == b.1 && a.2 < b.2)))
}

/// Relies on `chrono::Local.timestamp_opt` and `Datelike`: the day, in the
/// machine's time zone, of `timestamp` seconds after the Unix epoch, or
/// `None` when that instant has no single local time. The month lies in
/// 1 to 12 and the day in 1 to 31.
#[verifier::external_body]
fn local_day_of(timestamp: i64) -> (r: Option<Day>)
    ensures
        r matches Some(d) ==> 1 <= d.1 <= 12 && 1 <= d.2 <= 31,
{
    chrono::Local.timestamp_opt(timestamp, 0).single().map(|t| (t.year(), t.month(), t.day()))
}

/// A set of buckets, at most one per day, in calendar order.
pub struct Db {
    buckets: Vec<(Day, Bucket<Checked>)>,
    root: String,
}

/// The buckets of `s` whose day lies in `[start, end]`, in order.
pub open spec fn in_range(s: Seq<(Day, Bucket<Checked>)>, start: Day, end: Day) -> Seq<Bucket<Checked>>
    decreases s.len(),
{
    if s.len() == 0 {
        Seq::empty()
    } else {
        let rest = in_range(s.drop_last(), start, end);
        if day_le(start, s.last().0) && day_le(s.last().0, end) {
            rest.push(s.last().1)
        } else {
            rest
        }
    }
}

/// `vs` is what a lookup of `key` in `b` may give, as a value sequence: the
/// values of the set it finds in ascending order, or nothing.
pub open spec fn lookup_gives(b: Bucket<Checked>, key: HashedKey, vs: Seq<Value>) -> bool {
    exists|r: Result<Option<std::collections::BTreeSet<Value>>>| {
        &&& #[trigger] get_result(b.bytes(), b.head(), key, r)
        &&& r matches Ok(o)
        &&& match o {
            Some(s) => strictly_ascending(vs) && vs.to_set() == s@,
            None => vs.len() == 0,
        }
    }
}

/// `after` is `before` with `b` filed under day `d`: it holds `(d, b)`, keeps
/// every entry of another day, and holds nothing else. With days in strict
/// order this fixes `after`.
pub open spec fn filed(before: Seq<(Day, Bucket<Checked>)>, after: Seq<(Day, Bucket<Checked>)>, d: Day, b: Bucket<Checked>) -> bool {
    &&& after.contains((d, b))
    &&& forall|i: int| 0 <= i < before.len() && before[i].0 != d ==> after.contains(#[trigger] before[i])
    &&& forall|i: int| 0 <= i < after.len() ==> (#[trigger] after[i]) == (d, b) || before.contains(after[i])
}

/// The buckets in range of a prefix come first among those of the whole.
proof fn lemma_in_range_prefix(s: Seq<(Day, Bucket<Checked>)>, j: int, start: Day, end: Day)
    requires
        0 <= j <= s.len(),
    ensures
        in_range(s.take(j), start, end).len() <= in_range(s, start, end).len(),
        forall|t: int| 0 <= t < in_range(s.take(j), start, end).len()
            ==> #[trigger] in_range(s.take(j), start, end)[t] == in_range(s, start, end)[t],
    decreases s.len() - j,
{
    if j == s.len() {
        assert(s.take(j) =~= s);
    } else {
        lemma_in_range_prefix(s, j + 1, start, end);
        assert(s.take(j + 1).drop_last() =~= s.take(j));
        let a = in_range(s.take(j), start, end);
        let b = in_range(s.take(j + 1), start, end);
        assert forall|t: int| 0 <= t < a.len() implies #[trigger] a[t] == in_range(s, start, end)[t] by {
            assert(b[t] == a[t]);
        }
    }
}

/// A lookup of `key` in `b` may succeed.
pub open spec fn lookup_ok(b: Bucket<Checked>, key: HashedKey) -> bool {
    exists|vs: Seq<Value>| lookup_gives(b, key, vs)
}

/// The sequences of `parts` back to back.
pub open spec fn concat(parts: Seq<Seq<Value>>) -> Seq<Value>
    decreases parts.len(),
{
    if parts.len() == 0 {
        Seq::empty()
    } else {
        concat(parts.drop_last()) + parts.last()
    }
}

impl Db {
    /// The buckets with their days, in order.
    pub closed spec fn entries(&self) -> Seq<(Day, Bucket<Checked>)> {
        self.buckets@
    }

    /// The directory the buckets were read from.
    pub closed spec fn root_path(&self) -> Seq<char> {
        self.root@
    }

    /// The directory the buckets were read from.
    pub fn root(&self) -> (r: &String)
        ensures
            r@ == self.root_path(),
    {
        &self.root
    }

    /// The days ascend strictly.
    pub open spec fn wf(&self) -> bool {
        forall|i: int, j: int| 0 <= i < j < self.entries().len() ==> day_lt(self.entries()[i].0, self.entries()[j].0)
    }

    /// An empty database rooted at `root`.
    pub fn new(root: String) -> (r: Db)
        ensures
            r.wf(),
            r.entries().len() == 0,
            r.root_path() == root@,
    {
        Db { buckets: Vec::new(), root }
    }

    /// The number of buckets.
    pub fn len(&self) -> (r: usize)
        ensures
            r == self.entries().len(),
    {
        self.buckets.len()
    }

    /// Files `bucket` under the day of its creation stamp, in place of any
    /// bucket of that day; a stamp with no single local time is refused.
    pub fn add(&mut self, bucket: Bucket<Checked>) -> (r: Result<()>)
        requires
            old(self).wf(),
        ensures
            final(self).wf(),
            final(self).root_path() == old(self).root_path(),
            r is Err ==> (r matches Err(Error::DateParseError) && final(self).entries() == old(self).entries()),
            r is Ok ==> exists|d: Day| #[trigger] filed(old(self).entries(), final(self).entries(), d, bucket),
    {
        let day = match local_day_of(bucket.header().timestamp) {
            Some(d) => d,
            None => return Err(Error::DateParseError),
        };
        self.file_on_day(day, bucket);
        Ok(())
    }

    /// Files `bucket` under `day`, in place of any bucket of that day.
    pub fn file_on_day(&mut self, day: Day, bucket: Bucket<Checked>)
        requires
            old(self).wf(),
        ensures
            final(self).wf(),
            final(self).root_path() == old(self).root_path(),
            filed(old(self).entries(), final(self).entries(), day, bucket),
    {
        let ghost before = self.buckets@;
        assert(before == old(self).entries());
        let n = self.buckets.len();
        let mut i: usize = 0;
        while i < n && day_before(self.buckets[i].0, day)
            invariant
                n == self.buckets@.len(),
                self.buckets@ == before,
                forall|a: int, c: int| 0 <= a < c < before.len() ==> day_lt(before[a].0, before[c].0),
                i <= n,
                forall|t: int| 0 <= t < i ==> day_lt(#[trigger] self.buckets@[t].0, day),
            decreases n - i,
        {
            i = i + 1;
        }
        let replace = i < n && !day_before(day, self.buckets[i].0);
        if replace {
            let _replaced = self.buckets.remove(i);
        }
        let ghost mid = self.buckets@;
        proof {
            if replace {
                assert(before[i as int].0 == day);
                assert(mid =~= before.remove(i as int));
            } else {
                assert(mid == before);
            }
            assert forall|t: int| 0 <= t < mid.len() implies (t < i ==> day_lt(#[trigger] mid[t].0, day)) && (t >= i
                ==> day_lt(day, mid[t].0)) by {
                if replace {
                    if t < i {
                        assert(mid[t] == before[t]);
                    } else {
                        assert(mid[t] == before[t + 1]);
                        assert(day_lt(before[i as int].0, before[t + 1].0));
                    }
                } else if t > i {
                    assert(day_lt(before[i as int].0, before[t].0));
                }
            }
            assert forall|a: int, c: int| 0 <= a < c < mid.len() implies day_lt(mid[a].0, mid[c].0) by {
                if replace {
                    let a2 = if a < i { a } else { a + 1 };
                    let c2 = if c < i { c } else { c + 1 };
                    assert(mid[a] == before[a2]);
                    assert(mid[c] == before[c2]);
                }
            }
        }
        self.buckets.insert(i, (day, bucket));
        proof {
            let after = self.buckets@;
            assert(after =~= mid.insert(i as int, (day, bucket)));
            assert(after[i as int] == (day, bucket));
            assert forall|a: int, c: int| 0 <= a < c < after.len() implies day_lt(after[a].0, after[c].0) by {
                let ma = if a < i { a } else { a - 1 };
                let mc = if c < i { c } else { c - 1 };
                if a != i {
                    assert(after[a] == mid[ma]);
                }
                if c != i {
                    assert(after[c] == mid[mc]);
                }
                if a != i && c != i {
                    assert(day_lt(mid[ma].0, mid[mc].0));
                }
            }
            assert forall|t: int| 0 <= t < before.len() && before[t].0 != day implies after.contains(#[trigger] before[t]) by {
                if replace {
                    if t < i {
                        assert(mid[t] == before[t]);
                        assert(after[t] == before[t]);
                    } else {
                        assert(t != i);
                        assert(mid[t - 1] == before[t]);
                        assert(after[t] == before[t]);
                    }
                } else {
                    if t < i {
                        assert(after[t] == before[t]);
                    } else {
                        assert(after[t + 1] == before[t]);
                    }
                }
            }
            assert forall|t: int| 0 <= t < after.len() implies (#[trigger] after[t]) == (day, bucket) || before.contains(after[t]) by {
                if t != i {
                    let mt = if t < i { t } else { t - 1 };
                    assert(after[t] == mid[mt]);
                    if replace {
                        let bt = if mt < i { mt } else { mt + 1 };
                        assert(mid[mt] == before[bt]);
                    } else {
                        assert(mid[mt] == before[mt]);
                    }
                }
            }
            assert(after.contains((day, bucket)));
            assert(self.entries() == after);
        }
    }

    /// The values that `hash` has in the buckets of the days `start` to
    /// `end`, bucket by bucket in calendar order, each bucket's in ascending
    /// order.
    pub fn query(&self, hash: HashedKey, start: Day, end: Day) -> (r: Result<Vec<Value>>)
        ensures
            r matches Ok(v) ==> exists|parts: Seq<Seq<Value>>| {
                &&& parts.len() == in_range(self.entries(), start, end).len()
                &&& forall|i: int| 0 <= i < parts.len()
                    ==> lookup_gives(in_range(self.entries(), start, end)[i], hash, #[trigger] parts[i])
                &&& v@ == concat(parts)
            },
            r matches Err(e) ==> exists|i: int| {
                &&& 0 <= i < in_range(self.entries(), start, end).len()
                &&& #[trigger] get_result(
                    in_range(self.entries(), start, end)[i].bytes(),
                    in_range(self.entries(), start, end)[i].head(),
                    hash,
                    Err(e),
                )
                &&& forall|t: int| 0 <= t < i ==> #[trigger] lookup_ok(in_range(self.entries(), start, end)[t], hash)
            },
    {
        let mut v: Vec<Value> = Vec::new();
        let ghost mut parts: Seq<Seq<Value>> = Seq::empty();
        let n = self.buckets.len();
        let mut i: usize = 0;
        while i < n
            invariant
                n == self.entries().len(),
                i <= n,
                parts.len() == in_range(self.entries().take(i as int), start, end).len(),
                forall|t: int| 0 <= t < parts.len()
                    ==> lookup_gives(in_range(self.entries().take(i as int), start, end)[t], hash, #[trigger] parts[t]),
                v@ == concat(parts),
            decreases n - i,
        {
            let ghost prefix = self.entries().take(i as int);
            let ghost next = self.entries().take(i + 1);
            assert(next.drop_last() =~= prefix);
            let (day, bucket) = (&self.buckets[i].0, &self.buckets[i].1);
            if !day_before(*day, start) && !day_before(end, *day) {
                let got = bucket.get(hash);
                let found = match got {
                    Ok(o) => o,
                    Err(e) => {
                        proof {
                            lemma_in_range_prefix(self.entries(), i + 1, start, end);
                            let t = in_range(next, start, end).len() - 1;
                            assert(in_range(next, start, end)[t] == *bucket);
                            assert(in_range(self.entries(), start, end)[t] == *bucket);
                            assert(in_range(next, start, end).drop_last() == in_range(prefix, start, end));
                            assert forall|u: int| 0 <= u < t implies #[trigger] lookup_ok(in_range(self.entries(), start, end)[u], hash) by {
                                assert(in_range(prefix, start, end)[u] == in_range(next, start, end)[u]);
                                assert(lookup_gives(in_range(prefix, start, end)[u], hash, parts[u]));
                            }
                        }
                        return Err(e);
                    },
                };
                let ghost before = v@;
                let vs: Vec<Value> = match &found {
                    Some(set) => sorted_values(set),
                    None => Vec::new(),
                };
                let mut j: usize = 0;
                while j < vs.len()
                    invariant
                        j <= vs@.len(),
                        v@ == before + vs@.take(j as int),
                    decreases vs@.len() - j,
                {
                    v.push(vs[j]);
                    j = j + 1;
                    assert(v@ =~= before + vs@.take(j as int));
                }
                proof {
                    assert(vs@.take(j as int) =~= vs@);
                    assert(lookup_gives(*bucket, hash, vs@));
                    let old_parts = parts;
                    parts = parts.push(vs@);
                    assert(parts.drop_last() =~= old_parts);
                    assert forall|t: int| 0 <= t < parts.len()
                        implies lookup_gives(in_range(next, start, end)[t], hash, #[trigger] parts[t]) by {
                        if t < old_parts.len() {
                            assert(parts[t] == old_parts[t]);
                        }
                    }
                }
            }
            i = i + 1;
        }
        assert(self.entries().take(n as int) =~= self.entries());
        Ok(v)
    }
}

} // verus!
