use std::collections::{BTreeMap, BTreeSet};

use binstore::bucket::{Bucket, Checked};
use binstore::db::Db;
use binstore::writer::create_with_timestamp;

// Noon, UTC, on 2021-01-01, 2021-01-02 and 2021-01-05.
const DAY_1: i64 = 1_609_502_400;
const DAY_2: i64 = 1_609_588_800;
const DAY_5: i64 = 1_609_848_000;

fn bucket_at(ts: i64, entries: &[(u64, &[u128])]) -> Bucket<Checked> {
    let m: BTreeMap<u64, BTreeSet<u128>> =
        entries.iter().map(|(k, vs)| (*k, vs.iter().copied().collect())).collect();
    let bytes = create_with_timestamp(&m, ts).expect("create");
    Bucket::open(bytes).check_headers().expect("check_headers")
}

#[test]
fn db_query_by_day_range() {
    let mut db = Db::new("buckets".to_string());
    assert_eq!(db.len(), 0);
    db.add(bucket_at(DAY_5, &[(7, &[50, 51])])).expect("add");
    db.add(bucket_at(DAY_1, &[(7, &[10, 3]), (8, &[1])])).expect("add");
    db.add(bucket_at(DAY_2, &[(7, &[20])])).expect("add");
    assert_eq!(db.len(), 3);
    assert_eq!(db.root(), "buckets");

    assert_eq!(db.query(7, (2021, 1, 1), (2021, 1, 2)).expect("query"), vec![3, 10, 20]);
    assert_eq!(db.query(7, (2020, 1, 1), (2022, 1, 1)).expect("query"), vec![3, 10, 20, 50, 51]);
    assert_eq!(db.query(8, (2021, 1, 1), (2021, 1, 5)).expect("query"), vec![1]);
    assert_eq!(db.query(7, (2021, 1, 3), (2021, 1, 4)).expect("query"), Vec::<u128>::new());
    assert_eq!(db.query(9, (2021, 1, 1), (2021, 1, 5)).expect("query"), Vec::<u128>::new());
}

#[test]
fn db_one_bucket_per_day() {
    let mut db = Db::new(".".to_string());
    db.add(bucket_at(DAY_1, &[(1, &[1])])).expect("add");
    db.add(bucket_at(DAY_1 + 60, &[(1, &[2])])).expect("add");
    assert_eq!(db.len(), 1);
    assert_eq!(db.query(1, (2021, 1, 1), (2021, 1, 1)).expect("query"), vec![2]);
}

#[test]
fn db_rejects_undatable_bucket() {
    let mut db = Db::new(".".to_string());
    let result = db.add(bucket_at(i64::MAX, &[(1, &[1])]));
    assert!(matches!(result, Err(binstore::error::Error::DateParseError)));
    assert_eq!(db.len(), 0);
}

#[test]
fn db_file_on_given_day() {
    let mut db = Db::new(".".to_string());
    db.file_on_day((2020, 2, 29), bucket_at(DAY_5, &[(4, &[40])]));
    db.file_on_day((2020, 2, 28), bucket_at(DAY_1, &[(4, &[41])]));
    db.file_on_day((2020, 2, 29), bucket_at(DAY_2, &[(4, &[42])]));
    assert_eq!(db.len(), 2);
    assert_eq!(db.query(4, (2020, 1, 1), (2020, 12, 31)).expect("query"), vec![41, 42]);
}
