use std::collections::{BTreeMap, BTreeSet};

use binstore::bucket::{Bucket, Checked};
use binstore::delete::{delete, delete_with_timestamp};
use binstore::error::Error;
use binstore::format::{BucketHeader, IndexEntry};
use binstore::frame::{compress, decompress};
use binstore::merge::{merge, merge_with_timestamp};
use binstore::prelude::{COMPRESSION_LEVEL, HEADER_SIZE, INDEX_ENTRY_SIZE, MAGIC, VERSION};
use binstore::sparse::SparseIndex;
use binstore::writer::{create, create_with_timestamp};

fn header_bytes(h: &BucketHeader) -> Vec<u8> {
    let mut v = Vec::new();
    h.encode(&mut v);
    v
}

fn checked(bytes: Vec<u8>) -> Bucket<Checked> {
    Bucket::open(bytes).check_headers().expect("check_headers")
}

fn range_set(n: u128) -> BTreeSet<u128> {
    (0..n).collect()
}

fn ranges(keys: impl Iterator<Item = u64>) -> BTreeMap<u64, BTreeSet<u128>> {
    keys.map(|k| (k, range_set(k as u128))).collect()
}

fn keys_set(keys: impl Iterator<Item = u64>) -> BTreeSet<u64> {
    keys.collect()
}

#[test]
fn test_header() {
    // Correct magic and version
    {
        let bytes = header_bytes(&BucketHeader::default());
        let bucket = Bucket::open(bytes);
        assert!(bucket.check_headers().is_ok());
    }

    // Incorrect magic
    {
        let header = BucketHeader { magic: MAGIC + 1, ..BucketHeader::default() };
        let bucket = Bucket::open(header_bytes(&header));
        assert!(match bucket.check_headers() {
            Err(Error::BadMagic) => true,
            _ => false,
        });
    }

    // Incorrect version
    {
        let header = BucketHeader { version: VERSION + 1, ..BucketHeader::default() };
        let bucket = Bucket::open(header_bytes(&header));
        assert!(match bucket.check_headers() {
            Err(Error::BadVersion) => true,
            _ => false,
        });
    }

    // Incorrect magic and version
    {
        let header = BucketHeader { magic: MAGIC + 1, version: VERSION + 1, ..BucketHeader::default() };
        let bucket = Bucket::open(header_bytes(&header));
        assert!(match bucket.check_headers() {
            Err(Error::BadMagic) => true,
            Err(Error::BadVersion) => true,
            _ => false,
        });
    }

    // Invalid header (no bytes)
    {
        let bucket = Bucket::open(Vec::new());
        assert!(bucket.check_headers().is_err());
    }

    // Invalid header (just magic)
    {
        let bytes = MAGIC.to_le_bytes().to_vec();
        let bucket = Bucket::open(bytes);
        assert!(bucket.check_headers().is_err());
    }

    // Invalid header (magic + version)
    {
        let mut bytes = MAGIC.to_le_bytes().to_vec();
        bytes.extend_from_slice(&VERSION.to_le_bytes());
        let bucket = Bucket::open(bytes);
        assert!(bucket.check_headers().is_err());
    }

    // Invalid header (magic + version + 32-bit time)
    {
        let mut bytes = MAGIC.to_le_bytes().to_vec();
        bytes.extend_from_slice(&VERSION.to_le_bytes());
        bytes.extend_from_slice(&0_i32.to_le_bytes());
        let bucket = Bucket::open(bytes);
        assert!(bucket.check_headers().is_err());
    }
}

#[test]
fn sparse_index_get() {
    {
        let si = SparseIndex::default();
        assert!(si.try_get(0).is_none());
    }

    {
        let mut si = SparseIndex::default();
        si.index = vec![IndexEntry { key: 1, offset: 1 }];
        assert!(si.try_get(0).is_none());
    }

    {
        let mut si = SparseIndex::default();
        si.index = vec![IndexEntry { key: 1, offset: 1 }, IndexEntry { key: 4, offset: 4 }];
        assert!(matches!(si.try_get(0), None));
        assert!(matches!(si.try_get(8), None));
        assert!(matches!(si.try_get(1), Some((1, 1))));
        assert!(matches!(si.try_get(4), Some((4, 4))));
        assert!(matches!(si.try_get(3), Some((1, 4))));
    }
}

#[test]
fn bucketheader_size() {
    assert_eq!(HEADER_SIZE, header_bytes(&BucketHeader::default()).len());
}

#[test]
fn header_fields_little_endian() {
    let header = BucketHeader {
        magic: MAGIC,
        version: VERSION,
        timestamp: -2,
        si_base_offset: 48,
        di_base_offset: 0x0102,
        data_base_offset: 7,
        num_entries: 1,
    };
    let bytes = header_bytes(&header);
    assert_eq!(&bytes[0..4], &[0x4a, 0x4e, 0x4e, 0x59]);
    assert_eq!(&bytes[4..8], &[0, 0, 0, 0]);
    assert_eq!(&bytes[8..16], &[0xfe, 0xff, 0xff, 0xff, 0xff, 0xff, 0xff, 0xff]);
    assert_eq!(&bytes[24..26], &[0x02, 0x01]);
    assert_eq!(BucketHeader::decode(&bytes), Some(header));
}

#[test]
fn default_header_is_stamped_now() {
    let header = BucketHeader::default();
    assert_eq!(header.magic, MAGIC);
    assert_eq!(header.version, VERSION);
    assert!(header.timestamp > 1_500_000_000);
}

#[test]
fn create_si_zero() {
    for step in 1..100 {
        let si = SparseIndex::new_with_step(step, &BTreeSet::new());
        assert!(si.index.is_empty());
        assert_eq!(si.step, step);
    }
}

#[test]
fn create_si_one() {
    for step in 1..100 {
        let si = SparseIndex::new_with_step(step, &keys_set(1..2));
        assert_eq!(si.index.len(), 2);
        assert_eq!(si.index[0].key, si.index[1].key);
        assert_eq!(si.index[0].offset, si.index[1].offset);
        assert_eq!(si.index[0].offset, 0);
    }
}

#[test]
fn create_si_two_and_more() {
    for len in [2_u64, 3, 7, 16, 100, 257, 999] {
        for step in [1_usize, 2, 3, 5, 16, 99] {
            let si = SparseIndex::new_with_step(step, &keys_set(0..len));
            assert!(si.index.len() >= 2);
            assert_eq!(si.index[0].key, 0);
            assert_eq!(si.index[si.index.len() - 1].key, len - 1);
            for i in 0..si.index.len() - 1 {
                assert!(si.index[i].key < si.index[i + 1].key);
                assert!(si.index[i].offset < si.index[i + 1].offset);
                assert_eq!(si.index[i].offset, (i * si.step * INDEX_ENTRY_SIZE) as u64);
            }
        }
    }
}

#[test]
fn sparse_index_exact_samples() {
    let si = SparseIndex::new_with_step(3, &keys_set([10_u64, 20, 30, 40, 50].into_iter()));
    let expected = vec![
        IndexEntry { key: 10, offset: 0 },
        IndexEntry { key: 40, offset: 48 },
        IndexEntry { key: 50, offset: 64 },
    ];
    assert_eq!(si.index, expected);
    let si = SparseIndex::new_with_step(2, &keys_set([10_u64, 20, 30].into_iter()));
    let expected = vec![IndexEntry { key: 10, offset: 0 }, IndexEntry { key: 30, offset: 32 }];
    assert_eq!(si.index, expected);
    assert_eq!(si.size(), 16 + 16 * 2);
    let default = SparseIndex::new(&keys_set(0..600));
    assert_eq!(default.step, 256);
    assert_eq!(default.index.len(), 4);
    assert_eq!(default.index[1], IndexEntry { key: 256, offset: 256 * 16 });
    assert_eq!(default.index[3], IndexEntry { key: 599, offset: 599 * 16 });
}

#[test]
fn try_get_all_present() {
    for len in [0_u64, 1, 2, 10, 300, 999] {
        for step in [1_usize, 2, 7, 256, 1999] {
            let si = SparseIndex::new_with_step(step, &keys_set(0..len));
            for key in 0..len {
                let (lo, hi) = si.try_get(key).expect("bracket");
                assert!(lo <= key * 16 && key * 16 <= hi);
            }
            assert!(si.try_get(len).is_none());
        }
    }
}

#[test]
fn try_get_some_present() {
    for len in [0_u64, 1, 5, 100, 999] {
        for step in [1_usize, 3, 64, 1999] {
            let keys: BTreeSet<u64> = (0..len).step_by(3).collect();
            let max = keys.iter().max().copied().unwrap_or(0);
            let si = SparseIndex::new_with_step(step, &keys);
            for key in 0..max {
                assert!(si.try_get(key).is_some());
            }
        }
    }
}

#[test]
fn sparse_index_round_trip() {
    let si = SparseIndex::new_with_step(4, &keys_set(0..10));
    let mut bytes = Vec::new();
    si.encode(&mut bytes);
    assert_eq!(bytes.len() as u64, si.size());
    assert_eq!(&bytes[0..8], &4_u64.to_le_bytes());
    assert_eq!(&bytes[8..16], &(si.index.len() as u64).to_le_bytes());
    let back = SparseIndex::decode(&bytes, 0).expect("decode");
    assert_eq!(back.step, 4);
    assert_eq!(back.index, si.index);
    assert!(SparseIndex::decode(&bytes[..bytes.len() - 1], 0).is_none());
}

#[test]
fn empty_bucket() {
    let bytes = create(&BTreeMap::new()).expect("create");
    let bucket = checked(bytes);
    assert_eq!(bucket.header().num_entries, 0);
    let si = bucket.read_sparse_index().expect("sparse index");
    assert!(si.index.is_empty());
    assert!(si.try_get(0).is_none());
    assert!(bucket.get(0).expect("get").is_none());
}

#[test]
fn single_entry() {
    let mut m = BTreeMap::new();
    m.insert(42_u64, [100_u128, 200].into_iter().collect::<BTreeSet<u128>>());
    let bucket = checked(create(&m).expect("create"));
    assert_eq!(bucket.get(42).expect("get"), Some([100_u128, 200].into_iter().collect()));
    assert_eq!(bucket.get(41).expect("get"), None);
    assert_eq!(bucket.get(43).expect("get"), None);
    let si = bucket.read_sparse_index().expect("sparse index");
    assert_eq!(si.index.len(), 2);
    assert_eq!(si.index[0].key, 42);
    assert_eq!(si.index[1].key, 42);
}

#[test]
fn dense_range() {
    let m = ranges(0..100);
    let bucket = checked(create(&m).expect("create"));
    for (k, values) in &m {
        assert_eq!(bucket.get(*k).expect("get").as_ref(), Some(values));
    }
    assert_eq!(bucket.get(101).expect("get"), None);
}

#[test]
fn sparse_range_with_gaps() {
    let m = ranges((0..50).step_by(7));
    let bucket = checked(create(&m).expect("create"));
    for k in 0..60_u64 {
        let got = bucket.get(k).expect("get");
        assert_eq!(got.as_ref(), m.get(&k));
    }
}

#[test]
fn create_bucket_with_gaps() {
    for step in [1_usize, 3, 10] {
        let m = ranges((0..50).step_by(step));
        let max = *m.keys().max().unwrap();
        let bucket = checked(create(&m).expect("create"));
        let si = bucket.read_sparse_index().expect("sparse index");
        for (key, values) in &m {
            let (lo, hi) = si.try_get(*key).expect("try_get (1)");
            let got = bucket.try_get(*key, lo, hi).expect("try_get (1)").expect("try_get (2)");
            assert_eq!(&got, values);
        }
        for key in 0..max {
            if m.contains_key(&key) {
                continue;
            }
            let (lo, hi) = si.try_get(key).expect("try_get (2)");
            assert!(bucket.try_get(key, lo, hi).expect("try_get (1)").is_none());
        }
    }
}

#[test]
fn create_bucket_all() {
    for len in [0_u64, 1, 2, 49] {
        let m = ranges(0..len);
        let bucket = checked(create(&m).expect("create"));
        let si = bucket.read_sparse_index().expect("sparse index");
        for (key, values) in &m {
            let (lo, hi) = si.try_get(*key).expect("try_get");
            assert_eq!(&bucket.try_get(*key, lo, hi).expect("try_get (1)").expect("try_get (2)"), values);
        }
        for key in len..2 * len {
            assert!(si.try_get(key).is_none());
        }
    }
}

#[test]
fn bucket_layout() {
    let m = ranges(1..4);
    let bytes = create_with_timestamp(&m, 1234).expect("create");
    let header = BucketHeader::decode(&bytes).expect("header");
    assert_eq!(header.timestamp, 1234);
    assert_eq!(header.si_base_offset, 48);
    assert_eq!(header.di_base_offset, 48 + 16 + 2 * 16);
    assert_eq!(header.data_base_offset, header.di_base_offset + 3 * 16);
    assert_eq!(header.num_entries, 3);
    let first = IndexEntry::decode(&bytes, header.di_base_offset as usize).expect("record");
    assert_eq!(first, IndexEntry { key: 1, offset: 0 });
    let second = IndexEntry::decode(&bytes, header.di_base_offset as usize + 16).expect("record");
    assert_eq!(second.key, 2);
    assert!(second.offset > 0);
    // The same input builds the same bytes.
    assert_eq!(create_with_timestamp(&m, 1234).expect("create"), bytes);
}

#[test]
fn merge_non_overlapping() {
    let m1 = ranges(0..100);
    let m2 = ranges(200..300);
    let b1 = create(&m1).expect("create");
    let b2 = create(&m2).expect("create");
    let merged = checked(merge(b1, b2).expect("merge"));
    assert_eq!(merged.header().num_entries, 200);
    for (k, values) in m1.iter().chain(m2.iter()) {
        assert_eq!(merged.get(*k).expect("get").as_ref(), Some(values));
    }
    assert_eq!(merged.get(150).expect("get"), None);
    assert_eq!(merged.get(300).expect("get"), None);
}

#[test]
fn merge_overlapping() {
    let m1 = ranges(0..50);
    let m2 = ranges(0..50);
    let merged = checked(merge(create(&m1).unwrap(), create(&m2).unwrap()).expect("merge"));
    assert_eq!(merged.header().num_entries, 50);
    for (k, values) in &m1 {
        assert_eq!(merged.get(*k).expect("get").as_ref(), Some(values));
    }
}

#[test]
fn merge_all() {
    for (len_1, len_2) in [(0_u64, 0_u64), (0, 7), (7, 0), (13, 40), (49, 3)] {
        let m1 = ranges(0..len_1);
        let mut m2: BTreeMap<u64, BTreeSet<u128>> =
            (0..len_2).map(|k| (k, (k as u128..2 * k as u128 + 1).collect())).collect();
        let merged = checked(merge(create(&m1).unwrap(), create(&m2).unwrap()).expect("merge"));
        for (key, values) in m1.iter() {
            let set = m2.entry(*key).or_insert(BTreeSet::new());
            let union: BTreeSet<u128> = set.union(values).cloned().collect();
            m2.insert(*key, union);
        }
        let si = merged.read_sparse_index().expect("read_sparse_index");
        for (key, values) in m2.iter() {
            let (lo, hi) = si.try_get(*key).expect("try_get");
            let got = merged.try_get(*key, lo, hi).expect("try_get");
            assert_eq!(*values, got.expect("try_get"));
        }
        assert_eq!(merged.header().num_entries, m2.len() as u64);
    }
}

#[test]
fn merge_symmetric() {
    let m1 = ranges((0..40).step_by(3));
    let m2 = ranges((0..40).step_by(4));
    let ab = checked(merge(create(&m1).unwrap(), create(&m2).unwrap()).expect("merge"));
    let ba = checked(merge(create(&m2).unwrap(), create(&m1).unwrap()).expect("merge"));
    for k in 0..45 {
        assert_eq!(ab.get(k).expect("get"), ba.get(k).expect("get"));
    }
    assert_eq!(ab.read_entries().expect("entries"), ba.read_entries().expect("entries"));
}

#[test]
fn merge_unites_value_sets() {
    let mut m1 = BTreeMap::new();
    m1.insert(5_u64, [1_u128, 2].into_iter().collect::<BTreeSet<u128>>());
    let mut m2 = BTreeMap::new();
    m2.insert(5_u64, [2_u128, 3].into_iter().collect::<BTreeSet<u128>>());
    m2.insert(9_u64, [u128::MAX].into_iter().collect::<BTreeSet<u128>>());
    let merged = checked(merge(create(&m1).unwrap(), create(&m2).unwrap()).expect("merge"));
    assert_eq!(merged.get(5).unwrap(), Some([1_u128, 2, 3].into_iter().collect()));
    assert_eq!(merged.get(9).unwrap(), Some([u128::MAX].into_iter().collect()));
    let entries = merged.read_entries().unwrap();
    assert_eq!(entries.len(), 2);
    assert_eq!(entries[0].0, 5);
    assert_eq!(entries[1].0, 9);
}

#[test]
fn merge_rejects_bad_input() {
    let good = create(&ranges(0..3)).unwrap();
    let mut bad = good.clone();
    bad[0] ^= 1;
    assert!(matches!(merge(good.clone(), bad), Err(Error::BadMagic)));
    let mut short = good.clone();
    short.truncate(HEADER_SIZE + 20);
    assert!(matches!(merge(good, short), Err(Error::DecodeError)));
}

#[test]
fn delete_scenario() {
    let m = ranges(0..20);
    let removed = [0_u128, 1, 5];
    let out = checked(delete(create(&m).unwrap(), &removed).expect("delete"));
    for (k, values) in &m {
        let expected: BTreeSet<u128> = values.iter().copied().filter(|v| !removed.contains(v)).collect();
        let got = out.get(*k).expect("get");
        if expected.is_empty() {
            assert_eq!(got, None);
        } else {
            assert_eq!(got, Some(expected));
        }
    }
    assert_eq!(out.get(0).unwrap(), None);
    assert_eq!(out.get(1).unwrap(), None);
    assert_eq!(out.get(2).unwrap(), None);
    assert_eq!(out.get(6).unwrap(), Some([2_u128, 3, 4].into_iter().collect()));
    assert_eq!(out.header().num_entries, 17);
}

#[test]
fn delete_some() {
    for len in [0_u64, 1, 10, 49] {
        let m = ranges(0..len);
        let removed: Vec<u128> = (0..len as u128).filter(|v| v % 3 == 1).collect();
        let out = checked(delete(create(&m).unwrap(), &removed).expect("delete"));
        let si = out.read_sparse_index().expect("sparse index");
        for (key, values) in &m {
            let expected: BTreeSet<u128> = values.iter().copied().filter(|v| !removed.contains(v)).collect();
            if expected.is_empty() {
                assert_eq!(out.get(*key).unwrap(), None);
            } else {
                let (lo, hi) = si.try_get(*key).expect("try_get");
                assert_eq!(out.try_get(*key, lo, hi).expect("try_get").unwrap(), expected);
            }
        }
    }
}

#[test]
fn delete_nothing_keeps_contents() {
    let m = ranges(1..30);
    let original = checked(create(&m).unwrap());
    let out = checked(delete(create(&m).unwrap(), &[]).expect("delete"));
    assert_eq!(original.read_entries().unwrap(), out.read_entries().unwrap());
    for k in 0..32 {
        assert_eq!(original.get(k).unwrap(), out.get(k).unwrap());
    }
}

#[test]
fn corrupt_buckets_are_decode_errors() {
    let bytes = create(&ranges(1..10)).unwrap();
    // Sparse index cut short.
    let bucket = checked(bytes[..HEADER_SIZE + 10].to_vec());
    assert!(matches!(bucket.read_sparse_index(), Err(Error::DecodeError)));
    assert!(matches!(bucket.get(3), Err(Error::DecodeError)));
    // Dense index past the end of the file.
    let mut header = BucketHeader::decode(&bytes).unwrap();
    header.num_entries = 1000;
    let mut broken = header_bytes(&header);
    broken.extend_from_slice(&bytes[HEADER_SIZE..]);
    assert!(matches!(checked(broken.clone()).read_entries(), Err(Error::DecodeError)));
    assert!(matches!(delete(broken, &[1]), Err(Error::DecodeError)));
    // A scan that runs off the end of the file.
    let bucket = checked(bytes.clone());
    assert!(matches!(bucket.try_get(3, 1 << 40, 1 << 40), Err(Error::DecodeError)));
    // A blob offset past the end of the file.
    let mut header = BucketHeader::decode(&bytes).unwrap();
    header.data_base_offset = 1 << 40;
    let mut far = header_bytes(&header);
    far.extend_from_slice(&bytes[HEADER_SIZE..]);
    let bucket = checked(far);
    let si = bucket.read_sparse_index().unwrap();
    let (lo, hi) = si.try_get(1).unwrap();
    assert!(matches!(bucket.try_get(1, lo, hi), Err(Error::DecodeError)));
}

#[test]
fn descending_sparse_index_is_rejected() {
    let mut bytes = header_bytes(&BucketHeader::default());
    let si = SparseIndex { step: 1, index: vec![IndexEntry { key: 9, offset: 0 }, IndexEntry { key: 3, offset: 16 }] };
    si.encode(&mut bytes);
    assert!(matches!(checked(bytes).read_sparse_index(), Err(Error::DecodeError)));
}

#[test]
fn frames_round_trip() {
    let raw: Vec<u8> = (0..200_u32).map(|i| (i % 7) as u8).collect();
    let framed = compress(COMPRESSION_LEVEL, &raw).expect("compress");
    assert_ne!(framed, raw);
    assert_eq!(&framed[0..4], &[0x04, 0x22, 0x4d, 0x18]);
    let mut with_tail = framed.clone();
    with_tail.extend_from_slice(&[1, 2, 3]);
    assert_eq!(decompress(&with_tail).expect("decompress"), raw);
}

#[test]
fn value_blob_encoding() {
    let vs = vec![1_u128, 1 << 100];
    let raw = binstore::codec::encode_values(&vs);
    assert_eq!(raw.len(), 8 + 32);
    assert_eq!(&raw[0..8], &2_u64.to_le_bytes());
    assert_eq!(&raw[8..24], &1_u128.to_le_bytes());
    let back = binstore::codec::decode_values(&raw).expect("decode");
    assert_eq!(back, vs.iter().copied().collect::<BTreeSet<u128>>());
    assert!(binstore::codec::decode_values(&raw[..30]).is_none());
}

#[test]
fn merge_symmetric_bytes() {
    let m1 = ranges((0..40).step_by(3));
    let m2 = ranges((1..40).step_by(4));
    let a = create_with_timestamp(&m1, 5).unwrap();
    let b = create_with_timestamp(&m2, 6).unwrap();
    let ab = merge_with_timestamp(a.clone(), b.clone(), 77).expect("merge");
    let ba = merge_with_timestamp(b, a, 77).expect("merge");
    assert_eq!(ab, ba);
    assert_eq!(BucketHeader::decode(&ab).unwrap().timestamp, 77);
}

#[test]
fn delete_with_stamp() {
    let m = ranges(0..6);
    let out = delete_with_timestamp(create(&m).unwrap(), &[0, 1], 99).expect("delete");
    assert_eq!(BucketHeader::decode(&out).unwrap().timestamp, 99);
    let expected: BTreeMap<u64, BTreeSet<u128>> =
        (3..6).map(|k| (k, (2..k as u128).collect())).collect();
    assert_eq!(out, create_with_timestamp(&expected, 99).unwrap());
}
