//! Reading a bucket: header validation, the sparse index, and key lookup.
use std::collections::BTreeSet;
use std::marker::PhantomData;
use vstd::prelude::*;
use vstd::slice::slice_subrange;

use crate::codec::{decode_value_set, decode_values};
use crate::error::{Error, Result};
use crate::format::{entry_at, header_of, records_ascending, BucketHeader, IndexEntry};
use crate::frame::{decompress, holds_frame, lz4_unframe};
use crate::prelude::{HashedKey, Value, HEADER_SIZE, MAGIC, VERSION};
use crate::sparse::{bracket, samples_sorted, sparse_at, SparseIndex};

verus! {

/// State of a `Bucket` whose header has not been checked yet.
pub struct Initial;

/// State of a `Bucket` whose header has been checked and accepted.
pub struct Checked;

/// A bucket file, held as its bytes. The state parameter records whether
/// the header has been checked: only a `Bucket<Checked>` can be queried.
pub struct Bucket<T> {
    phantom: PhantomData<T>,
    header: BucketHeader,
    file: Vec<u8>,
}

impl<T> Bucket<T> {
    /// The bytes of the file.
    pub closed spec fn bytes(&self) -> Seq<u8> {
        self.file@
    }

    /// The header as it was decoded.
    pub closed spec fn head(&self) -> BucketHeader {
        self.header
    }

    /// The header as it was decoded; a placeholder before it is checked.
    pub fn header(&self) -> (r: &BucketHeader)
        ensures
            *r == self.head(),
    {
        &self.header
    }

    /// The bytes of the file.
    pub fn file(&self) -> (r: &[u8])
        ensures
            r@ == self.bytes(),
    {
        self.file.as_slice()
    }
}

/// The dense-index scan for `key` from the record at `cur` on: the data
/// offset of the first record with that key, `Some(None)` once the next
/// record would start past `last`, `None` when a record runs past the end
/// of the file.
pub open spec fn scan(b: Seq<u8>, key: HashedKey, cur: int, last: int) -> Option<Option<u64>>
    decreases b.len() - cur,
{
    if cur < 0 || cur + 16 > b.len() {
        None
    } else if entry_at(b, cur).key == key {
        Some(Some(entry_at(b, cur).offset))
    } else if cur + 16 > last {
        Some(None)
    } else {
        scan(b, key, cur + 16, last)
    }
}

/// What a lookup returns once the scan has found `key`'s blob at `at`:
/// the value set that the frame there holds. Where the frame was not
/// written by the encoder, the decoder's output is decoded all the same,
/// and a decoder failure is an I/O error.
pub open spec fn blob_result(b: Seq<u8>, at: int, r: Result<Option<BTreeSet<u128>>>) -> bool {
    if at > b.len() {
        r matches Err(Error::DecodeError)
    } else {
        let s = b.subrange(at, b.len() as int);
        &&& (r matches Ok(v) ==> v matches Some(set) && decode_value_set(lz4_unframe(s)) == Some(set@))
        &&& (r matches Err(e) ==> e is IoError || e is DecodeError)
        &&& forall|level: u32, raw: Seq<u8>|
            holds_frame(s, level, raw) ==> match decode_value_set(raw) {
                Some(set) => r matches Ok(Some(v)) && v@ == set,
                None => r matches Err(Error::DecodeError),
            }
    }
}

/// What a lookup of `key` in the dense-index slice `[lo, hi]` returns.
pub open spec fn lookup_result(
    b: Seq<u8>,
    h: BucketHeader,
    key: HashedKey,
    lo: u64,
    hi: u64,
    r: Result<Option<BTreeSet<u128>>>,
) -> bool {
    match scan(b, key, h.di_base_offset + lo, h.di_base_offset + hi) {
        None => r matches Err(Error::DecodeError),
        Some(None) => r matches Ok(None),
        Some(Some(off)) => blob_result(b, h.data_base_offset + off, r),
    }
}

/// What a lookup of `key` through the stored sparse index returns.
pub open spec fn get_result(b: Seq<u8>, h: BucketHeader, key: HashedKey, r: Result<Option<BTreeSet<u128>>>) -> bool {
    match sparse_at(b, HEADER_SIZE as int) {
        None => r matches Err(Error::DecodeError),
        Some((step, idx)) => if step > usize::MAX || !samples_sorted(idx) {
            r matches Err(Error::DecodeError)
        } else {
            match bracket(idx, key) {
                None => r matches Ok(None),
                Some((lo, hi)) => lookup_result(b, h, key, lo, hi, r),
            }
        },
    }
}

/// The entries of a bucket with their value sets, in the order of its dense index.
pub type SetListing = Seq<(HashedKey, Set<Value>)>;

/// The listing that a vector of entries with `BTreeSet`s holds.
pub open spec fn set_listing_of(v: Seq<(HashedKey, BTreeSet<Value>)>) -> SetListing {
    v.map_values(|e: (HashedKey, BTreeSet<Value>)| (e.0, e.1@))
}

/// The dense index of a bucket: `num_entries` records from `di_base_offset`
/// on. `None` unless the records lie in the file, end where the data section
/// starts, and have ascending keys.
pub open spec fn dense_at(b: Seq<u8>, h: BucketHeader) -> Option<Seq<IndexEntry>> {
    let d = Seq::new(h.num_entries as nat, |i: int| entry_at(b, h.di_base_offset + 16 * i));
    if h.di_base_offset + 16 * h.num_entries > b.len() || h.data_base_offset != h.di_base_offset + 16 * h.num_entries
        || !records_ascending(d) {
        None
    } else {
        Some(d)
    }
}

/// The value set that the decoder reads from the blob at `at`.
pub open spec fn blob_set(b: Seq<u8>, at: int) -> Option<Set<Value>> {
    if at > b.len() {
        None
    } else {
        decode_value_set(lz4_unframe(b.subrange(at, b.len() as int)))
    }
}

/// The blob at `at` is a frame that the encoder wrote, of a stored value set `set`.
pub open spec fn blob_holds(b: Seq<u8>, at: int, set: Set<Value>) -> bool {
    &&& 0 <= at <= b.len()
    &&& exists|level: u32, raw: Seq<u8>|
        holds_frame(b.subrange(at, b.len() as int), level, raw) && decode_value_set(raw) == Some(set)
}

/// The entries of a bucket as the decoder reads them, or `None` when its
/// dense index or one of its blobs cannot be read.
pub open spec fn contents(b: Seq<u8>, h: BucketHeader) -> Option<SetListing> {
    match dense_at(b, h) {
        None => None,
        Some(d) => if forall|i: int| 0 <= i < d.len() ==> (#[trigger] blob_set(b, h.data_base_offset + d[i].offset)) is Some {
            Some(Seq::new(d.len(), |i: int| (d[i].key, blob_set(b, h.data_base_offset + d[i].offset)->Some_0)))
        } else {
            None
        },
    }
}

/// The bucket's dense index is well formed and lists the keys of `sl`, and
/// each blob is a frame that the encoder wrote of the values `sl` gives.
pub open spec fn contents_framed(b: Seq<u8>, h: BucketHeader, sl: SetListing) -> bool {
    &&& dense_at(b, h) is Some
    &&& dense_at(b, h)->Some_0.len() == sl.len()
    &&& forall|i: int| 0 <= i < sl.len() ==> {
        &&& (#[trigger] dense_at(b, h)->Some_0[i]).key == sl[i].0
        &&& blob_holds(b, h.data_base_offset + dense_at(b, h)->Some_0[i].offset, sl[i].1)
    }
}

impl Bucket<Initial> {
    /// Takes the bytes of a bucket file. Nothing is read yet.
    pub fn open(file: Vec<u8>) -> (r: Bucket<Initial>)
        ensures
            r.bytes() == file@,
    {
        Bucket { phantom: PhantomData, header: BucketHeader::with_timestamp(0), file }
    }

    /// Decodes and validates the header: a file shorter than a header is a
    /// decode error, then the magic number and the version must match.
    pub fn check_headers(self) -> (r: Result<Bucket<Checked>>)
        ensures
            self.bytes().len() < HEADER_SIZE ==> r matches Err(Error::DecodeError),
            self.bytes().len() >= HEADER_SIZE ==> {
                let h = header_of(self.bytes());
                if h.magic != MAGIC {
                    r matches Err(Error::BadMagic)
                } else if h.version != VERSION {
                    r matches Err(Error::BadVersion)
                } else {
                    r matches Ok(b) && b.head() == h && b.bytes() == self.bytes()
                }
            },
    {
        let header = match BucketHeader::decode(self.file.as_slice()) {
            Some(h) => h,
            None => return Err(Error::DecodeError),
        };
        if header.magic != MAGIC {
            return Err(Error::BadMagic);
        }
        if header.version != VERSION {
            return Err(Error::BadVersion);
        }
        Ok(Bucket { phantom: PhantomData, header, file: self.file })
    }
}

impl Bucket<Checked> {
    /// Decodes the sparse index that follows the header. A sample list whose
    /// keys decrease somewhere is a decode error.
    pub fn read_sparse_index(&self) -> (r: Result<SparseIndex>)
        ensures
            match sparse_at(self.bytes(), HEADER_SIZE as int) {
                None => r matches Err(Error::DecodeError),
                Some((step, idx)) => if step > usize::MAX || !samples_sorted(idx) {
                    r matches Err(Error::DecodeError)
                } else {
                    r matches Ok(si) && si.step == step && si.index@ == idx
                },
            },
    {
        let si = match SparseIndex::decode(self.file.as_slice(), HEADER_SIZE) {
            Some(si) => si,
            None => return Err(Error::DecodeError),
        };
        assert(sparse_at(self.bytes(), HEADER_SIZE as int) == Some((si.step as u64, si.index@)));
        let mut i: usize = 1;
        while i < si.index.len()
            invariant
                sparse_at(self.bytes(), HEADER_SIZE as int) == Some((si.step as u64, si.index@)),
                1 <= i,
                i <= si.index@.len() || si.index@.len() == 0,
                forall|a: int, c: int| 0 <= a < c < i && c < si.index@.len() ==> si.index@[a].key <= si.index@[c].key,
            decreases si.index@.len() - i,
        {
            if si.index[i - 1].key > si.index[i].key {
                assert(!(si.index@[i - 1].key <= si.index@[i as int].key));
                assert(!samples_sorted(si.index@));
                return Err(Error::DecodeError);
            }
            i = i + 1;
        }
        Ok(si)
    }

    /// Scans the dense index from `lo` to `hi` (offsets into the dense
    /// index) for `key` and returns its blob's offset in the data section.
    fn locate(&self, key: HashedKey, lo: u64, hi: u64) -> (r: Result<Option<u64>>)
        ensures
            match scan(self.bytes(), key, self.head().di_base_offset + lo, self.head().di_base_offset + hi) {
                None => r matches Err(Error::DecodeError),
                Some(o) => r matches Ok(v) && v == o,
            },
    {
        let len = self.file.len();
        let mut cur: u128 = lo as u128 + self.header.di_base_offset as u128;
        let last: u128 = hi as u128 + self.header.di_base_offset as u128;
        loop
            invariant
                len == self.file@.len(),
                cur <= 2 * (u64::MAX as int),
                last == self.header.di_base_offset + hi,
                scan(self.file@, key, self.header.di_base_offset + lo, self.header.di_base_offset + hi)
                    == scan(self.file@, key, cur as int, last as int),
            decreases len - cur,
        {
            if cur + 16 > len as u128 {
                return Err(Error::DecodeError);
            }
            let e = IndexEntry::decode(self.file.as_slice(), cur as usize).unwrap();
            if e.key == key {
                return Ok(Some(e.offset));
            }
            if cur + 16 > last {
                return Ok(None);
            }
            cur = cur + 16;
        }
    }

    /// Looks `key` up in the slice `[lo, hi]` of the dense index, as the
    /// sparse index gave it, and reads its value set.
    pub fn try_get(&self, key: HashedKey, lo: u64, hi: u64) -> (r: Result<Option<BTreeSet<u128>>>)
        ensures
            lookup_result(self.bytes(), self.head(), key, lo, hi, r),
    {
        let off = match self.locate(key, lo, hi) {
            Ok(Some(off)) => off,
            Ok(None) => return Ok(None),
            Err(e) => return Err(e),
        };
        let at: u128 = self.header.data_base_offset as u128 + off as u128;
        if at > self.file.len() as u128 {
            return Err(Error::DecodeError);
        }
        let blob = slice_subrange(self.file.as_slice(), at as usize, self.file.len());
        let raw = match decompress(blob) {
            Ok(raw) => raw,
            Err(e) => return Err(e),
        };
        match decode_values(raw.as_slice()) {
            Some(set) => Ok(Some(set)),
            None => Err(Error::DecodeError),
        }
    }

    /// Looks `key` up through the sparse index stored in the file.
    pub fn get(&self, key: HashedKey) -> (r: Result<Option<BTreeSet<u128>>>)
        ensures
            get_result(self.bytes(), self.head(), key, r),
    {
        let si = match self.read_sparse_index() {
            Ok(si) => si,
            Err(e) => return Err(e),
        };
        match si.try_get(key) {
            None => Ok(None),
            Some((lo, hi)) => self.try_get(key, lo, hi),
        }
    }
}

impl Bucket<Checked> {
    /// Reads the dense index: `num_entries` records from `di_base_offset` on.
    /// Records that run past the end of the file, a data section that does
    /// not start where they end, or keys that do not ascend strictly are a
    /// decode error.
    pub fn read_dense_index(&self) -> (r: Result<Vec<IndexEntry>>)
        ensures
            match dense_at(self.bytes(), self.head()) {
                None => r matches Err(Error::DecodeError),
                Some(d) => r matches Ok(v) && v@ == d,
            },
    {
        let ghost b = self.file@;
        let ghost h = self.header;
        let len = self.file.len();
        let n = self.header.num_entries;
        let di = self.header.di_base_offset;
        if di as u128 + 16 * (n as u128) > len as u128
            || self.header.data_base_offset as u128 != di as u128 + 16 * (n as u128) {
            return Err(Error::DecodeError);
        }
        let ghost d = Seq::new(n as nat, |i: int| entry_at(b, di + 16 * i));
        let mut dense: Vec<IndexEntry> = Vec::new();
        let mut i: u64 = 0;
        while i < n
            invariant
                b == self.file@,
                h == self.header,
                n == h.num_entries,
                di == h.di_base_offset,
                len == b.len(),
                di + 16 * n <= len,
                d == Seq::new(n as nat, |i: int| entry_at(b, di + 16 * i)),
                i <= n,
                dense@ == d.take(i as int),
                forall|a: int, c: int| 0 <= a < c < i ==> d[a].key < d[c].key,
            decreases n - i,
        {
            let e = IndexEntry::decode(self.file.as_slice(), (di + 16 * i) as usize).unwrap();
            if i > 0 && dense[dense.len() - 1].key >= e.key {
                assert(!(d[i - 1].key < d[i as int].key));
                assert(!records_ascending(d));
                assert(dense_at(b, h) is None);
                return Err(Error::DecodeError);
            }
            dense.push(e);
            i = i + 1;
            assert(dense@ =~= d.take(i as int));
        }
        assert(dense@ =~= d);
        assert(dense_at(b, h) == Some(d));
        Ok(dense)
    }

    /// Reads every entry of the bucket, in the order of its dense index, with
    /// its value set.
    pub fn read_entries(&self) -> (r: Result<Vec<(HashedKey, BTreeSet<Value>)>>)
        ensures
            r matches Ok(v) ==> contents(self.bytes(), self.head()) == Some(set_listing_of(v@)),
            r matches Ok(v) ==> 16 * v@.len() <= self.bytes().len() <= usize::MAX,
            dense_at(self.bytes(), self.head()) is None ==> r matches Err(Error::DecodeError),
            r matches Err(e) ==> e is IoError || e is DecodeError,
            forall|sl: SetListing| #[trigger] contents_framed(self.bytes(), self.head(), sl)
                ==> (r matches Ok(v) && set_listing_of(v@) == sl),
    {
        let ghost b = self.file@;
        let ghost h = self.header;
        let len = self.file.len();
        let dense = match self.read_dense_index() {
            Ok(d) => d,
            Err(e) => return Err(e),
        };
        let ghost d = dense@;
        // The blobs.
        let data_base = self.header.data_base_offset;
        let mut out: Vec<(HashedKey, BTreeSet<Value>)> = Vec::new();
        let mut j: usize = 0;
        while j < dense.len()
            invariant
                b == self.file@,
                h == self.header,
                len == b.len(),
                data_base == h.data_base_offset,
                dense@ == d,
                dense_at(b, h) == Some(d),
                j <= d.len(),
                out@.len() == j,
                forall|t: int| 0 <= t < j ==> {
                    &&& (#[trigger] out@[t]).0 == d[t].key
                    &&& blob_set(b, data_base + d[t].offset) == Some(out@[t].1@)
                },
                forall|sl: SetListing| #[trigger] contents_framed(b, h, sl)
                    ==> forall|t: int| 0 <= t < j ==> (#[trigger] out@[t]).1@ == sl[t].1,
            decreases d.len() - j,
        {
            let e = dense[j];
            let at: u128 = data_base as u128 + e.offset as u128;
            if at > len as u128 {
                assert(blob_set(b, data_base + d[j as int].offset) is None);
                assert forall|sl: SetListing| !contents_framed(b, h, sl) by {
                    if contents_framed(b, h, sl) {
                        assert(blob_holds(b, data_base + d[j as int].offset, sl[j as int].1));
                    }
                }
                return Err(Error::DecodeError);
            }
            let blob = slice_subrange(self.file.as_slice(), at as usize, len);
            let raw = match decompress(blob) {
                Ok(raw) => raw,
                Err(err) => {
                    assert forall|sl: SetListing| !contents_framed(b, h, sl) by {
                        if contents_framed(b, h, sl) {
                            assert(blob_holds(b, data_base + d[j as int].offset, sl[j as int].1));
                            let (level, raw) = choose|level: u32, raw: Seq<u8>|
                                holds_frame(blob@, level, raw) && decode_value_set(raw) == Some(sl[j as int].1);
                        }
                    }
                    return Err(err);
                },
            };
            let set = match decode_values(raw.as_slice()) {
                Some(set) => set,
                None => {
                    assert forall|sl: SetListing| !contents_framed(b, h, sl) by {
                        if contents_framed(b, h, sl) {
                            assert(blob_holds(b, data_base + d[j as int].offset, sl[j as int].1));
                            let (level, raw) = choose|level: u32, raw: Seq<u8>|
                                holds_frame(blob@, level, raw) && decode_value_set(raw) == Some(sl[j as int].1);
                        }
                    }
                    return Err(Error::DecodeError);
                },
            };
            proof {
                assert forall|sl: SetListing| #[trigger] contents_framed(b, h, sl) implies set@ == sl[j as int].1 by {
                    assert(blob_holds(b, data_base + d[j as int].offset, sl[j as int].1));
                    let (level, raw) = choose|level: u32, raw: Seq<u8>|
                        holds_frame(blob@, level, raw) && decode_value_set(raw) == Some(sl[j as int].1);
                }
            }
            out.push((e.key, set));
            j = j + 1;
        }
        proof {
            assert forall|t: int| 0 <= t < d.len() implies (#[trigger] blob_set(b, h.data_base_offset + d[t].offset)) is Some by {
                assert(out@[t].0 == d[t].key);
            }
            assert(contents(b, h) == Some(set_listing_of(out@))) by {
                assert(set_listing_of(out@) =~= Seq::new(d.len(), |i: int| (d[i].key, blob_set(b, h.data_base_offset + d[i].offset)->Some_0)));
            }
            assert forall|sl: SetListing| #[trigger] contents_framed(b, h, sl) implies set_listing_of(out@) == sl by {
                assert(set_listing_of(out@) =~= sl);
            }
        }
        Ok(out)
    }
}

} // verus!
