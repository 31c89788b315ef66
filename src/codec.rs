//! Fixed-width little-endian integers and the encoding of value sets.
use std::collections::BTreeSet;
use vstd::bytes::*;
use vstd::prelude::*;
use vstd::slice::slice_subrange;
use vstd::std_specs::btree::increasing_seq;
use vstd::laws_cmp::obeys_cmp;
use vstd::std_specs::cmp::OrdSpec;
use vstd::std_specs::iter::IteratorSpec;

verus! {

broadcast use vstd::std_specs::btree::group_btree_axioms, vstd::laws_cmp::group_laws_cmp, vstd::seq_lib::group_seq_properties;

/// The `u32` stored little-endian at `pos`.
pub open spec fn u32_at(b: Seq<u8>, pos: int) -> u32 {
    spec_u32_from_le_bytes(b.subrange(pos, pos + 4))
}

/// The `u64` stored little-endian at `pos`.
pub open spec fn u64_at(b: Seq<u8>, pos: int) -> u64 {
    spec_u64_from_le_bytes(b.subrange(pos, pos + 8))
}

/// The `u128` stored little-endian at `pos`.
pub open spec fn u128_at(b: Seq<u8>, pos: int) -> u128 {
    spec_u128_from_le_bytes(b.subrange(pos, pos + 16))
}

/// The values of `vs`, sixteen little-endian bytes each, back to back.
pub open spec fn items_bytes(vs: Seq<u128>) -> Seq<u8>
    decreases vs.len(),
{
    if vs.len() == 0 {
        Seq::empty()
    } else {
        items_bytes(vs.drop_last()) + spec_u128_to_le_bytes(vs.last())
    }
}

/// A value sequence as it is stored before compression: its length as a
/// `u64`, then each value.
pub open spec fn values_bytes(vs: Seq<u128>) -> Seq<u8> {
    spec_u64_to_le_bytes(vs.len() as u64) + items_bytes(vs)
}

/// The `i`-th value of a stored value sequence.
pub open spec fn value_at(b: Seq<u8>, i: int) -> u128 {
    u128_at(b, 8 + 16 * i)
}

/// The value set that `b` starts with: a `u64` count and that many `u128`
/// values, in any order and possibly repeated. Bytes after them are ignored.
pub open spec fn decode_value_set(b: Seq<u8>) -> Option<Set<u128>> {
    if b.len() < 8 || b.len() < 8 + 16 * u64_at(b, 0) {
        None
    } else {
        Some(Set::new(|v: u128| exists|i: int| 0 <= i < u64_at(b, 0) && #[trigger] value_at(b, i) == v))
    }
}

/// Appends `src` to `out`.
pub fn append_bytes(out: &mut Vec<u8>, src: &[u8])
    ensures
        final(out)@ == old(out)@ + src@,
{
    let ghost start = out@;
    let mut i: usize = 0;
    while i < src.len()
        invariant
            i <= src@.len(),
            out@ == start + src@.subrange(0, i as int),
        decreases src@.len() - i,
    {
        out.push(src[i]);
        i = i + 1;
        assert(out@ =~= start + src@.subrange(0, i as int));
    }
    assert(src@.subrange(0, i as int) =~= src@);
}

/// Appends `x` as four little-endian bytes.
pub fn put_u32(out: &mut Vec<u8>, x: u32)
    ensures
        final(out)@ == old(out)@ + spec_u32_to_le_bytes(x),
{
    let b = u32_to_le_bytes(x);
    append_bytes(out, b.as_slice());
}

/// Appends `x` as eight little-endian bytes.
pub fn put_u64(out: &mut Vec<u8>, x: u64)
    ensures
        final(out)@ == old(out)@ + spec_u64_to_le_bytes(x),
{
    let b = u64_to_le_bytes(x);
    append_bytes(out, b.as_slice());
}

/// Appends `x` as sixteen little-endian bytes.
pub fn put_u128(out: &mut Vec<u8>, x: u128)
    ensures
        final(out)@ == old(out)@ + spec_u128_to_le_bytes(x),
{
    let b = u128_to_le_bytes(x);
    append_bytes(out, b.as_slice());
}

/// Reads the `u32` at `pos`, or `None` when fewer than four bytes remain.
pub fn read_u32(b: &[u8], pos: usize) -> (r: Option<u32>)
    ensures
        pos + 4 <= b@.len() ==> r == Some(u32_at(b@, pos as int)),
        pos + 4 > b@.len() ==> r is None,
{
    if pos > b.len() || b.len() - pos < 4 {
        return None;
    }
    Some(u32_from_le_bytes(slice_subrange(b, pos, pos + 4)))
}

/// Reads the `u64` at `pos`, or `None` when fewer than eight bytes remain.
pub fn read_u64(b: &[u8], pos: usize) -> (r: Option<u64>)
    ensures
        pos + 8 <= b@.len() ==> r == Some(u64_at(b@, pos as int)),
        pos + 8 > b@.len() ==> r is None,
{
    if pos > b.len() || b.len() - pos < 8 {
        return None;
    }
    Some(u64_from_le_bytes(slice_subrange(b, pos, pos + 8)))
}

/// Reads the `u128` at `pos`, or `None` when fewer than sixteen bytes remain.
pub fn read_u128(b: &[u8], pos: usize) -> (r: Option<u128>)
    ensures
        pos + 16 <= b@.len() ==> r == Some(u128_at(b@, pos as int)),
        pos + 16 > b@.len() ==> r is None,
{
    if pos > b.len() || b.len() - pos < 16 {
        return None;
    }
    Some(u128_from_le_bytes(slice_subrange(b, pos, pos + 16)))
}

/// Encodes a value sequence: its length, then each value in the given order.
pub fn encode_values(vs: &Vec<u128>) -> (r: Vec<u8>)
    ensures
        r@ == values_bytes(vs@),
{
    let mut out: Vec<u8> = Vec::new();
    put_u64(&mut out, vs.len() as u64);
    let ghost head = out@;
    let mut i: usize = 0;
    while i < vs.len()
        invariant
            i <= vs@.len(),
            head == spec_u64_to_le_bytes(vs@.len() as u64),
            out@ == head + items_bytes(vs@.subrange(0, i as int)),
        decreases vs@.len() - i,
    {
        put_u128(&mut out, vs[i]);
        proof {
            let s = vs@.subrange(0, i + 1);
            assert(s.drop_last() =~= vs@.subrange(0, i as int));
            assert(out@ =~= head + items_bytes(s));
        }
        i = i + 1;
    }
    assert(vs@.subrange(0, i as int) =~= vs@);
    out
}

/// Decodes the value set at the front of `b`, as `decode_value_set` says.
pub fn decode_values(b: &[u8]) -> (r: Option<BTreeSet<u128>>)
    ensures
        match r {
            Some(s) => decode_value_set(b@) == Some(s@),
            None => decode_value_set(b@) is None,
        },
{
    let count = match read_u64(b, 0) {
        Some(c) => c,
        None => return None,
    };
    if ((b.len() - 8) as u64) / 16 < count {
        return None;
    }
    assert(16 * count <= b@.len() - 8) by (nonlinear_arith)
        requires count <= (b@.len() - 8) / 16, b@.len() >= 8;
    let mut set: BTreeSet<u128> = BTreeSet::new();
    let cnt = count as usize;
    let blen = b.len();
    let mut i: usize = 0;
    while i < cnt
        invariant
            i <= cnt,
            cnt == count,
            blen == b@.len(),
            8 + 16 * cnt <= b@.len(),
            8 + 16 * count <= b@.len(),
            count == u64_at(b@, 0),
            forall|v: u128| set@.contains(v) <==> exists|j: int| 0 <= j < i && #[trigger] value_at(b@, j) == v,
        decreases cnt - i,
    {
        assert(16 * i < 16 * cnt) by (nonlinear_arith)
            requires i < cnt;
        assert(8 + 16 * i < b@.len());
        let pos: usize = 8 + 16 * i;
        let v = match read_u128(b, pos) {
            Some(v) => v,
            None => return None,
        };
        set.insert(v);
        proof {
            assert forall|w: u128| set@.contains(w) <==> exists|j: int| 0 <= j < i + 1 && #[trigger] value_at(b@, j) == w by {
                if w == v {
                    assert(value_at(b@, i as int) == w);
                }
            }
        }
        i = i + 1;
    }
    assert(set@ =~= Set::new(|v: u128| exists|i: int| 0 <= i < u64_at(b@, 0) && #[trigger] value_at(b@, i) == v));
    Some(set)
}

/// The values of a set in ascending order.
pub fn sorted_values(s: &BTreeSet<u128>) -> (r: Vec<u128>)
    ensures
        r@.to_set() == s@,
        strictly_ascending(r@),
{
    let mut out: Vec<u128> = Vec::new();
    let iter = s.iter();
    assert(iter.remaining().unref().to_set() == s@);
    assert(obeys_cmp::<u128>());
    assert(obeys_cmp::<&u128>());
    assert(increasing_seq(iter.remaining()));
    assert forall|i: int, j: int| 0 <= i < j < iter.remaining().len() implies *iter.remaining()[i] < *iter.remaining()[j] by {
        assert(<&u128 as OrdSpec>::cmp_spec(&iter.remaining()[i], &iter.remaining()[j]) is Less);
    }
    assert(strictly_ascending(iter.remaining().unref()));
    for v in it: iter
        invariant
            out@ == it.seq().unref().take(it.index() as int),
            it.seq().unref().to_set() == s@,
            strictly_ascending(it.seq().unref()),
    {
        out.push(*v);
        assert(out@ =~= it.seq().unref().take(it.index() as int + 1));
    }
    out
}

/// Each element is smaller than the next.
pub open spec fn strictly_ascending(vs: Seq<u128>) -> bool {
    forall|i: int, j: int| 0 <= i < j < vs.len() ==> vs[i] < vs[j]
}

/// The items take sixteen bytes each, the `i`-th at `16 * i`.
pub proof fn lemma_items_bytes(vs: Seq<u128>, i: int)
    requires
        0 <= i < vs.len(),
    ensures
        items_bytes(vs).len() == 16 * vs.len(),
        items_bytes(vs).subrange(16 * i, 16 * i + 16) == spec_u128_to_le_bytes(vs[i]),
    decreases vs.len(),
{
    lemma_auto_spec_u128_to_from_le_bytes();
    lemma_items_len(vs);
    if i == vs.len() - 1 {
        lemma_items_len(vs.drop_last());
        assert(items_bytes(vs).subrange(16 * i, 16 * i + 16) =~= spec_u128_to_le_bytes(vs[i]));
    } else {
        lemma_items_bytes(vs.drop_last(), i);
        lemma_items_len(vs.drop_last());
        assert(items_bytes(vs).subrange(16 * i, 16 * i + 16) =~= items_bytes(vs.drop_last()).subrange(16 * i, 16 * i + 16));
    }
}

/// The items take sixteen bytes each.
pub proof fn lemma_items_len(vs: Seq<u128>)
    ensures
        items_bytes(vs).len() == 16 * vs.len(),
    decreases vs.len(),
{
    lemma_auto_spec_u128_to_from_le_bytes();
    if vs.len() > 0 {
        lemma_items_len(vs.drop_last());
    }
}

/// A stored value sequence decodes to the set of its values, whatever follows it.
pub proof fn lemma_values_round_trip(vs: Seq<u128>, rest: Seq<u8>)
    requires
        vs.len() <= u64::MAX,
    ensures
        decode_value_set(values_bytes(vs) + rest) == Some(vs.to_set()),
{
    lemma_auto_spec_u64_to_from_le_bytes();
    lemma_auto_spec_u128_to_from_le_bytes();
    lemma_items_len(vs);
    let b = values_bytes(vs) + rest;
    assert(b.subrange(0, 8) =~= spec_u64_to_le_bytes(vs.len() as u64));
    assert(u64_at(b, 0) == vs.len());
    assert forall|i: int| 0 <= i < vs.len() implies #[trigger] value_at(b, i) == vs[i] by {
        lemma_items_bytes(vs, i);
        assert(b.subrange(8 + 16 * i, 8 + 16 * i + 16) =~= items_bytes(vs).subrange(16 * i, 16 * i + 16));
    }
    let s = Set::new(|v: u128| exists|i: int| 0 <= i < u64_at(b, 0) && #[trigger] value_at(b, i) == v);
    assert forall|v: u128| s.contains(v) <==> vs.to_set().contains(v) by {
        if vs.to_set().contains(v) {
            let i = choose|i: int| 0 <= i < vs.len() && vs[i] == v;
            assert(value_at(b, i) == v);
        }
    }
    assert(s =~= vs.to_set());
}

} // verus!
