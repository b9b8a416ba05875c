//! The records inside a message payload.
//!
//! A payload is a run of fixed-stride records. Each record starts with a
//! 32-bit little-endian key; its values follow in slots of four bytes. A real
//! value fills its slot as the bit pattern of a 32-bit IEEE-754 number; a
//! non-real value is the 16-bit signed integer in the first two bytes of its
//! slot. Decoding never rejects a payload: a record or a slot that the payload
//! cuts short is read from the bytes that are there, the missing ones as zero.

use crate::bytes::{le_u16, le_u32, read_le_u16, read_le_u32, signed16, signed32, to_i16, to_i32};
use std::collections::HashMap;
use vstd::prelude::*;

verus! {

/// Width of a record key in bytes.
pub const KEY_BYTE_LENGTH: usize = 4;

/// Width of the slot of one value in bytes, which is the width of a real value.
pub const VALUE_REAL_BYTE_LENGTH: usize = 4;

/// Width of a non-real value in bytes.
pub const VALUE_NONREAL_BYTE_LENGTH: usize = 2;

/// A borrowed message payload, tagged with the kind of value it carries.
pub struct Element<'a> {
    pub data: &'a [u8],
    pub real_value: bool,
}

/// The values of one record.
#[derive(Debug, PartialEq)]
pub enum ValueArray {
    /// Real values, each as the bit pattern of a 32-bit IEEE-754 number.
    REAL(Vec<u32>),
    /// Non-real values.
    NONREAL(Vec<i16>),
}

/// The values of one record as sequences.
pub enum Values {
    Real(Seq<u32>),
    NonReal(Seq<i16>),
}

impl View for ValueArray {
    type V = Values;

    open spec fn view(&self) -> Values {
        match self {
            ValueArray::REAL(v) => Values::Real(v@),
            ValueArray::NONREAL(v) => Values::NonReal(v@),
        }
    }
}

impl<'a> Element<'a> {
    /// Views `data` as an element, provided that it is `length` bytes long.
    /// A `length` of zero accepts any payload.
    pub fn new(data: &'a [u8], length: i32, real_value: bool) -> (r: Option<Self>)
        ensures
            r is Some <==> (length == 0 || data@.len() == length),
            r matches Some(e) ==> e.data@ == data@ && e.real_value == real_value,
    {
        if length == 0 || (length > 0 && data.len() == length as usize) {
            Some(Self { data, real_value })
        } else {
            None
        }
    }

    /// The `length` bytes that start at `base`, where the payload holds them all.
    pub fn get_data(&self, base: usize, length: usize, real_value: bool) -> (r: Option<&[u8]>)
        ensures
            r is Some <==> base + length <= self.data@.len(),
            r matches Some(s) ==> s@ == self.data@.subrange(base as int, base + length),
    {
        let n = self.data.len();
        if base <= n && length <= n - base {
            Some(&self.data[base..base + length])
        } else {
            None
        }
    }
}

/// The key of a record: its first four bytes, little-endian and signed.
pub open spec fn record_key(rec: Seq<u8>) -> i32 {
    signed32(le_u32(rec, 0)) as i32
}

/// The number of value slots in a record of `rec_len` bytes whose values
/// start at `offset`. A last slot of fewer than four bytes counts.
pub open spec fn slot_count(rec_len: int, offset: int) -> int {
    if rec_len > offset {
        (rec_len - offset - 1) / 4 + 1
    } else {
        0
    }
}

/// The values of a record whose value slots start at `offset`.
pub open spec fn record_values(rec: Seq<u8>, offset: int, real_value: bool) -> Values {
    let n = slot_count(rec.len() as int, offset) as nat;
    if real_value {
        Values::Real(Seq::new(n, |j: int| le_u32(rec, offset + 4 * j) as u32))
    } else {
        Values::NonReal(Seq::new(n, |j: int| signed16(le_u16(rec, offset + 4 * j)) as i16))
    }
}

/// Reads the key of a record.
fn read_key(rec: &[u8]) -> (key: i32)
    ensures
        key == record_key(rec@),
{
    to_i32(read_le_u32(rec, 0))
}

/// Counts the value slots of a record.
fn count_slots(rec_len: usize, offset: usize) -> (count: usize)
    ensures
        count == slot_count(rec_len as int, offset as int),
        count > 0 ==> offset + 4 * (count - 1) < rec_len,
{
    if rec_len > offset {
        (rec_len - offset - 1) / 4 + 1
    } else {
        0
    }
}

/// Reads the values of a record.
fn read_values(rec: &[u8], offset: usize, real_value: bool) -> (values: ValueArray)
    ensures
        values@ == record_values(rec@, offset as int, real_value),
{
    let n = rec.len();
    let count = count_slots(n, offset);
    let mut j: usize = 0;
    if real_value {
        let mut out: Vec<u32> = Vec::new();
        while j < count
            invariant
                j <= count,
                n == rec@.len(),
                count > 0 ==> offset + 4 * (count - 1) < n,
                out@ =~= Seq::new(j as nat, |k: int| le_u32(rec@, offset + 4 * k) as u32),
            decreases count - j,
        {
            out.push(read_le_u32(rec, offset + 4 * j));
            j += 1;
        }
        ValueArray::REAL(out)
    } else {
        let mut out: Vec<i16> = Vec::new();
        while j < count
            invariant
                j <= count,
                n == rec@.len(),
                count > 0 ==> offset + 4 * (count - 1) < n,
                out@ =~= Seq::new(
                    j as nat,
                    |k: int| signed16(le_u16(rec@, offset + 4 * k)) as i16,
                ),
            decreases count - j,
        {
            out.push(to_i16(read_le_u16(rec, offset + 4 * j)));
            j += 1;
        }
        ValueArray::NONREAL(out)
    }
}

/// The number of records into which `len` bytes fall at `stride` bytes each.
/// A last record shorter than the stride counts; without a positive stride
/// there are no records.
pub open spec fn chunk_count(len: int, stride: int) -> int {
    if stride > 0 && len > 0 {
        (len - 1) / stride + 1
    } else {
        0
    }
}

/// The records of a payload, in order: record `i` starts at byte `i * stride`
/// and ends `stride` bytes later, or with the payload.
pub open spec fn chunks(data: Seq<u8>, stride: int) -> Seq<Seq<u8>> {
    Seq::new(
        chunk_count(data.len() as int, stride) as nat,
        |i: int|
            data.subrange(
                i * stride,
                if (i + 1) * stride < data.len() {
                    (i + 1) * stride
                } else {
                    data.len() as int
                },
            ),
    )
}

/// The mapping that the first `n` records leave when entered in order: of
/// two records with one key the later one stays.
pub open spec fn collected(records: Seq<Seq<u8>>, offset: int, real_value: bool, n: int) -> Map<
    i32,
    Values,
>
    decreases n,
{
    if n <= 0 {
        Map::empty()
    } else {
        collected(records, offset, real_value, n - 1).insert(
            record_key(records[n - 1]),
            record_values(records[n - 1], offset, real_value),
        )
    }
}

/// The record stride of a payload of `data_len` bytes. With a value count
/// `length` a record is a key and `length` slots; without one the payload is
/// shared out evenly among `num_nodes` records.
pub open spec fn stride_of(data_len: int, length: Option<usize>, num_nodes: Option<usize>) -> int {
    match length {
        Some(len) => 4 + 4 * len,
        None => match num_nodes {
            Some(nodes) => data_len / (nodes as int),
            None => 0,
        },
    }
}

/// Where the values of a record start: behind the key, and in the layout
/// without a value count behind a declared length of four bytes as well.
pub open spec fn values_offset(length: Option<usize>) -> int {
    if length is Some {
        4
    } else {
        8
    }
}

/// The mapping that a payload decodes to.
pub open spec fn decoded(
    data: Seq<u8>,
    length: Option<usize>,
    real_value: bool,
    num_nodes: Option<usize>,
) -> Map<i32, Values> {
    let records = chunks(data, stride_of(data.len() as int, length, num_nodes));
    collected(records, values_offset(length), real_value, records.len() as int)
}

/// A mapping of value arrays holds `d`: it has the keys of `d`, and under
/// each of them the values that `d` has.
pub open spec fn agrees(m: Map<i32, ValueArray>, d: Map<i32, Values>) -> bool {
    &&& m.dom() == d.dom()
    &&& forall|k: i32| #[trigger] m.contains_key(k) ==> m[k]@ == d[k]
}

/// A prefix of `i` whole strides lies inside the payload exactly when more
/// than `i` records exist, and covers it when there are no more than `i`.
proof fn lemma_chunk_count(len: int, stride: int, i: int)
    requires
        0 < stride,
        0 <= len,
        0 <= i,
    ensures
        i * stride < len <==> i < chunk_count(len, stride),
{
    if len > 0 {
        let q = (len - 1) / stride;
        assert(q * stride <= len - 1 < (q + 1) * stride) by (nonlinear_arith)
            requires
                q == (len - 1) / stride,
                0 < stride,
                0 <= len - 1,
        ;
        if i <= q {
            assert(i * stride <= q * stride) by (nonlinear_arith)
                requires
                    0 <= i <= q,
                    0 < stride,
            ;
        } else {
            assert((q + 1) * stride <= i * stride) by (nonlinear_arith)
                requires
                    q + 1 <= i,
                    0 < stride,
            ;
        }
    } else {
        assert(0 <= i * stride) by (nonlinear_arith)
            requires
                0 <= i,
                0 < stride,
        ;
    }
}

/// Finds the end of record `i`, which starts at `start`.
fn record_end(n: usize, start: usize, stride: usize, Ghost(i): Ghost<int>) -> (end: usize)
    requires
        0 < stride,
        0 <= i,
        start < n,
        start == i * stride,
    ensures
        start < end <= n,
        i < chunk_count(n as int, stride as int),
        end == if (i + 1) * stride < n {
            (i + 1) * stride
        } else {
            n as int
        },
        end == n ==> i + 1 == chunk_count(n as int, stride as int),
{
    proof {
        lemma_chunk_count(n as int, stride as int, i);
        lemma_chunk_count(n as int, stride as int, i + 1);
        assert((i + 1) * stride == i * stride + stride) by (nonlinear_arith);
    }
    if n - start > stride {
        start + stride
    } else {
        n
    }
}

/// Enters the records of `data`, `stride` bytes each, into a fresh mapping.
fn collect_records(data: &[u8], stride: usize, offset: usize, real_value: bool) -> (rv: HashMap<
    i32,
    ValueArray,
>)
    ensures
        agrees(
            rv@,
            collected(
                chunks(data@, stride as int),
                offset as int,
                real_value,
                chunks(data@, stride as int).len() as int,
            ),
        ),
{
    broadcast use vstd::std_specs::hash::group_hash_axioms;

    let mut rv: HashMap<i32, ValueArray> = HashMap::new();
    let n = data.len();
    let ghost records = chunks(data@, stride as int);
    assert(rv@.dom() =~= collected(records, offset as int, real_value, 0).dom());
    if stride == 0 {
        return rv;
    }
    let mut start: usize = 0;
    let ghost mut i: int = 0;
    while start < n
        invariant
            n == data@.len(),
            0 < stride,
            records == chunks(data@, stride as int),
            0 <= i <= records.len(),
            start <= n,
            start < n ==> start == i * stride,
            start == n ==> i == records.len(),
            agrees(rv@, collected(records, offset as int, real_value, i)),
        decreases n - start,
    {
        let end = record_end(n, start, stride, Ghost(i));
        let rec = &data[start..end];
        assert(rec@ == records[i]);
        let key = read_key(rec);
        let values = read_values(rec, offset, real_value);
        rv.insert(key, values);
        proof {
            i = i + 1;
            assert(rv@.dom() =~= collected(records, offset as int, real_value, i).dom());
        }
        start = end;
    }
    rv
}

/// Decodes a payload into the mapping from record key to record values.
///
/// With a value count `length`, each record is a key followed by `length`
/// value slots. Without one, the payload is shared out evenly among
/// `num_nodes` records, and each record is a key, a declared length that is
/// passed over, and value slots to its end. A payload too short to give each
/// of `num_nodes` records a byte holds no record.
pub fn read_config(
    data: &[u8],
    length: Option<usize>,
    real_value: bool,
    num_nodes: Option<usize>,
) -> (rv: HashMap<i32, ValueArray>)
    requires
        length is None ==> num_nodes is Some && num_nodes->0 > 0,
    ensures
        agrees(rv@, decoded(data@, length, real_value, num_nodes)),
{
    match length {
        Some(len) => {
            let stride = match len.checked_mul(VALUE_REAL_BYTE_LENGTH) {
                Some(room) => room.checked_add(KEY_BYTE_LENGTH),
                None => None,
            };
            match stride {
                Some(stride) => collect_records(data, stride, KEY_BYTE_LENGTH, real_value),
                None => {
                    let n = data.len();
                    proof {
                        lemma_chunks_of_long_stride(data@, 4 + 4 * len, usize::MAX as int);
                    }
                    collect_records(data, usize::MAX, KEY_BYTE_LENGTH, real_value)
                },
            }
        },
        None => {
            let stride = data.len() / num_nodes.unwrap();
            collect_records(data, stride, 2 * KEY_BYTE_LENGTH, real_value)
        },
    }
}

/// The number of values that the stride announces for each record in the
/// layout without a value count: the bytes behind key and declared length,
/// at four bytes for a real value and two for a non-real one.
pub open spec fn expected_count(stride: int, real_value: bool) -> int {
    let room = if stride > 8 {
        stride - 8
    } else {
        0
    };
    if real_value {
        room / 4
    } else {
        room / 2
    }
}

/// The number of records among the first `n` that hold another number of
/// values than the stride announces.
pub open spec fn invalid_lengths(records: Seq<Seq<u8>>, stride: int, real_value: bool, n: int) -> int
    decreases n,
{
    if n <= 0 {
        0
    } else {
        invalid_lengths(records, stride, real_value, n - 1) + if slot_count(
            records[n - 1].len() as int,
            8,
        ) != expected_count(stride, real_value) {
            1int
        } else {
            0int
        }
    }
}

/// Counts the records of a payload in the layout without a value count that
/// hold another number of values than the stride announces. [`read_config`]
/// decodes such records all the same; each of them is worth a warning.
pub fn count_invalid_lengths(data: &[u8], real_value: bool, num_nodes: usize) -> (count: usize)
    requires
        num_nodes > 0,
    ensures
        count == invalid_lengths(
            chunks(data@, data@.len() as int / num_nodes as int),
            data@.len() as int / num_nodes as int,
            real_value,
            chunks(data@, data@.len() as int / num_nodes as int).len() as int,
        ),
{
    let n = data.len();
    let stride = n / num_nodes;
    let ghost records = chunks(data@, stride as int);
    if stride == 0 {
        return 0;
    }
    let room = if stride > 2 * KEY_BYTE_LENGTH {
        stride - 2 * KEY_BYTE_LENGTH
    } else {
        0
    };
    let expected = if real_value {
        room / VALUE_REAL_BYTE_LENGTH
    } else {
        room / VALUE_NONREAL_BYTE_LENGTH
    };
    let mut count: usize = 0;
    let mut start: usize = 0;
    let ghost mut i: int = 0;
    while start < n
        invariant
            n == data@.len(),
            0 < stride,
            records == chunks(data@, stride as int),
            expected == expected_count(stride as int, real_value),
            0 <= i <= records.len(),
            start <= n,
            start < n ==> start == i * stride,
            start == n ==> i == records.len(),
            count == invalid_lengths(records, stride as int, real_value, i),
            count <= i <= start,
        decreases n - start,
    {
        let end = record_end(n, start, stride, Ghost(i));
        assert(records[i].len() == end - start);
        assert((i + 1) * stride >= i + 1) by (nonlinear_arith)
            requires
                0 <= i,
                0 < stride,
        ;
        if count_slots(end - start, 2 * KEY_BYTE_LENGTH) != expected {
            count += 1;
        }
        proof {
            i = i + 1;
        }
        start = end;
    }
    count
}

/// Decoding is a function of the payload and the layout: two mappings that
/// both come from decoding one payload under one layout have the same keys,
/// and under each key the same values.
pub proof fn lemma_decoding_is_repeatable(
    first: Map<i32, ValueArray>,
    second: Map<i32, ValueArray>,
    data: Seq<u8>,
    length: Option<usize>,
    real_value: bool,
    num_nodes: Option<usize>,
)
    requires
        agrees(first, decoded(data, length, real_value, num_nodes)),
        agrees(second, decoded(data, length, real_value, num_nodes)),
    ensures
        first.dom() == second.dom(),
        forall|k: i32| #[trigger] first.contains_key(k) ==> first[k]@ == second[k]@,
{
    assert forall|k: i32| #[trigger] first.contains_key(k) implies first[k]@ == second[k]@ by {
        assert(second.contains_key(k));
    }
}

/// Every key of the mapping is the key of one of the records.
pub proof fn lemma_keys_come_from_records(
    records: Seq<Seq<u8>>,
    offset: int,
    real_value: bool,
    n: int,
    key: i32,
)
    requires
        collected(records, offset, real_value, n).contains_key(key),
    ensures
        exists|i: int| 0 <= i < n && #[trigger] record_key(records[i]) == key,
    decreases n,
{
    if n > 0 {
        if record_key(records[n - 1]) != key {
            lemma_keys_come_from_records(records, offset, real_value, n - 1, key);
        }
    }
}

/// A record that no later record shares its key with stays in the mapping:
/// its key is there, with its values.
pub proof fn lemma_last_record_stays(
    records: Seq<Seq<u8>>,
    offset: int,
    real_value: bool,
    n: int,
    i: int,
)
    requires
        0 <= i < n,
        forall|j: int| i < j < n ==> #[trigger] record_key(records[j]) != record_key(records[i]),
    ensures
        collected(records, offset, real_value, n).contains_key(record_key(records[i])),
        collected(records, offset, real_value, n)[record_key(records[i])] == record_values(
            records[i],
            offset,
            real_value,
        ),
    decreases n,
{
    if i < n - 1 {
        lemma_last_record_stays(records, offset, real_value, n - 1, i);
        assert(record_key(records[n - 1]) != record_key(records[i]));
    }
}

/// Two strides that both reach the end of the payload cut it alike.
proof fn lemma_chunks_of_long_stride(data: Seq<u8>, a: int, b: int)
    requires
        data.len() <= a,
        data.len() <= b,
    ensures
        chunks(data, a) == chunks(data, b),
{
    if data.len() > 0 {
        lemma_chunk_count(data.len() as int, a, 1);
        lemma_chunk_count(data.len() as int, b, 1);
        lemma_chunk_count(data.len() as int, a, 0);
        lemma_chunk_count(data.len() as int, b, 0);
    }
    assert(chunks(data, a) =~= chunks(data, b));
}

} // verus!
