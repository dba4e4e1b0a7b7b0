//! The BiWi wire format, as mathematics.
//!
//! Everything the encoder may emit is defined by [`value_bytes`] and its
//! helpers; everything the decoder accepts is defined by [`parse_value`]
//! and its helpers.  The executable codec is verified against these
//! functions, and the round-trip laws in [`crate::laws`] relate the two.
//!
//! Varints are little-endian base-128 with a continuation bit.  Fixed-width
//! fields are big-endian.  Signed integers travel zigzag-coded, except for
//! the inline fast path: an integer in `[-64, 63]` is a single byte holding
//! the marker bit `0x80` and the value's low seven bits.

use vstd::prelude::*;
use vstd::utf8::{encode_utf8, decode_utf8, valid_utf8};
use crate::value::ValueModel;

verus! {

/// Errors of the parse functions; the executable decoder's errors carry a
/// context string in addition, but agree on the variant.
#[derive(PartialEq, Eq, Structural)]
pub enum WireError {
    /// A length or fixed-width field would read past the buffer.
    Insufficient,
    /// The byte found where a value's type byte was expected.
    UnknownType(u8),
    /// Non-UTF-8 text, or an unrecognized packed-array element type.
    Invalid,
}

// ---------------------------------------------------------------------------
// Varints
// ---------------------------------------------------------------------------

/// The little-endian base-128 encoding of `n`: seven value bits per byte,
/// high bit set on every byte but the last.
pub open spec fn varint(n: nat) -> Seq<u8>
    decreases n,
{
    if n < 128 {
        seq![n as u8]
    } else {
        seq![(128 + n % 128) as u8] + varint(n / 128)
    }
}

/// Parse a varint at `pos`: the unbounded value and the position after it.
/// `None` when the buffer ends inside the varint.
pub open spec fn parse_varint(s: Seq<u8>, pos: int) -> Option<(nat, int)>
    decreases s.len() - pos,
{
    if pos < 0 || pos >= s.len() {
        None
    } else if s[pos] < 128 {
        Some((s[pos] as nat, pos + 1))
    } else {
        match parse_varint(s, pos + 1) {
            Some((v, end)) => Some(((s[pos] - 128) as nat + 128 * v, end)),
            None => None,
        }
    }
}

// ---------------------------------------------------------------------------
// ZigZag and the small-integer fast path
// ---------------------------------------------------------------------------

/// ZigZag: fold the sign into the low bit, so small magnitudes stay small.
pub open spec fn zigzag32(n: int) -> nat
    recommends
        -0x8000_0000 <= n < 0x8000_0000,
{
    if n >= 0 {
        (2 * n) as nat
    } else {
        (-2 * n - 1) as nat
    }
}

/// Inverse of [`zigzag32`].
pub open spec fn unzigzag32(u: nat) -> int {
    if u % 2 == 0 {
        (u / 2) as int
    } else {
        -((u / 2) as int) - 1
    }
}

/// ZigZag for 64-bit integers.
pub open spec fn zigzag64(n: int) -> nat
    recommends
        -0x8000_0000_0000_0000 <= n < 0x8000_0000_0000_0000,
{
    if n >= 0 {
        (2 * n) as nat
    } else {
        (-2 * n - 1) as nat
    }
}

/// Inverse of [`zigzag64`].
pub open spec fn unzigzag64(u: nat) -> int {
    if u % 2 == 0 {
        (u / 2) as int
    } else {
        -((u / 2) as int) - 1
    }
}

/// The inline byte for an integer in `[-64, 63]`: marker bit `0x80` plus
/// the value's low seven bits (two's complement).
pub open spec fn small_int_byte(n: int) -> u8
    recommends
        -64 <= n <= 63,
{
    if n >= 0 {
        (128 + n) as u8
    } else {
        (256 + n) as u8
    }
}

/// Sign-extend the low seven bits of an inline integer byte.
pub open spec fn sign_extend7(b: u8) -> int {
    if b % 128 < 64 {
        (b % 128) as int
    } else {
        b % 128 - 128
    }
}

/// Payload of an `Int32`: one inline byte for `[-64, 63]`, otherwise the
/// varint of the zigzag.
pub open spec fn int32_payload(n: int) -> Seq<u8> {
    if -64 <= n <= 63 {
        seq![small_int_byte(n)]
    } else {
        varint(zigzag32(n))
    }
}

/// Payload of an `Int64`.
pub open spec fn int64_payload(n: int) -> Seq<u8> {
    if -64 <= n <= 63 {
        seq![small_int_byte(n)]
    } else {
        varint(zigzag64(n))
    }
}

// ---------------------------------------------------------------------------
// Big-endian fixed-width fields
// ---------------------------------------------------------------------------

/// Big-endian bytes of a `u16`.
pub open spec fn be_bytes_u16(x: u16) -> Seq<u8> {
    seq![(x / 0x100) as u8, (x % 0x100) as u8]
}

/// Big-endian bytes of a `u32`.
pub open spec fn be_bytes_u32(x: u32) -> Seq<u8> {
    seq![
        (x / 0x100_0000) as u8,
        ((x / 0x1_0000) % 0x100) as u8,
        ((x / 0x100) % 0x100) as u8,
        (x % 0x100) as u8,
    ]
}

/// Big-endian bytes of a `u64`.
pub open spec fn be_bytes_u64(x: u64) -> Seq<u8> {
    seq![
        (x / 0x100_0000_0000_0000) as u8,
        ((x / 0x1_0000_0000_0000) % 0x100) as u8,
        ((x / 0x100_0000_0000) % 0x100) as u8,
        ((x / 0x1_0000_0000) % 0x100) as u8,
        ((x / 0x100_0000) % 0x100) as u8,
        ((x / 0x1_0000) % 0x100) as u8,
        ((x / 0x100) % 0x100) as u8,
        (x % 0x100) as u8,
    ]
}

/// A `u16` from two big-endian bytes.
pub open spec fn u16_of_be(b0: u8, b1: u8) -> u16 {
    (b0 * 0x100 + b1) as u16
}

/// A `u32` from four big-endian bytes.
pub open spec fn u32_of_be(b0: u8, b1: u8, b2: u8, b3: u8) -> u32 {
    (b0 * 0x100_0000 + b1 * 0x1_0000 + b2 * 0x100 + b3) as u32
}

/// A `u64` from eight big-endian bytes.
pub open spec fn u64_of_be(b0: u8, b1: u8, b2: u8, b3: u8, b4: u8, b5: u8, b6: u8, b7: u8) -> u64 {
    (b0 * 0x100_0000_0000_0000 + b1 * 0x1_0000_0000_0000 + b2 * 0x100_0000_0000
        + b3 * 0x1_0000_0000 + b4 * 0x100_0000 + b5 * 0x1_0000 + b6 * 0x100 + b7) as u64
}

// ---------------------------------------------------------------------------
// Value encoding
// ---------------------------------------------------------------------------

/// Whether every element is an `Int32`.
pub open spec fn all_int32(es: Seq<ValueModel>) -> bool {
    forall|i: int| 0 <= i < es.len() ==> (#[trigger] es[i]) is Int32
}

/// Whether every element is an `Int64`.
pub open spec fn all_int64(es: Seq<ValueModel>) -> bool {
    forall|i: int| 0 <= i < es.len() ==> (#[trigger] es[i]) is Int64
}

/// Whether every element is a `Float32`.
pub open spec fn all_float32(es: Seq<ValueModel>) -> bool {
    forall|i: int| 0 <= i < es.len() ==> (#[trigger] es[i]) is Float32
}

/// Whether every element is a `Float64`.
pub open spec fn all_float64(es: Seq<ValueModel>) -> bool {
    forall|i: int| 0 <= i < es.len() ==> (#[trigger] es[i]) is Float64
}

/// A non-empty homogeneous primitive array is written packed: one element
/// type byte, then the payloads with no per-element type bytes.
pub open spec fn packable(es: Seq<ValueModel>) -> bool {
    es.len() > 0 && (all_int32(es) || all_int64(es) || all_float32(es) || all_float64(es))
}

/// The element type byte of a packed array.
pub open spec fn packed_type_code(es: Seq<ValueModel>) -> u8
    recommends
        packable(es),
{
    if all_int32(es) {
        0x02
    } else if all_int64(es) {
        0x03
    } else if all_float32(es) {
        0x04
    } else {
        0x05
    }
}

/// The payload of one packed element: integers zigzag-varint, floats
/// big-endian.
pub open spec fn packed_elem_bytes(v: ValueModel) -> Seq<u8> {
    match v {
        ValueModel::Int32(n) => varint(zigzag32(n as int)),
        ValueModel::Int64(n) => varint(zigzag64(n as int)),
        ValueModel::Float32(bits) => be_bytes_u32(bits),
        ValueModel::Float64(bits) => be_bytes_u64(bits),
        _ => Seq::empty(),
    }
}

/// The concatenated payloads of a packed array's elements.
pub open spec fn packed_body(es: Seq<ValueModel>) -> Seq<u8>
    decreases es.len(),
{
    if es.len() == 0 {
        Seq::empty()
    } else {
        packed_elem_bytes(es[0]) + packed_body(es.drop_first())
    }
}

/// The bytes of a value, type byte included.
pub open spec fn value_bytes(v: ValueModel) -> Seq<u8>
    decreases v, 0nat,
{
    match v {
        ValueModel::Null => seq![0x00u8],
        ValueModel::Bool(b) => if b {
            seq![0x01u8]
        } else {
            seq![0xFFu8]
        },
        ValueModel::Int32(n) => seq![0x02u8] + int32_payload(n as int),
        ValueModel::Int64(n) => seq![0x03u8] + int64_payload(n as int),
        ValueModel::Float32(bits) => seq![0x04u8] + be_bytes_u32(bits),
        ValueModel::Float64(bits) => seq![0x05u8] + be_bytes_u64(bits),
        ValueModel::SmallStr(cs) => seq![0x06u8, (128 + encode_utf8(cs).len()) as u8]
            + encode_utf8(cs),
        ValueModel::Str(cs) => seq![0x06u8] + varint(encode_utf8(cs).len()) + encode_utf8(cs),
        ValueModel::Bin(b) => seq![0x07u8] + varint(b.len()) + b,
        ValueModel::Arr(es) => if packable(es) {
            seq![0x88u8, packed_type_code(es)] + varint(es.len()) + packed_body(es)
        } else {
            seq![0x08u8] + varint(es.len()) + values_bytes(es)
        },
        ValueModel::Obj(en) => seq![0x09u8] + varint(en.len()) + entries_bytes(en),
    }
}

/// The concatenated encodings of a sequence of values.
pub open spec fn values_bytes(es: Seq<ValueModel>) -> Seq<u8>
    decreases es, 1nat,
{
    if es.len() == 0 {
        Seq::empty()
    } else {
        value_bytes(es[0]) + values_bytes(es.drop_first())
    }
}

/// The concatenated encodings of object entries: varint key length, key
/// bytes, then the value.
pub open spec fn entries_bytes(en: Seq<(Seq<char>, ValueModel)>) -> Seq<u8>
    decreases en, 1nat,
{
    if en.len() == 0 {
        Seq::empty()
    } else {
        varint(encode_utf8(en[0].0).len()) + encode_utf8(en[0].0) + value_bytes(en[0].1)
            + entries_bytes(en.drop_first())
    }
}

// ---------------------------------------------------------------------------
// Field framing
// ---------------------------------------------------------------------------

/// The wire-type hint a value is framed with.  The hint is informational;
/// the payload's own type byte is authoritative.
pub open spec fn wire_hint(v: ValueModel) -> u8 {
    match v {
        ValueModel::Int32(_) | ValueModel::Int64(_) => 2,
        ValueModel::Str(_) | ValueModel::Bin(_) | ValueModel::Arr(_) | ValueModel::Obj(_) => 3,
        ValueModel::Float32(_) => 0,
        ValueModel::Float64(_) => 1,
        _ => 2,
    }
}

/// The field header: ids 1 through 63 compact in one byte
/// `(id << 2) | hint`, other ids as the varint of `(id << 3) | hint`.
pub open spec fn header_bytes(id: u32, hint: u8) -> Seq<u8>
    recommends
        hint <= 3,
{
    if 1 <= id <= 63 {
        seq![(4 * id + hint) as u8]
    } else {
        varint((8 * id + hint) as nat)
    }
}

/// The bytes of one framed field.
pub open spec fn field_bytes(id: u32, v: ValueModel) -> Seq<u8> {
    header_bytes(id, wire_hint(v)) + value_bytes(v)
}

/// The concatenated encodings of a sequence of fields.
pub open spec fn fields_bytes(fs: Seq<(u32, ValueModel)>) -> Seq<u8>
    decreases fs,
{
    if fs.len() == 0 {
        Seq::empty()
    } else {
        field_bytes(fs[0].0, fs[0].1) + fields_bytes(fs.drop_first())
    }
}

// ---------------------------------------------------------------------------
// Streaming chunks
// ---------------------------------------------------------------------------

/// A chunk-start record: type byte, field id, total size.
pub open spec fn chunk_start_bytes(field_id: u16, total_size: u32) -> Seq<u8> {
    seq![0x0Au8] + be_bytes_u16(field_id) + be_bytes_u32(total_size)
}

/// A chunk-data record: type byte, chunk index, data length, data.
pub open spec fn chunk_data_bytes(chunk_index: u16, data: Seq<u8>) -> Seq<u8>
    recommends
        data.len() < 0x1_0000,
{
    seq![0x0Bu8] + be_bytes_u16(chunk_index) + be_bytes_u16(data.len() as u16) + data
}

// ---------------------------------------------------------------------------
// Parsing
// ---------------------------------------------------------------------------

/// Parse an `Int32` payload.  A varint is read when one terminates inside
/// the buffer; a lone trail of marker bytes falls back to the inline form.
pub open spec fn parse_int32_payload(s: Seq<u8>, pos: int) -> Result<(ValueModel, int), WireError> {
    if pos < 0 || pos >= s.len() {
        Err(WireError::Insufficient)
    } else {
        match parse_varint(s, pos) {
            Some((u, end)) => Ok(
                (ValueModel::Int32(unzigzag32(u % 0x1_0000_0000) as i32), end),
            ),
            None => Ok((ValueModel::Int32(sign_extend7(s[pos]) as i32), pos + 1)),
        }
    }
}

/// Parse an `Int64` payload.
pub open spec fn parse_int64_payload(s: Seq<u8>, pos: int) -> Result<(ValueModel, int), WireError> {
    if pos < 0 || pos >= s.len() {
        Err(WireError::Insufficient)
    } else {
        match parse_varint(s, pos) {
            Some((u, end)) => Ok(
                (ValueModel::Int64(unzigzag64(u % 0x1_0000_0000_0000_0000) as i64), end),
            ),
            None => Ok((ValueModel::Int64(sign_extend7(s[pos]) as i64), pos + 1)),
        }
    }
}

/// Parse a string payload: a marker byte gives an inline length, any other
/// first byte begins a varint length.
pub open spec fn parse_string_payload(s: Seq<u8>, pos: int) -> Result<(ValueModel, int), WireError> {
    if pos < 0 || pos >= s.len() {
        Err(WireError::Insufficient)
    } else if s[pos] >= 128 {
        let n = (s[pos] - 128) as int;
        if pos + 1 + n > s.len() {
            Err(WireError::Insufficient)
        } else {
            let b = s.subrange(pos + 1, pos + 1 + n);
            if !valid_utf8(b) {
                Err(WireError::Invalid)
            } else if n <= 15 {
                Ok((ValueModel::SmallStr(decode_utf8(b)), pos + 1 + n))
            } else {
                Ok((ValueModel::Str(decode_utf8(b)), pos + 1 + n))
            }
        }
    } else {
        match parse_varint(s, pos) {
            None => Err(WireError::Insufficient),
            Some((u, p1)) => {
                let n = (u % 0x1_0000_0000) as int;
                if p1 + n > s.len() {
                    Err(WireError::Insufficient)
                } else {
                    let b = s.subrange(p1, p1 + n);
                    if !valid_utf8(b) {
                        Err(WireError::Invalid)
                    } else {
                        Ok((ValueModel::Str(decode_utf8(b)), p1 + n))
                    }
                }
            },
        }
    }
}

/// Parse a binary payload: varint length, then the raw bytes.
pub open spec fn parse_binary_payload(s: Seq<u8>, pos: int) -> Result<(ValueModel, int), WireError> {
    match parse_varint(s, pos) {
        None => Err(WireError::Insufficient),
        Some((u, p1)) => {
            let n = (u % 0x1_0000_0000) as int;
            if p1 + n > s.len() {
                Err(WireError::Insufficient)
            } else {
                Ok((ValueModel::Bin(s.subrange(p1, p1 + n)), p1 + n))
            }
        },
    }
}

/// Parse a value, type byte first.
#[verifier::rlimit(100)]
pub open spec fn parse_value(s: Seq<u8>, pos: int) -> Result<(ValueModel, int), WireError>
    decreases s.len() - pos, 0nat,
{
    if pos < 0 || pos >= s.len() {
        Err(WireError::Insufficient)
    } else {
        let t = s[pos];
        let p = pos + 1;
        if t == 0x00 {
            Ok((ValueModel::Null, p))
        } else if t == 0x01 {
            Ok((ValueModel::Bool(true), p))
        } else if t == 0xFF {
            Ok((ValueModel::Bool(false), p))
        } else if t == 0x02 {
            parse_int32_payload(s, p)
        } else if t == 0x03 {
            parse_int64_payload(s, p)
        } else if t == 0x04 {
            if p + 4 > s.len() {
                Err(WireError::Insufficient)
            } else {
                Ok((ValueModel::Float32(u32_of_be(s[p], s[p + 1], s[p + 2], s[p + 3])), p + 4))
            }
        } else if t == 0x05 {
            if p + 8 > s.len() {
                Err(WireError::Insufficient)
            } else {
                Ok((
                    ValueModel::Float64(
                        u64_of_be(
                            s[p], s[p + 1], s[p + 2], s[p + 3],
                            s[p + 4], s[p + 5], s[p + 6], s[p + 7],
                        ),
                    ),
                    p + 8,
                ))
            }
        } else if t == 0x06 {
            parse_string_payload(s, p)
        } else if t == 0x07 {
            parse_binary_payload(s, p)
        } else if t == 0x08 {
            parse_array_payload(s, p)
        } else if t == 0x09 {
            parse_object_payload(s, p)
        } else if t == 0x88 {
            parse_packed_payload(s, p)
        } else {
            Err(WireError::UnknownType(t))
        }
    }
}

/// Parse an array payload: varint count, then that many values.
pub open spec fn parse_array_payload(s: Seq<u8>, pos: int) -> Result<(ValueModel, int), WireError>
    decreases s.len() - pos, 2nat,
{
    match parse_varint(s, pos) {
        None => Err(WireError::Insufficient),
        Some((u, p1)) => {
            if p1 <= pos || p1 > s.len() {
                // a parsed varint always advances; this branch is vacuous
                Err(WireError::Insufficient)
            } else {
                match parse_elems(s, p1, (u % 0x1_0000_0000) as nat) {
                    Err(e) => Err(e),
                    Ok((vs, end)) => Ok((ValueModel::Arr(vs), end)),
                }
            }
        },
    }
}

/// Whether a key occurs among the entries.
pub open spec fn has_entry_key(en: Seq<(Seq<char>, ValueModel)>, k: Seq<char>) -> bool {
    exists|i: int| 0 <= i < en.len() && (#[trigger] en[i]).0 == k
}

/// The position of a key among the entries.
pub open spec fn entry_key_index(en: Seq<(Seq<char>, ValueModel)>, k: Seq<char>) -> int {
    choose|i: int| 0 <= i < en.len() && (#[trigger] en[i]).0 == k
}

/// Entries whose keys are pairwise distinct.
pub open spec fn unique_entry_keys(en: Seq<(Seq<char>, ValueModel)>) -> bool {
    forall|i: int, j: int| 0 <= i < j < en.len() ==> (#[trigger] en[i]).0 != (#[trigger] en[j]).0
}

/// Insert one entry into a key-unique entry sequence as a mapping would:
/// a later value for a present key overwrites it in place, a fresh key
/// is appended.
pub open spec fn put_entry(
    en: Seq<(Seq<char>, ValueModel)>,
    k: Seq<char>,
    v: ValueModel,
) -> Seq<(Seq<char>, ValueModel)> {
    if has_entry_key(en, k) {
        en.update(entry_key_index(en, k), (k, v))
    } else {
        en.push((k, v))
    }
}

/// The entries collapsed onto an accumulator, one `put_entry` each.
pub open spec fn dedup_entries_from(
    acc: Seq<(Seq<char>, ValueModel)>,
    en: Seq<(Seq<char>, ValueModel)>,
) -> Seq<(Seq<char>, ValueModel)>
    decreases en.len(),
{
    if en.len() == 0 {
        acc
    } else {
        dedup_entries_from(put_entry(acc, en[0].0, en[0].1), en.drop_first())
    }
}

/// Object entries with duplicate keys collapsed: the last value written
/// for a key wins, and the key keeps the position of its first
/// occurrence.
pub open spec fn dedup_entries(en: Seq<(Seq<char>, ValueModel)>) -> Seq<(Seq<char>, ValueModel)> {
    dedup_entries_from(Seq::empty(), en)
}

/// `put_entry` keeps keys unique, and which of its two shapes applies
/// is decided by `has_entry_key`.
pub proof fn lemma_put_entry(acc: Seq<(Seq<char>, ValueModel)>, k: Seq<char>, v: ValueModel)
    requires
        unique_entry_keys(acc),
    ensures
        unique_entry_keys(put_entry(acc, k, v)),
        has_entry_key(acc, k) ==> 0 <= entry_key_index(acc, k) < acc.len() && acc[entry_key_index(
            acc,
            k,
        )].0 == k,
{
    if has_entry_key(acc, k) {
        let i = entry_key_index(acc, k);
        assert(0 <= i < acc.len() && acc[i].0 == k);
        let u = acc.update(i, (k, v));
        assert forall|a: int, b: int| 0 <= a < b < u.len() implies (#[trigger] u[a]).0 != (
        #[trigger] u[b]).0 by {
            assert(u[a].0 == acc[a].0);
            assert(u[b].0 == acc[b].0);
        }
    } else {
        let u = acc.push((k, v));
        assert forall|a: int, b: int| 0 <= a < b < u.len() implies (#[trigger] u[a]).0 != (
        #[trigger] u[b]).0 by {
            if b == acc.len() {
                assert(u[a] == acc[a]);
                assert(u[b].0 == k);
            } else {
                assert(u[a] == acc[a]);
                assert(u[b] == acc[b]);
            }
        }
    }
}

/// Collapsing entries whose keys are already unique changes nothing.
proof fn lemma_dedup_entries_from_unique(
    acc: Seq<(Seq<char>, ValueModel)>,
    en: Seq<(Seq<char>, ValueModel)>,
)
    requires
        unique_entry_keys(acc + en),
    ensures
        dedup_entries_from(acc, en) == acc + en,
    decreases en.len(),
{
    if en.len() == 0 {
        assert(acc + en =~= acc);
    } else {
        let e = en[0];
        assert(!has_entry_key(acc, e.0)) by {
            if has_entry_key(acc, e.0) {
                let i = choose|i: int| 0 <= i < acc.len() && (#[trigger] acc[i]).0 == e.0;
                assert((acc + en)[i] == acc[i]);
                assert((acc + en)[acc.len() as int] == e);
            }
        }
        assert((e.0, e.1) == e);
        assert(put_entry(acc, e.0, e.1) == acc.push(e));
        assert(acc.push(e) + en.drop_first() =~= acc + en);
        lemma_dedup_entries_from_unique(acc.push(e), en.drop_first());
    }
}

/// Entries with pairwise distinct keys collapse to themselves.
pub proof fn lemma_dedup_entries_unique(en: Seq<(Seq<char>, ValueModel)>)
    requires
        unique_entry_keys(en),
    ensures
        dedup_entries(en) == en,
{
    let empty = Seq::<(Seq<char>, ValueModel)>::empty();
    assert(empty + en =~= en);
    lemma_dedup_entries_from_unique(empty, en);
}

/// Collapsing one more entry applies one `put_entry` to the collapse of
/// the entries before it.
pub proof fn lemma_dedup_entries_from_push(
    acc: Seq<(Seq<char>, ValueModel)>,
    en: Seq<(Seq<char>, ValueModel)>,
    e: (Seq<char>, ValueModel),
)
    ensures
        dedup_entries_from(acc, en.push(e)) == put_entry(dedup_entries_from(acc, en), e.0, e.1),
    decreases en.len(),
{
    reveal_with_fuel(dedup_entries_from, 2);
    if en.len() == 0 {
        assert(en.push(e)[0] == e);
        assert(en.push(e).drop_first() =~= Seq::<(Seq<char>, ValueModel)>::empty());
        assert(dedup_entries_from(acc, en.push(e)) == dedup_entries_from(
            put_entry(acc, e.0, e.1),
            en.push(e).drop_first(),
        ));
        assert(dedup_entries_from(put_entry(acc, e.0, e.1), en.push(e).drop_first())
            == put_entry(acc, e.0, e.1));
        assert(dedup_entries_from(acc, en) == acc);
    } else {
        assert(en.push(e)[0] == en[0]);
        assert(en.push(e).drop_first() =~= en.drop_first().push(e));
        lemma_dedup_entries_from_push(put_entry(acc, en[0].0, en[0].1), en.drop_first(), e);
        assert(dedup_entries_from(acc, en.push(e)) == dedup_entries_from(
            put_entry(acc, en[0].0, en[0].1),
            en.drop_first().push(e),
        ));
        assert(dedup_entries_from(acc, en) == dedup_entries_from(
            put_entry(acc, en[0].0, en[0].1),
            en.drop_first(),
        ));
    }
}

/// Parse an object payload: varint entry count, then that many entries;
/// duplicate keys collapse, the last value for a key winning.
pub open spec fn parse_object_payload(s: Seq<u8>, pos: int) -> Result<(ValueModel, int), WireError>
    decreases s.len() - pos, 2nat,
{
    match parse_varint(s, pos) {
        None => Err(WireError::Insufficient),
        Some((u, p1)) => {
            if p1 <= pos || p1 > s.len() {
                Err(WireError::Insufficient)
            } else {
                match parse_entries(s, p1, (u % 0x1_0000_0000) as nat) {
                    Err(e) => Err(e),
                    Ok((en, end)) => Ok((ValueModel::Obj(dedup_entries(en)), end)),
                }
            }
        },
    }
}

/// Parse a packed-array payload: element type byte, varint count, then
/// that many bare element payloads.
pub open spec fn parse_packed_payload(s: Seq<u8>, pos: int) -> Result<(ValueModel, int), WireError>
    decreases s.len() - pos, 2nat,
{
    if pos < 0 || pos >= s.len() {
        Err(WireError::Insufficient)
    } else {
        let et = s[pos];
        match parse_varint(s, pos + 1) {
            None => Err(WireError::Insufficient),
            Some((u, p1)) => {
                if p1 <= pos || p1 > s.len() {
                    Err(WireError::Insufficient)
                } else if et == 0x02 || et == 0x03 || et == 0x04 || et == 0x05 {
                    match parse_packed(s, p1, (u % 0x1_0000_0000) as nat, et) {
                        Err(e) => Err(e),
                        Ok((vs, end)) => Ok((ValueModel::Arr(vs), end)),
                    }
                } else {
                    Err(WireError::Invalid)
                }
            },
        }
    }
}

/// Parse `n` consecutive values.
pub open spec fn parse_elems(s: Seq<u8>, pos: int, n: nat) -> Result<(Seq<ValueModel>, int), WireError>
    decreases s.len() - pos, 1nat,
{
    if n == 0 {
        Ok((Seq::empty(), pos))
    } else if pos < 0 {
        Err(WireError::Insufficient)
    } else {
        match parse_value(s, pos) {
            Err(e) => Err(e),
            Ok((v, p1)) => {
                if p1 <= pos || p1 > s.len() {
                    // a parsed value always advances; this branch is vacuous
                    Err(WireError::Insufficient)
                } else {
                    match parse_elems(s, p1, (n - 1) as nat) {
                        Err(e) => Err(e),
                        Ok((vs, end)) => Ok((seq![v] + vs, end)),
                    }
                }
            },
        }
    }
}

/// Parse `n` consecutive object entries: varint key length, UTF-8 key
/// bytes, then the value.
pub open spec fn parse_entries(s: Seq<u8>, pos: int, n: nat) -> Result<
    (Seq<(Seq<char>, ValueModel)>, int),
    WireError,
>
    decreases s.len() - pos, 1nat,
{
    if n == 0 {
        Ok((Seq::empty(), pos))
    } else if pos < 0 {
        Err(WireError::Insufficient)
    } else {
        match parse_varint(s, pos) {
            None => Err(WireError::Insufficient),
            Some((u, p1)) => {
                let klen = (u % 0x1_0000_0000) as int;
                if p1 <= pos {
                    // a parsed varint always advances; this branch is vacuous
                    Err(WireError::Insufficient)
                } else if p1 + klen > s.len() {
                    Err(WireError::Insufficient)
                } else {
                    let kb = s.subrange(p1, p1 + klen);
                    if !valid_utf8(kb) {
                        Err(WireError::Invalid)
                    } else {
                        match parse_value(s, p1 + klen) {
                            Err(e) => Err(e),
                            Ok((v, p2)) => {
                                if p2 <= pos || p2 > s.len() {
                                    Err(WireError::Insufficient)
                                } else {
                                    match parse_entries(s, p2, (n - 1) as nat) {
                                        Err(e) => Err(e),
                                        Ok((en, end)) => Ok(
                                            (seq![(decode_utf8(kb), v)] + en, end),
                                        ),
                                    }
                                }
                            },
                        }
                    }
                }
            },
        }
    }
}

/// Parse `n` packed elements of the element type `et`.
pub open spec fn parse_packed(s: Seq<u8>, pos: int, n: nat, et: u8) -> Result<
    (Seq<ValueModel>, int),
    WireError,
>
    decreases s.len() - pos, 1nat,
{
    if n == 0 {
        Ok((Seq::empty(), pos))
    } else if pos < 0 {
        Err(WireError::Insufficient)
    } else if et == 0x02 || et == 0x03 {
        match parse_varint(s, pos) {
            None => Err(WireError::Insufficient),
            Some((u, p1)) => {
                if p1 <= pos || p1 > s.len() {
                    Err(WireError::Insufficient)
                } else {
                    let v = if et == 0x02 {
                        ValueModel::Int32(unzigzag32(u % 0x1_0000_0000) as i32)
                    } else {
                        ValueModel::Int64(unzigzag64(u % 0x1_0000_0000_0000_0000) as i64)
                    };
                    match parse_packed(s, p1, (n - 1) as nat, et) {
                        Err(e) => Err(e),
                        Ok((vs, end)) => Ok((seq![v] + vs, end)),
                    }
                }
            },
        }
    } else if et == 0x04 {
        if pos + 4 > s.len() {
            Err(WireError::Insufficient)
        } else {
            let v = ValueModel::Float32(u32_of_be(s[pos], s[pos + 1], s[pos + 2], s[pos + 3]));
            match parse_packed(s, pos + 4, (n - 1) as nat, et) {
                Err(e) => Err(e),
                Ok((vs, end)) => Ok((seq![v] + vs, end)),
            }
        }
    } else if et == 0x05 {
        if pos + 8 > s.len() {
            Err(WireError::Insufficient)
        } else {
            let v = ValueModel::Float64(
                u64_of_be(
                    s[pos], s[pos + 1], s[pos + 2], s[pos + 3],
                    s[pos + 4], s[pos + 5], s[pos + 6], s[pos + 7],
                ),
            );
            match parse_packed(s, pos + 8, (n - 1) as nat, et) {
                Err(e) => Err(e),
                Ok((vs, end)) => Ok((seq![v] + vs, end)),
            }
        }
    } else {
        Err(WireError::Invalid)
    }
}

/// Parse one framed field.  A header byte below `0x80` is compact, one at
/// `0xC0` or above begins a header varint, and one in between is a single
/// extended header byte.
pub open spec fn parse_field(s: Seq<u8>, pos: int) -> Result<((u32, ValueModel), int), WireError> {
    if pos < 0 || pos >= s.len() {
        Err(WireError::Insufficient)
    } else {
        let h = s[pos];
        if h < 0x80 {
            match parse_value(s, pos + 1) {
                Err(e) => Err(e),
                Ok((v, end)) => Ok((((h / 4) as u32, v), end)),
            }
        } else if h >= 0xC0 {
            match parse_varint(s, pos) {
                None => Err(WireError::Insufficient),
                Some((u, p1)) => {
                    let id = (((u % 0x1_0000_0000_0000_0000) / 8) % 0x1_0000_0000) as u32;
                    match parse_value(s, p1) {
                        Err(e) => Err(e),
                        Ok((v, end)) => Ok(((id, v), end)),
                    }
                },
            }
        } else {
            match parse_value(s, pos + 1) {
                Err(e) => Err(e),
                Ok((v, end)) => Ok((((h / 8) as u32, v), end)),
            }
        }
    }
}

/// Parse fields until the buffer is exhausted or a field fails to parse;
/// incomplete trailing data is silently discarded.
pub open spec fn parse_fields(s: Seq<u8>, pos: int) -> Seq<(u32, ValueModel)>
    decreases s.len() - pos,
{
    if pos < 0 || pos >= s.len() {
        Seq::empty()
    } else {
        match parse_field(s, pos) {
            Err(_) => Seq::empty(),
            Ok((f, end)) => {
                if end <= pos || end > s.len() {
                    Seq::empty()
                } else {
                    seq![f] + parse_fields(s, end)
                }
            },
        }
    }
}

/// How reading fields to the end of the buffer stops: `Ok` when the
/// buffer is exhausted or ends inside a field (clean truncation), `Err`
/// when a field fails on malformed data at a valid field boundary (an
/// unknown type byte, non-UTF-8 text, or a bad packed element type).
pub open spec fn parse_fields_stop(s: Seq<u8>, pos: int) -> Result<(), WireError>
    decreases s.len() - pos,
{
    if pos < 0 || pos >= s.len() {
        Ok(())
    } else {
        match parse_field(s, pos) {
            Err(e) => if e == WireError::Insufficient {
                Ok(())
            } else {
                Err(e)
            },
            Ok((f, end)) => {
                if end <= pos || end > s.len() {
                    // a parsed field always advances; this branch is vacuous
                    Ok(())
                } else {
                    parse_fields_stop(s, end)
                }
            },
        }
    }
}

// ---------------------------------------------------------------------------
// Unrolling lemmas for the concatenated encodings
// ---------------------------------------------------------------------------

/// Extending a prefix of a value sequence by one element appends that
/// element's encoding.
pub proof fn lemma_values_bytes_take(es: Seq<ValueModel>, i: int)
    requires
        0 <= i < es.len(),
    ensures
        values_bytes(es.take(i + 1)) == values_bytes(es.take(i)) + value_bytes(es[i]),
    decreases i,
{
    if i == 0 {
        assert(es.take(0).len() == 0);
        assert(es.take(1) =~= seq![es[0]]);
        assert(es.take(1).drop_first() =~= Seq::<ValueModel>::empty());
        assert(es.take(1)[0] == es[0]);
        assert(values_bytes(Seq::<ValueModel>::empty()) =~= Seq::<u8>::empty());
        assert(values_bytes(es.take(0)) =~= Seq::<u8>::empty());
        assert(values_bytes(es.take(1)) =~= value_bytes(es[0]));
        assert(values_bytes(es.take(1)) =~= values_bytes(es.take(0)) + value_bytes(es[0]));
    } else {
        let d = es.drop_first();
        lemma_values_bytes_take(d, i - 1);
        assert(es.take(i + 1).drop_first() =~= d.take(i));
        assert(es.take(i).drop_first() =~= d.take(i - 1));
        assert(es.take(i + 1)[0] == es[0]);
        assert(es.take(i)[0] == es[0]);
        assert(d[i - 1] == es[i]);
        assert(values_bytes(es.take(i + 1)) =~= value_bytes(es[0]) + values_bytes(d.take(i)));
        assert(values_bytes(es.take(i)) + value_bytes(es[i]) =~= value_bytes(es[0]) + (
        values_bytes(d.take(i - 1)) + value_bytes(d[i - 1])));
    }
}

/// Extending a prefix of an entry sequence by one entry appends that
/// entry's encoding.
pub proof fn lemma_entries_bytes_take(en: Seq<(Seq<char>, ValueModel)>, i: int)
    requires
        0 <= i < en.len(),
    ensures
        entries_bytes(en.take(i + 1)) == entries_bytes(en.take(i)) + varint(
            encode_utf8(en[i].0).len(),
        ) + encode_utf8(en[i].0) + value_bytes(en[i].1),
    decreases i,
{
    if i == 0 {
        assert(en.take(0).len() == 0);
        assert(en.take(1) =~= seq![en[0]]);
        assert(en.take(1).drop_first() =~= Seq::<(Seq<char>, ValueModel)>::empty());
        assert(en.take(1)[0] == en[0]);
        assert(entries_bytes(Seq::<(Seq<char>, ValueModel)>::empty()) =~= Seq::<u8>::empty());
        assert(entries_bytes(en.take(0)) =~= Seq::<u8>::empty());
        assert(entries_bytes(en.take(1)) =~= varint(encode_utf8(en[0].0).len())
            + encode_utf8(en[0].0) + value_bytes(en[0].1));
        assert(entries_bytes(en.take(1)) =~= entries_bytes(en.take(0)) + varint(
            encode_utf8(en[0].0).len(),
        ) + encode_utf8(en[0].0) + value_bytes(en[0].1));
    } else {
        let d = en.drop_first();
        lemma_entries_bytes_take(d, i - 1);
        assert(en.take(i + 1).drop_first() =~= d.take(i));
        assert(en.take(i).drop_first() =~= d.take(i - 1));
        assert(en.take(i + 1)[0] == en[0]);
        assert(en.take(i)[0] == en[0]);
        assert(d[i - 1] == en[i]);
        assert(entries_bytes(en.take(i + 1)) =~= entries_bytes(en.take(i)) + varint(
            encode_utf8(en[i].0).len(),
        ) + encode_utf8(en[i].0) + value_bytes(en[i].1));
    }
}

/// Extending a prefix of a packed element sequence by one element appends
/// that element's payload.
#[verifier::rlimit(100)]
#[verifier::spinoff_prover]
pub proof fn lemma_packed_body_take(es: Seq<ValueModel>, i: int)
    requires
        0 <= i < es.len(),
    ensures
        packed_body(es.take(i + 1)) == packed_body(es.take(i)) + packed_elem_bytes(es[i]),
    decreases i,
{
    if i == 0 {
        assert(es.take(0).len() == 0);
        assert(es.take(1) =~= seq![es[0]]);
        assert(es.take(1).drop_first() =~= Seq::<ValueModel>::empty());
        assert(es.take(1)[0] == es[0]);
        assert(packed_body(Seq::<ValueModel>::empty()) =~= Seq::<u8>::empty());
        assert(packed_body(es.take(0)) =~= Seq::<u8>::empty());
        assert(packed_body(es.take(1)) =~= packed_elem_bytes(es[0]));
        assert(packed_body(es.take(1)) =~= packed_body(es.take(0)) + packed_elem_bytes(es[0]));
    } else {
        let d = es.drop_first();
        lemma_packed_body_take(d, i - 1);
        assert(es.take(i + 1).drop_first() =~= d.take(i));
        assert(es.take(i).drop_first() =~= d.take(i - 1));
        assert(es.take(i + 1)[0] == es[0]);
        assert(es.take(i)[0] == es[0]);
        assert(d[i - 1] == es[i]);
        assert(packed_body(es.take(i + 1)) =~= packed_body(es.take(i)) + packed_elem_bytes(
            es[i],
        ));
    }
}

/// Extending a prefix of a field sequence by one field appends that
/// field's encoding.
pub proof fn lemma_fields_bytes_take(fs: Seq<(u32, ValueModel)>, i: int)
    requires
        0 <= i < fs.len(),
    ensures
        fields_bytes(fs.take(i + 1)) == fields_bytes(fs.take(i)) + field_bytes(fs[i].0, fs[i].1),
    decreases i,
{
    if i == 0 {
        assert(fs.take(0).len() == 0);
        assert(fs.take(1) =~= seq![fs[0]]);
        assert(fs.take(1).drop_first() =~= Seq::<(u32, ValueModel)>::empty());
        assert(fs.take(1)[0] == fs[0]);
        assert(fields_bytes(Seq::<(u32, ValueModel)>::empty()) =~= Seq::<u8>::empty());
        assert(fields_bytes(fs.take(0)) =~= Seq::<u8>::empty());
        assert(fields_bytes(fs.take(1)) =~= field_bytes(fs[0].0, fs[0].1));
        assert(fields_bytes(fs.take(1)) =~= fields_bytes(fs.take(0)) + field_bytes(
            fs[0].0,
            fs[0].1,
        ));
    } else {
        let d = fs.drop_first();
        lemma_fields_bytes_take(d, i - 1);
        assert(fs.take(i + 1).drop_first() =~= d.take(i));
        assert(fs.take(i).drop_first() =~= d.take(i - 1));
        assert(fs.take(i + 1)[0] == fs[0]);
        assert(fs.take(i)[0] == fs[0]);
        assert(d[i - 1] == fs[i]);
        assert(fields_bytes(fs.take(i + 1)) =~= fields_bytes(fs.take(i)) + field_bytes(
            fs[i].0,
            fs[i].1,
        ));
    }
}

/// Parse a chunk-start record body (the type byte is already consumed).
pub open spec fn parse_chunk_start(s: Seq<u8>, pos: int) -> Result<((u16, u32), int), WireError> {
    if pos < 0 || pos + 6 > s.len() {
        Err(WireError::Insufficient)
    } else {
        Ok((
            (
                u16_of_be(s[pos], s[pos + 1]),
                u32_of_be(s[pos + 2], s[pos + 3], s[pos + 4], s[pos + 5]),
            ),
            pos + 6,
        ))
    }
}

/// Parse a chunk-data record body (the type byte is already consumed).
pub open spec fn parse_chunk_data(s: Seq<u8>, pos: int) -> Result<((u16, Seq<u8>), int), WireError> {
    if pos < 0 || pos + 4 > s.len() {
        Err(WireError::Insufficient)
    } else {
        let n = u16_of_be(s[pos + 2], s[pos + 3]) as int;
        if pos + 4 + n > s.len() {
            Err(WireError::Insufficient)
        } else {
            Ok(((u16_of_be(s[pos], s[pos + 1]), s.subrange(pos + 4, pos + 4 + n)), pos + 4 + n))
        }
    }
}

} // verus!
