//! The round-trip laws of the wire format: what the decoder makes of what
//! the encoder wrote.
//!
//! The central theorem is [`lemma_parse_value_at`]: a well-formed,
//! decodable value parses back to itself wherever its bytes stand in a
//! buffer.  Around it stand the laws for varints, zigzag, field framing,
//! whole messages and packet headers.
//!
//! Two corners of the format are ambiguous on the wire, and the laws
//! carve them out via [`decodable`] and [`field_id_decodable`]: a string
//! of 128 bytes or more starts its length varint with a byte that reads
//! as an inline-string marker, and an inline integer is told apart from
//! a zigzag varint only by where the buffer ends.  Field ids 32 through
//! 63 collide with the extended header forms, as do ids of 64 and above
//! whose fourth-lowest bit is clear.

use vstd::prelude::*;
use vstd::utf8::{encode_utf8, decode_utf8};
use crate::value::{ValueModel, wf_value};
use crate::wire::{varint, parse_varint, zigzag32, unzigzag32, zigzag64, unzigzag64,
    small_int_byte, sign_extend7, int32_payload, int64_payload, be_bytes_u16, be_bytes_u32,
    be_bytes_u64, u16_of_be, u32_of_be, u64_of_be, value_bytes, values_bytes, entries_bytes,
    packed_body, packed_elem_bytes, packable, packed_type_code, all_int32, all_int64,
    all_float32, all_float64, wire_hint, header_bytes, field_bytes, fields_bytes, WireError,
    parse_value, parse_elems, parse_entries, parse_packed, parse_int32_payload,
    parse_int64_payload, parse_field, parse_fields, parse_fields_stop, unique_entry_keys,
    lemma_dedup_entries_unique};
use crate::keyed::{unique_keys, keyed_map};
use crate::network::{PacketModel, packet_bytes, parse_packet};

verus! {

// ---------------------------------------------------------------------------
// Varints
// ---------------------------------------------------------------------------

/// A varint's bytes parse back to its value, wherever they stand.
pub proof fn lemma_parse_varint_at(s: Seq<u8>, pos: int, n: nat)
    requires
        0 <= pos,
        pos + varint(n).len() <= s.len(),
        s.subrange(pos, pos + varint(n).len() as int) == varint(n),
    ensures
        parse_varint(s, pos) == Some((n, pos + varint(n).len() as int)),
    decreases n,
{
    let vb = varint(n);
    assert(s.subrange(pos, pos + vb.len() as int)[0] == s[pos]);
    if n < 128 {
        assert(s[pos] == n as u8);
    } else {
        let rest = varint(n / 128);
        assert(s[pos] == (128 + n % 128) as u8);
        assert(s.subrange(pos + 1, pos + 1 + rest.len() as int) =~= rest) by {
            assert forall|j: int| 0 <= j < rest.len() implies s.subrange(
                pos + 1,
                pos + 1 + rest.len() as int,
            )[j] == rest[j] by {
                assert(s.subrange(pos, pos + vb.len() as int)[j + 1] == vb[j + 1]);
            }
        }
        lemma_parse_varint_at(s, pos + 1, n / 128);
        assert((s[pos] - 128) as nat + 128 * (n / 128) == n) by {
            vstd::arithmetic::div_mod::lemma_fundamental_div_mod(n as int, 128);
        }
    }
}

/// Round trip of varints (instance at the start of the exact buffer),
/// with the encoded length: one byte per seven significant bits, and one
/// byte for zero.
pub proof fn lemma_varint_round_trip(u: nat)
    ensures
        parse_varint(varint(u), 0) == Some((u, varint(u).len() as int)),
        u < 0x80 ==> varint(u).len() == 1,
        0x80 <= u < 0x4000 ==> varint(u).len() == 2,
        0x4000 <= u < 0x20_0000 ==> varint(u).len() == 3,
        0x20_0000 <= u < 0x1000_0000 ==> varint(u).len() == 4,
        0x1000_0000 <= u < 0x8_0000_0000 ==> varint(u).len() == 5,
    decreases u,
{
    assert(varint(u).subrange(0, varint(u).len() as int) =~= varint(u));
    lemma_parse_varint_at(varint(u), 0, u);
    if u >= 128 {
        lemma_varint_round_trip(u / 128);
    }
}

// ---------------------------------------------------------------------------
// ZigZag
// ---------------------------------------------------------------------------

/// ZigZag is inverted by its decoder on every 32-bit integer.
pub proof fn lemma_zigzag32_round_trip(n: int)
    requires
        -0x8000_0000 <= n < 0x8000_0000,
    ensures
        unzigzag32(zigzag32(n)) == n,
        zigzag32(n) < 0x1_0000_0000,
{
}

/// ZigZag is inverted by its decoder on every 64-bit integer.
pub proof fn lemma_zigzag64_round_trip(n: int)
    requires
        -0x8000_0000_0000_0000 <= n < 0x8000_0000_0000_0000,
    ensures
        unzigzag64(zigzag64(n)) == n,
        zigzag64(n) < 0x1_0000_0000_0000_0000,
{
}

// ---------------------------------------------------------------------------
// Big-endian fields
// ---------------------------------------------------------------------------

/// A `u16` survives its big-endian bytes.
pub proof fn lemma_u16_be_round_trip(x: u16)
    ensures
        u16_of_be(be_bytes_u16(x)[0], be_bytes_u16(x)[1]) == x,
{
}

/// A `u32` survives its big-endian bytes.
pub proof fn lemma_u32_be_round_trip(x: u32)
    ensures
        u32_of_be(
            be_bytes_u32(x)[0],
            be_bytes_u32(x)[1],
            be_bytes_u32(x)[2],
            be_bytes_u32(x)[3],
        ) == x,
{
}

/// A `u64` survives its big-endian bytes.
pub proof fn lemma_u64_be_round_trip(x: u64)
    ensures
        u64_of_be(
            be_bytes_u64(x)[0],
            be_bytes_u64(x)[1],
            be_bytes_u64(x)[2],
            be_bytes_u64(x)[3],
            be_bytes_u64(x)[4],
            be_bytes_u64(x)[5],
            be_bytes_u64(x)[6],
            be_bytes_u64(x)[7],
        ) == x,
{
    let hi = x as int / 0x1_0000_0000;
    let lo = x as int % 0x1_0000_0000;
    vstd::arithmetic::div_mod::lemma_fundamental_div_mod(x as int, 0x1_0000_0000);
    // the four high bytes are the big-endian bytes of the high half
    vstd::arithmetic::div_mod::lemma_div_denominator(x as int, 0x1_0000_0000, 0x100_0000);
    vstd::arithmetic::div_mod::lemma_div_denominator(x as int, 0x1_0000_0000, 0x1_0000);
    vstd::arithmetic::div_mod::lemma_div_denominator(x as int, 0x1_0000_0000, 0x100);
    assert(be_bytes_u64(x)[0] == be_bytes_u32(hi as u32)[0]);
    assert(be_bytes_u64(x)[1] == be_bytes_u32(hi as u32)[1]);
    assert(be_bytes_u64(x)[2] == be_bytes_u32(hi as u32)[2]);
    assert(be_bytes_u64(x)[3] == be_bytes_u32(hi as u32)[3]);
    // the four low bytes are the big-endian bytes of the low half
    vstd::arithmetic::div_mod::lemma_mod_breakdown(x as int, 0x100_0000, 0x100);
    vstd::arithmetic::div_mod::lemma_basic_div(x as int % 0x100_0000, 0x100_0000);
    vstd::arithmetic::div_mod::lemma_mod_breakdown(x as int, 0x1_0000, 0x1_0000);
    vstd::arithmetic::div_mod::lemma_basic_div(x as int % 0x1_0000, 0x1_0000);
    vstd::arithmetic::div_mod::lemma_mod_mod(x as int / 0x1_0000, 0x100, 0x100);
    vstd::arithmetic::div_mod::lemma_mod_breakdown(x as int, 0x100, 0x100_0000);
    vstd::arithmetic::div_mod::lemma_basic_div(x as int % 0x100, 0x100);
    vstd::arithmetic::div_mod::lemma_mod_mod(x as int / 0x100, 0x100, 0x10000);
    vstd::arithmetic::div_mod::lemma_mod_mod(x as int, 0x100, 0x100_0000);
    assert(lo / 0x100_0000 == (x as int / 0x100_0000) % 0x100);
    assert(lo / 0x1_0000 == (x as int / 0x1_0000) % 0x1_0000);
    assert((lo / 0x1_0000) % 0x100 == ((x as int / 0x1_0000) % 0x1_0000) % 0x100);
    assert(lo / 0x100 == (x as int / 0x100) % 0x100_0000);
    assert((lo / 0x100) % 0x100 == ((x as int / 0x100) % 0x100_0000) % 0x100);
    assert(lo % 0x100 == x as int % 0x100);
    assert(be_bytes_u64(x)[4] == be_bytes_u32(lo as u32)[0]);
    assert(be_bytes_u64(x)[5] == be_bytes_u32(lo as u32)[1]);
    assert(be_bytes_u64(x)[6] == be_bytes_u32(lo as u32)[2]);
    assert(be_bytes_u64(x)[7] == be_bytes_u32(lo as u32)[3]);
    lemma_u32_be_round_trip(hi as u32);
    lemma_u32_be_round_trip(lo as u32);
}

// ---------------------------------------------------------------------------
// The round trip of values
// ---------------------------------------------------------------------------

/// Whether a value's encoding parses back to the value itself, given
/// whether more bytes follow it in the buffer.  Two wire ambiguities are
/// excluded: a string of 128 bytes or more (its length varint starts
/// with a marker byte), and an inline small integer that is not the last
/// thing in the buffer (its marker byte reads as a varint continuation
/// when anything follows).  Packed arrays are free of both.  An object's
/// keys must also be pairwise distinct, since the decoder collapses
/// duplicates.
pub open spec fn decodable(v: ValueModel, followed: bool) -> bool
    decreases v,
{
    match v {
        ValueModel::Int32(n) => (-64 <= n <= 63) ==> !followed,
        ValueModel::Int64(n) => (-64 <= n <= 63) ==> !followed,
        ValueModel::Str(cs) => encode_utf8(cs).len() < 128,
        ValueModel::Arr(es) => packable(es) || (forall|i: int|
            0 <= i < es.len() ==> decodable(
                #[trigger] es[i],
                if i < es.len() - 1 {
                    true
                } else {
                    followed
                },
            )),
        ValueModel::Obj(en) => unique_entry_keys(en) && (forall|i: int|
            0 <= i < en.len() ==> decodable(
                (#[trigger] en[i]).1,
                if i < en.len() - 1 {
                    true
                } else {
                    followed
                },
            )),
        _ => true,
    }
}

/// Every value encoding starts with its type byte.
pub proof fn lemma_value_bytes_nonempty(v: ValueModel)
    ensures
        value_bytes(v).len() >= 1,
{
}

/// Splitting a known subrange at a concatenation boundary.
proof fn lemma_subrange_split(s: Seq<u8>, pos: int, a: Seq<u8>, b: Seq<u8>)
    requires
        0 <= pos,
        pos + a.len() + b.len() <= s.len(),
        s.subrange(pos, pos + a.len() + b.len()) == a + b,
    ensures
        s.subrange(pos, pos + a.len() as int) == a,
        s.subrange(pos + a.len() as int, pos + a.len() + b.len()) == b,
{
    assert(s.subrange(pos, pos + a.len() as int) =~= a) by {
        assert forall|j: int| 0 <= j < a.len() implies s.subrange(pos, pos + a.len() as int)[j]
            == a[j] by {
            assert(s.subrange(pos, pos + a.len() + b.len())[j] == (a + b)[j]);
        }
    }
    assert(s.subrange(pos + a.len() as int, pos + a.len() + b.len()) =~= b) by {
        assert forall|j: int| 0 <= j < b.len() implies s.subrange(
            pos + a.len() as int,
            pos + a.len() + b.len(),
        )[j] == b[j] by {
            assert(s.subrange(pos, pos + a.len() + b.len())[j + a.len()] == (a + b)[j
                + a.len()]);
            assert((a + b)[j + a.len()] == b[j]);
        }
    }
}

/// Splitting a known subrange at three concatenation boundaries.
proof fn lemma_subrange_split4(s: Seq<u8>, pos: int, a: Seq<u8>, b: Seq<u8>, c: Seq<u8>, d: Seq<u8>)
    requires
        0 <= pos,
        pos + a.len() + b.len() + c.len() + d.len() <= s.len(),
        s.subrange(pos, pos + a.len() + b.len() + c.len() + d.len()) == a + b + c + d,
    ensures
        s.subrange(pos, pos + a.len() as int) == a,
        s.subrange(pos + a.len() as int, pos + a.len() + b.len()) == b,
        s.subrange(pos + a.len() + b.len(), pos + a.len() + b.len() + c.len()) == c,
        s.subrange(
            pos + a.len() + b.len() + c.len(),
            pos + a.len() + b.len() + c.len() + d.len(),
        ) == d,
{
    assert(a + b + c + d =~= a + (b + (c + d)));
    lemma_subrange_split(s, pos, a, b + (c + d));
    assert(b + (c + d) =~= b + (c + d));
    lemma_subrange_split(s, pos + a.len() as int, b, c + d);
    lemma_subrange_split(s, pos + a.len() + b.len(), c, d);
}

/// An `Int32` payload parses back to its value; an inline payload only
/// at the very end of the buffer.
proof fn lemma_parse_int32_at(s: Seq<u8>, pos: int, n: i32)
    requires
        0 <= pos,
        pos + int32_payload(n as int).len() <= s.len(),
        s.subrange(pos, pos + int32_payload(n as int).len() as int) == int32_payload(n as int),
        (-64 <= n <= 63) ==> pos + 1 == s.len(),
    ensures
        parse_int32_payload(s, pos) == Ok::<(ValueModel, int), WireError>(
            (ValueModel::Int32(n), pos + int32_payload(n as int).len()),
        ),
{
    assert(s.subrange(pos, pos + int32_payload(n as int).len() as int)[0] == s[pos]);
    if -64 <= n <= 63 {
        assert(s[pos] == small_int_byte(n as int));
        assert(s[pos] >= 128);
        assert(parse_varint(s, pos + 1) is None);
        assert(parse_varint(s, pos) is None);
        assert(sign_extend7(s[pos]) == n);
    } else {
        let zz = zigzag32(n as int);
        lemma_zigzag32_round_trip(n as int);
        assert(zz >= 128);
        lemma_parse_varint_at(s, pos, zz);
        vstd::arithmetic::div_mod::lemma_small_mod(zz, 0x1_0000_0000nat);
    }
}

/// An `Int64` payload parses back to its value; an inline payload only
/// at the very end of the buffer.
proof fn lemma_parse_int64_at(s: Seq<u8>, pos: int, n: i64)
    requires
        0 <= pos,
        pos + int64_payload(n as int).len() <= s.len(),
        s.subrange(pos, pos + int64_payload(n as int).len() as int) == int64_payload(n as int),
        (-64 <= n <= 63) ==> pos + 1 == s.len(),
    ensures
        parse_int64_payload(s, pos) == Ok::<(ValueModel, int), WireError>(
            (ValueModel::Int64(n), pos + int64_payload(n as int).len()),
        ),
{
    assert(s.subrange(pos, pos + int64_payload(n as int).len() as int)[0] == s[pos]);
    if -64 <= n <= 63 {
        assert(s[pos] == small_int_byte(n as int));
        assert(s[pos] >= 128);
        assert(parse_varint(s, pos + 1) is None);
        assert(parse_varint(s, pos) is None);
        assert(sign_extend7(s[pos]) == n);
    } else {
        let zz = zigzag64(n as int);
        lemma_zigzag64_round_trip(n as int);
        assert(zz >= 128);
        lemma_parse_varint_at(s, pos, zz);
        vstd::arithmetic::div_mod::lemma_small_mod(zz, 0x1_0000_0000_0000_0000nat);
    }
}

/// The central theorem: a well-formed, decodable value parses back to
/// itself wherever its bytes stand in a buffer.
#[verifier::rlimit(100)]
#[verifier::spinoff_prover]
pub proof fn lemma_parse_value_at(v: ValueModel, s: Seq<u8>, pos: int)
    requires
        wf_value(v),
        0 <= pos,
        pos + value_bytes(v).len() <= s.len(),
        s.subrange(pos, pos + value_bytes(v).len() as int) == value_bytes(v),
        decodable(v, pos + value_bytes(v).len() < s.len()),
    ensures
        parse_value(s, pos) == Ok::<(ValueModel, int), WireError>(
            (v, pos + value_bytes(v).len()),
        ),
    decreases v,
{
    let vb = value_bytes(v);
    let end = pos + vb.len();
    assert(s.subrange(pos, end as int)[0] == s[pos]);
    match v {
        ValueModel::Null => {
            assert(s[pos] == 0x00);
        },
        ValueModel::Bool(b) => {
            if b {
                assert(s[pos] == 0x01);
            } else {
                assert(s[pos] == 0xFF);
            }
        },
        ValueModel::Int32(n) => {
            assert(s[pos] == 0x02);
            lemma_subrange_split(s, pos, seq![0x02u8], int32_payload(n as int));
            lemma_parse_int32_at(s, pos + 1, n);
        },
        ValueModel::Int64(n) => {
            assert(s[pos] == 0x03);
            lemma_subrange_split(s, pos, seq![0x03u8], int64_payload(n as int));
            lemma_parse_int64_at(s, pos + 1, n);
        },
        ValueModel::Float32(bits) => {
            assert(s[pos] == 0x04);
            lemma_subrange_split(s, pos, seq![0x04u8], be_bytes_u32(bits));
            let body = s.subrange(pos + 1, pos + 5);
            assert(s[pos + 1] == be_bytes_u32(bits)[0] && s[pos + 2] == be_bytes_u32(bits)[1]
                && s[pos + 3] == be_bytes_u32(bits)[2] && s[pos + 4] == be_bytes_u32(bits)[3])
                by {
                assert(body[0] == be_bytes_u32(bits)[0]);
                assert(body[1] == be_bytes_u32(bits)[1]);
                assert(body[2] == be_bytes_u32(bits)[2]);
                assert(body[3] == be_bytes_u32(bits)[3]);
            }
            lemma_u32_be_round_trip(bits);
        },
        ValueModel::Float64(bits) => {
            assert(s[pos] == 0x05);
            lemma_subrange_split(s, pos, seq![0x05u8], be_bytes_u64(bits));
            let body = s.subrange(pos + 1, pos + 9);
            assert(s[pos + 1] == be_bytes_u64(bits)[0] && s[pos + 2] == be_bytes_u64(bits)[1]
                && s[pos + 3] == be_bytes_u64(bits)[2] && s[pos + 4] == be_bytes_u64(bits)[3]
                && s[pos + 5] == be_bytes_u64(bits)[4] && s[pos + 6] == be_bytes_u64(bits)[5]
                && s[pos + 7] == be_bytes_u64(bits)[6] && s[pos + 8] == be_bytes_u64(bits)[7])
                by {
                assert(body[0] == be_bytes_u64(bits)[0]);
                assert(body[1] == be_bytes_u64(bits)[1]);
                assert(body[2] == be_bytes_u64(bits)[2]);
                assert(body[3] == be_bytes_u64(bits)[3]);
                assert(body[4] == be_bytes_u64(bits)[4]);
                assert(body[5] == be_bytes_u64(bits)[5]);
                assert(body[6] == be_bytes_u64(bits)[6]);
                assert(body[7] == be_bytes_u64(bits)[7]);
            }
            lemma_u64_be_round_trip(bits);
        },
        ValueModel::SmallStr(cs) => {
            let b = encode_utf8(cs);
            assert(s[pos] == 0x06);
            lemma_subrange_split(s, pos, seq![0x06u8, (128 + b.len()) as u8], b);
            assert(s.subrange(pos, end as int)[1] == (128 + b.len()) as u8);
            assert(s[pos + 1] == 128 + b.len());
            vstd::utf8::encode_utf8_valid_utf8(cs);
            vstd::utf8::encode_utf8_decode_utf8(cs);
        },
        ValueModel::Str(cs) => {
            let b = encode_utf8(cs);
            assert(s[pos] == 0x06);
            assert(varint(b.len()) =~= seq![b.len() as u8]);
            assert(vb =~= seq![0x06u8, b.len() as u8] + b);
            lemma_subrange_split(s, pos, seq![0x06u8, b.len() as u8], b);
            assert(s.subrange(pos, end as int)[1] == b.len() as u8);
            assert(s[pos + 1] == b.len() as u8);
            assert(s[pos + 1] < 128);
            assert(parse_varint(s, pos + 1) == Some((b.len() as nat, pos + 2)));
            vstd::arithmetic::div_mod::lemma_small_mod(b.len(), 0x1_0000_0000nat);
            vstd::utf8::encode_utf8_valid_utf8(cs);
            vstd::utf8::encode_utf8_decode_utf8(cs);
        },
        ValueModel::Bin(bb) => {
            assert(s[pos] == 0x07);
            assert(vb =~= seq![0x07u8] + (varint(bb.len()) + bb));
            lemma_subrange_split(s, pos, seq![0x07u8], varint(bb.len()) + bb);
            lemma_subrange_split(s, pos + 1, varint(bb.len()), bb);
            lemma_parse_varint_at(s, pos + 1, bb.len());
            vstd::arithmetic::div_mod::lemma_small_mod(bb.len(), 0x1_0000_0000nat);
        },
        ValueModel::Arr(es) => {
            if packable(es) {
                let code = packed_type_code(es);
                assert(s[pos] == 0x88);
                assert(vb =~= seq![0x88u8, code] + (varint(es.len()) + packed_body(es)));
                lemma_subrange_split(
                    s,
                    pos,
                    seq![0x88u8, code],
                    varint(es.len()) + packed_body(es),
                );
                lemma_subrange_split(s, pos + 2, varint(es.len()), packed_body(es));
                assert(s.subrange(pos, end as int)[1] == code);
                assert(s[pos + 1] == code);
                lemma_parse_varint_at(s, pos + 2, es.len());
                vstd::arithmetic::div_mod::lemma_small_mod(es.len(), 0x1_0000_0000nat);
                let p1 = pos + 2 + varint(es.len()).len();
                lemma_parse_packed_at(es, s, p1 as int, code);
            } else {
                assert(s[pos] == 0x08);
                assert(vb =~= seq![0x08u8] + (varint(es.len()) + values_bytes(es)));
                lemma_subrange_split(s, pos, seq![0x08u8], varint(es.len()) + values_bytes(es));
                lemma_subrange_split(s, pos + 1, varint(es.len()), values_bytes(es));
                lemma_parse_varint_at(s, pos + 1, es.len());
                vstd::arithmetic::div_mod::lemma_small_mod(es.len(), 0x1_0000_0000nat);
                let p1 = pos + 1 + varint(es.len()).len();
                lemma_parse_elems_at(es, s, p1 as int);
            }
        },
        ValueModel::Obj(en) => {
            assert(s[pos] == 0x09);
            assert(vb =~= seq![0x09u8] + (varint(en.len()) + entries_bytes(en)));
            lemma_subrange_split(s, pos, seq![0x09u8], varint(en.len()) + entries_bytes(en));
            lemma_subrange_split(s, pos + 1, varint(en.len()), entries_bytes(en));
            lemma_parse_varint_at(s, pos + 1, en.len());
            vstd::arithmetic::div_mod::lemma_small_mod(en.len(), 0x1_0000_0000nat);
            let p1 = pos + 1 + varint(en.len()).len();
            lemma_parse_entries_at(en, s, p1 as int);
            lemma_dedup_entries_unique(en);
        },
    }
}

/// A sequence of value encodings parses back element by element.
#[verifier::rlimit(100)]
#[verifier::spinoff_prover]
proof fn lemma_parse_elems_at(es: Seq<ValueModel>, s: Seq<u8>, pos: int)
    requires
        0 <= pos,
        forall|i: int| 0 <= i < es.len() ==> wf_value(#[trigger] es[i]),
        pos + values_bytes(es).len() <= s.len(),
        s.subrange(pos, pos + values_bytes(es).len() as int) == values_bytes(es),
        forall|i: int| 0 <= i < es.len() ==> decodable(
            #[trigger] es[i],
            if i < es.len() - 1 {
                true
            } else {
                pos + values_bytes(es).len() < s.len()
            },
        ),
    ensures
        parse_elems(s, pos, es.len() as nat) == Ok::<(Seq<ValueModel>, int), WireError>(
            (es, pos + values_bytes(es).len()),
        ),
    decreases es,
{
    if es.len() == 0 {
        assert(values_bytes(es).len() == 0);
        assert(es =~= Seq::<ValueModel>::empty());
    } else {
        let vb0 = value_bytes(es[0]);
        let rest = values_bytes(es.drop_first());
        assert(values_bytes(es) == vb0 + rest);
        lemma_subrange_split(s, pos, vb0, rest);
        lemma_value_bytes_nonempty(es[0]);
        if es.len() > 1 {
            lemma_value_bytes_nonempty(es.drop_first()[0]);
            assert(rest.len() >= 1);
        }
        assert(decodable(es[0], pos + vb0.len() < s.len()));
        lemma_parse_value_at(es[0], s, pos);
        assert forall|i: int| 0 <= i < es.drop_first().len() implies wf_value(
            #[trigger] es.drop_first()[i],
        ) && decodable(
            es.drop_first()[i],
            if i < es.drop_first().len() - 1 {
                true
            } else {
                pos + vb0.len() + rest.len() < s.len()
            },
        ) by {
            assert(es.drop_first()[i] == es[i + 1]);
        }
        lemma_parse_elems_at(es.drop_first(), s, pos + vb0.len());
        assert(seq![es[0]] + es.drop_first() =~= es);
        assert(parse_value(s, pos) == Ok::<(ValueModel, int), WireError>(
            (es[0], pos + vb0.len()),
        ));
        assert(es.drop_first().len() == es.len() - 1);
        assert(parse_elems(s, pos + vb0.len() as int, (es.len() - 1) as nat) == Ok::<
            (Seq<ValueModel>, int),
            WireError,
        >((es.drop_first(), pos + vb0.len() + rest.len())));
        assert(pos + vb0.len() + rest.len() == pos + values_bytes(es).len());
        assert(parse_elems(s, pos, es.len() as nat) == Ok::<(Seq<ValueModel>, int), WireError>(
            (es, pos + values_bytes(es).len()),
        )) by {
            reveal_with_fuel(crate::wire::parse_elems, 2);
        }
    }
}

/// A sequence of entry encodings parses back entry by entry.
#[verifier::rlimit(100)]
#[verifier::spinoff_prover]
proof fn lemma_parse_entries_at(en: Seq<(Seq<char>, ValueModel)>, s: Seq<u8>, pos: int)
    requires
        0 <= pos,
        forall|i: int| 0 <= i < en.len() ==> wf_value((#[trigger] en[i]).1) && encode_utf8(
            en[i].0,
        ).len() < 0x1_0000_0000,
        pos + entries_bytes(en).len() <= s.len(),
        s.subrange(pos, pos + entries_bytes(en).len() as int) == entries_bytes(en),
        forall|i: int| 0 <= i < en.len() ==> decodable(
            (#[trigger] en[i]).1,
            if i < en.len() - 1 {
                true
            } else {
                pos + entries_bytes(en).len() < s.len()
            },
        ),
    ensures
        parse_entries(s, pos, en.len() as nat) == Ok::<
            (Seq<(Seq<char>, ValueModel)>, int),
            WireError,
        >((en, pos + entries_bytes(en).len())),
    decreases en,
{
    if en.len() == 0 {
        assert(entries_bytes(en).len() == 0);
        assert(en =~= Seq::<(Seq<char>, ValueModel)>::empty());
    } else {
        let kb = encode_utf8(en[0].0);
        let kv = varint(kb.len());
        let vb0 = value_bytes(en[0].1);
        let rest = entries_bytes(en.drop_first());
        assert(entries_bytes(en) == kv + kb + vb0 + rest);
        lemma_subrange_split4(s, pos, kv, kb, vb0, rest);
        lemma_parse_varint_at(s, pos, kb.len());
        vstd::arithmetic::div_mod::lemma_small_mod(kb.len(), 0x1_0000_0000nat);
        vstd::utf8::encode_utf8_valid_utf8(en[0].0);
        vstd::utf8::encode_utf8_decode_utf8(en[0].0);
        let p1 = pos + kv.len() as int;
        let pv = p1 + kb.len() as int;
        lemma_value_bytes_nonempty(en[0].1);
        if en.len() > 1 {
            let dn = en.drop_first();
            assert(entries_bytes(dn) == varint(encode_utf8(dn[0].0).len()) + encode_utf8(
                dn[0].0,
            ) + value_bytes(dn[0].1) + entries_bytes(dn.drop_first()));
            assert(rest.len() >= 1);
        }
        assert(decodable(en[0].1, pv + vb0.len() < s.len()));
        lemma_parse_value_at(en[0].1, s, pv);
        assert forall|i: int| 0 <= i < en.drop_first().len() implies wf_value(
            (#[trigger] en.drop_first()[i]).1,
        ) && encode_utf8(en.drop_first()[i].0).len() < 0x1_0000_0000 && decodable(
            en.drop_first()[i].1,
            if i < en.drop_first().len() - 1 {
                true
            } else {
                pv + vb0.len() + rest.len() < s.len()
            },
        ) by {
            assert(en.drop_first()[i] == en[i + 1]);
        }
        lemma_parse_entries_at(en.drop_first(), s, pv + vb0.len());
        assert(seq![(en[0].0, en[0].1)] + en.drop_first() =~= en);
        assert((decode_utf8(kb), (parse_value(s, pv)->Ok_0).0) == (en[0].0, en[0].1));
        assert(en.drop_first().len() == en.len() - 1);
        assert(pv + vb0.len() + rest.len() == pos + entries_bytes(en).len());
        assert(parse_entries(s, pos, en.len() as nat) == Ok::<
            (Seq<(Seq<char>, ValueModel)>, int),
            WireError,
        >((en, pos + entries_bytes(en).len()))) by {
            reveal_with_fuel(crate::wire::parse_entries, 2);
        }
    }
}

/// A packed body parses back element by element.
#[verifier::rlimit(100)]
#[verifier::spinoff_prover]
proof fn lemma_parse_packed_at(es: Seq<ValueModel>, s: Seq<u8>, pos: int, et: u8)
    requires
        0 <= pos,
        (et == 0x02 && all_int32(es)) || (et == 0x03 && all_int64(es)) || (et == 0x04
            && all_float32(es)) || (et == 0x05 && all_float64(es)),
        pos + packed_body(es).len() <= s.len(),
        s.subrange(pos, pos + packed_body(es).len() as int) == packed_body(es),
    ensures
        parse_packed(s, pos, es.len() as nat, et) == Ok::<(Seq<ValueModel>, int), WireError>(
            (es, pos + packed_body(es).len()),
        ),
    decreases es,
{
    if es.len() == 0 {
        assert(packed_body(es).len() == 0);
        assert(es =~= Seq::<ValueModel>::empty());
    } else {
        let eb = packed_elem_bytes(es[0]);
        let rest = packed_body(es.drop_first());
        assert(packed_body(es) == eb + rest);
        lemma_subrange_split(s, pos, eb, rest);
        let p1 = pos + eb.len() as int;
        match es[0] {
            ValueModel::Int32(n) => {
                lemma_zigzag32_round_trip(n as int);
                lemma_parse_varint_at(s, pos, zigzag32(n as int));
                vstd::arithmetic::div_mod::lemma_small_mod(
                    zigzag32(n as int),
                    0x1_0000_0000nat,
                );
            },
            ValueModel::Int64(n) => {
                lemma_zigzag64_round_trip(n as int);
                lemma_parse_varint_at(s, pos, zigzag64(n as int));
                vstd::arithmetic::div_mod::lemma_small_mod(
                    zigzag64(n as int),
                    0x1_0000_0000_0000_0000nat,
                );
            },
            ValueModel::Float32(bits) => {
                assert(s[pos] == be_bytes_u32(bits)[0] && s[pos + 1] == be_bytes_u32(bits)[1]
                    && s[pos + 2] == be_bytes_u32(bits)[2] && s[pos + 3] == be_bytes_u32(
                    bits,
                )[3]) by {
                    let body = s.subrange(pos, pos + 4);
                    assert(body[0] == be_bytes_u32(bits)[0]);
                    assert(body[1] == be_bytes_u32(bits)[1]);
                    assert(body[2] == be_bytes_u32(bits)[2]);
                    assert(body[3] == be_bytes_u32(bits)[3]);
                }
                lemma_u32_be_round_trip(bits);
            },
            ValueModel::Float64(bits) => {
                assert(s[pos] == be_bytes_u64(bits)[0] && s[pos + 1] == be_bytes_u64(bits)[1]
                    && s[pos + 2] == be_bytes_u64(bits)[2] && s[pos + 3] == be_bytes_u64(
                    bits,
                )[3] && s[pos + 4] == be_bytes_u64(bits)[4] && s[pos + 5] == be_bytes_u64(
                    bits,
                )[5] && s[pos + 6] == be_bytes_u64(bits)[6] && s[pos + 7] == be_bytes_u64(
                    bits,
                )[7]) by {
                    let body = s.subrange(pos, pos + 8);
                    assert(body[0] == be_bytes_u64(bits)[0]);
                    assert(body[1] == be_bytes_u64(bits)[1]);
                    assert(body[2] == be_bytes_u64(bits)[2]);
                    assert(body[3] == be_bytes_u64(bits)[3]);
                    assert(body[4] == be_bytes_u64(bits)[4]);
                    assert(body[5] == be_bytes_u64(bits)[5]);
                    assert(body[6] == be_bytes_u64(bits)[6]);
                    assert(body[7] == be_bytes_u64(bits)[7]);
                }
                lemma_u64_be_round_trip(bits);
            },
            _ => {
                assert(false);
            },
        }
        assert forall|i: int| 0 <= i < es.drop_first().len() implies es.drop_first()[i]
            == es[i + 1] by {}
        lemma_parse_packed_at(es.drop_first(), s, p1, et);
        assert(seq![es[0]] + es.drop_first() =~= es);
        assert(es.drop_first().len() == es.len() - 1);
        assert(parse_packed(s, p1, (es.len() - 1) as nat, et) == Ok::<
            (Seq<ValueModel>, int),
            WireError,
        >((es.drop_first(), p1 + rest.len())));
        assert(p1 + rest.len() == pos + packed_body(es).len());
        assert(parse_packed(s, pos, es.len() as nat, et) == Ok::<
            (Seq<ValueModel>, int),
            WireError,
        >((es, pos + packed_body(es).len()))) by {
            reveal_with_fuel(crate::wire::parse_packed, 2);
        }
    }
}

// ---------------------------------------------------------------------------
// Field framing and whole messages
// ---------------------------------------------------------------------------

/// Field ids whose headers survive the decoder's three-way branch: the
/// compact ids 0 through 31, and the extended ids of 64 and above whose
/// fourth-lowest bit is set (their header varint starts at `0xC0` or
/// above).  Ids 32 through 63 encode compactly into a byte with its high
/// bit set, which the decoder reads as an extended header.
pub open spec fn field_id_decodable(id: u32) -> bool {
    id <= 31 || (id >= 64 && id % 16 >= 8)
}

/// A compact field header is a single byte for ids 1 through 63, with
/// the high bit clear for ids up to 31.
pub proof fn lemma_compact_header(id: u32, hint: u8)
    requires
        1 <= id <= 63,
        hint <= 3,
    ensures
        header_bytes(id, hint).len() == 1,
        id <= 31 ==> header_bytes(id, hint)[0] < 0x80,
{
}

/// A framed field parses back to its id and value, wherever its bytes
/// stand in a buffer.
#[verifier::rlimit(100)]
#[verifier::spinoff_prover]
pub proof fn lemma_parse_field_at(id: u32, v: ValueModel, s: Seq<u8>, pos: int)
    requires
        field_id_decodable(id),
        wf_value(v),
        0 <= pos,
        pos + field_bytes(id, v).len() <= s.len(),
        s.subrange(pos, pos + field_bytes(id, v).len() as int) == field_bytes(id, v),
        decodable(v, pos + field_bytes(id, v).len() < s.len()),
    ensures
        parse_field(s, pos) == Ok::<((u32, ValueModel), int), WireError>(
            ((id, v), pos + field_bytes(id, v).len()),
        ),
{
    let w = wire_hint(v);
    let hb = header_bytes(id, w);
    assert(w <= 3);
    lemma_subrange_split(s, pos, hb, value_bytes(v));
    assert(s.subrange(pos, pos + field_bytes(id, v).len() as int)[0] == s[pos]);
    if 1 <= id <= 31 {
        assert(s[pos] == (4 * id + w) as u8);
        assert(s[pos] < 0x80);
        assert(s[pos] / 4 == id);
        lemma_parse_value_at(v, s, pos + 1);
    } else if id == 0 {
        assert(hb =~= seq![w]);
        assert(s[pos] == w);
        assert(s[pos] < 0x80);
        assert(s[pos] / 4 == 0);
        lemma_parse_value_at(v, s, pos + 1);
    } else {
        let u = (8 * id + w) as nat;
        assert(hb == varint(u));
        assert(u >= 512);
        assert(s[pos] == hb[0]);
        assert(hb[0] == (128 + u % 128) as u8);
        let q = id as int / 16;
        let r = id as int % 16;
        vstd::arithmetic::div_mod::lemma_fundamental_div_mod(id as int, 16);
        assert(8 * id + w == 128 * q + (8 * r + w));
        vstd::arithmetic::div_mod::lemma_mod_multiples_vanish(q, 8 * r + w, 128);
        vstd::arithmetic::div_mod::lemma_small_mod((8 * r + w) as nat, 128);
        assert(u % 128 == 8 * r + w);
        assert(r >= 8);
        assert(s[pos] >= 0xC0);
        lemma_parse_varint_at(s, pos, u);
        vstd::arithmetic::div_mod::lemma_small_mod(u, 0x1_0000_0000_0000_0000nat);
        vstd::arithmetic::div_mod::lemma_fundamental_div_mod((8 * id + w) as int, 8);
        assert(u as int / 8 == id);
        vstd::arithmetic::div_mod::lemma_small_mod(id as nat, 0x1_0000_0000nat);
        lemma_parse_value_at(v, s, pos + hb.len() as int);
    }
}

/// Whether every field of a message survives the round trip: ids in the
/// unambiguous ranges, well-formed values, and no inline small integer
/// before the final field.
pub open spec fn fields_decodable(fs: Seq<(u32, ValueModel)>) -> bool {
    forall|i: int| 0 <= i < fs.len() ==> field_id_decodable((#[trigger] fs[i]).0) && wf_value(
        fs[i].1,
    ) && decodable(fs[i].1, i < fs.len() - 1)
}

/// A field sequence occupying the rest of the buffer parses back field
/// by field, and the parse stops cleanly at the end.
#[verifier::rlimit(100)]
#[verifier::spinoff_prover]
pub proof fn lemma_parse_fields_at(fs: Seq<(u32, ValueModel)>, s: Seq<u8>, pos: int)
    requires
        0 <= pos,
        s.len() == pos + fields_bytes(fs).len(),
        s.subrange(pos, s.len() as int) == fields_bytes(fs),
        fields_decodable(fs),
    ensures
        parse_fields(s, pos) == fs,
        parse_fields_stop(s, pos) == Ok::<(), WireError>(()),
    decreases fs.len(),
{
    if fs.len() == 0 {
        assert(fields_bytes(fs).len() == 0);
        assert(fs =~= Seq::<(u32, ValueModel)>::empty());
    } else {
        let fb0 = field_bytes(fs[0].0, fs[0].1);
        let rest = fields_bytes(fs.drop_first());
        assert(fields_bytes(fs) == fb0 + rest);
        lemma_subrange_split(s, pos, fb0, rest);
        lemma_value_bytes_nonempty(fs[0].1);
        assert(fb0.len() >= 1);
        if fs.len() > 1 {
            let dn = fs.drop_first();
            assert(fields_bytes(dn) == field_bytes(dn[0].0, dn[0].1) + fields_bytes(
                dn.drop_first(),
            ));
            lemma_value_bytes_nonempty(dn[0].1);
            assert(rest.len() >= 1);
        }
        assert(decodable(fs[0].1, pos + fb0.len() < s.len()));
        lemma_parse_field_at(fs[0].0, fs[0].1, s, pos);
        assert forall|i: int| 0 <= i < fs.drop_first().len() implies field_id_decodable(
            (#[trigger] fs.drop_first()[i]).0,
        ) && wf_value(fs.drop_first()[i].1) && decodable(
            fs.drop_first()[i].1,
            i < fs.drop_first().len() - 1,
        ) by {
            assert(fs.drop_first()[i] == fs[i + 1]);
        }
        lemma_parse_fields_at(fs.drop_first(), s, pos + fb0.len());
        assert(seq![fs[0]] + fs.drop_first() =~= fs);
    }
}

/// Round trip of a whole message: the fields written by the encoder are
/// read back exactly and the parse stops cleanly, so the decoded
/// message equals the original as a mapping.  Together with the
/// contracts of the message operations this is the law
/// `from_buffer(to_vec(m)) == Ok(m)`: `to_vec` emits `fields_bytes` of
/// the message's entries, `from_buffer` returns `Ok` exactly when
/// `parse_fields_stop` is clean and builds its result from
/// `parse_fields` of the buffer, and with unique ids equal entry
/// sequences denote equal mappings.
pub proof fn lemma_message_round_trip(fs: Seq<(u32, ValueModel)>)
    requires
        fields_decodable(fs),
    ensures
        parse_fields(fields_bytes(fs), 0) == fs,
        parse_fields_stop(fields_bytes(fs), 0) == Ok::<(), WireError>(()),
        keyed_map(parse_fields(fields_bytes(fs), 0)) == keyed_map(fs),
{
    let s = fields_bytes(fs);
    assert(s.subrange(0, s.len() as int) =~= s);
    lemma_parse_fields_at(fs, s, 0);
}

// ---------------------------------------------------------------------------
// Packed-array equivalence
// ---------------------------------------------------------------------------

/// A homogeneous primitive array decodes to the same value from either
/// its packed encoding (which the encoder emits) or the plain
/// element-by-element encoding.
pub proof fn lemma_packed_equivalence(es: Seq<ValueModel>)
    requires
        packable(es),
        es.len() < 0x1_0000_0000,
        forall|i: int| 0 <= i < es.len() ==> wf_value(#[trigger] es[i]),
        forall|i: int| 0 <= i < es.len() ==> decodable(#[trigger] es[i], i < es.len() - 1),
    ensures
        parse_value(value_bytes(ValueModel::Arr(es)), 0) == Ok::<(ValueModel, int), WireError>(
            (ValueModel::Arr(es), value_bytes(ValueModel::Arr(es)).len() as int),
        ),
        parse_value(seq![0x08u8] + varint(es.len()) + values_bytes(es), 0) == Ok::<
            (ValueModel, int),
            WireError,
        >(
            (
                ValueModel::Arr(es),
                (seq![0x08u8] + varint(es.len()) + values_bytes(es)).len() as int,
            ),
        ),
{
    lemma_value_round_trip(ValueModel::Arr(es));
    let s = seq![0x08u8] + varint(es.len()) + values_bytes(es);
    assert(s[0] == 0x08);
    assert(s =~= seq![0x08u8] + (varint(es.len()) + values_bytes(es)));
    assert(s.subrange(0, s.len() as int) =~= s);
    lemma_subrange_split(s, 0, seq![0x08u8], varint(es.len()) + values_bytes(es));
    lemma_subrange_split(s, 1, varint(es.len()), values_bytes(es));
    lemma_parse_varint_at(s, 1, es.len());
    vstd::arithmetic::div_mod::lemma_small_mod(es.len(), 0x1_0000_0000nat);
    let p1 = 1 + varint(es.len()).len();
    lemma_parse_elems_at(es, s, p1 as int);
}

// ---------------------------------------------------------------------------
// Packet headers
// ---------------------------------------------------------------------------

/// Round trip of the datagram framing: a packet survives serialization
/// and parsing exactly.
pub proof fn lemma_packet_round_trip(p: PacketModel)
    ensures
        parse_packet(packet_bytes(p)) == Some(p),
{
    let s = packet_bytes(p);
    assert(s.len() == 13 + p.payload.len());
    assert(s[0] == p.packet_type.spec_code());
    assert(s[1] == be_bytes_u32(p.sequence)[0] && s[2] == be_bytes_u32(p.sequence)[1] && s[3]
        == be_bytes_u32(p.sequence)[2] && s[4] == be_bytes_u32(p.sequence)[3]);
    assert(s[5] == be_bytes_u32(p.ack_number)[0] && s[6] == be_bytes_u32(p.ack_number)[1]
        && s[7] == be_bytes_u32(p.ack_number)[2] && s[8] == be_bytes_u32(p.ack_number)[3]);
    assert(s[9] == be_bytes_u32(p.flags)[0] && s[10] == be_bytes_u32(p.flags)[1] && s[11]
        == be_bytes_u32(p.flags)[2] && s[12] == be_bytes_u32(p.flags)[3]);
    lemma_u32_be_round_trip(p.sequence);
    lemma_u32_be_round_trip(p.ack_number);
    lemma_u32_be_round_trip(p.flags);
    assert(s.subrange(13, s.len() as int) =~= p.payload);
    let parsed = parse_packet(s)->0;
    assert(parsed.packet_type == p.packet_type);
    assert(parsed.payload == p.payload);
}

// ---------------------------------------------------------------------------
// Fragmentation
// ---------------------------------------------------------------------------

/// The payloads a buffer is cut into, exactly as `create_packets` cuts
/// them: 1267-byte chunks, the last one holding the remainder.
pub open spec fn fragment_payloads(data: Seq<u8>) -> Seq<Seq<u8>> {
    Seq::new(
        crate::network::num_fragments(data.len()),
        |i: int|
            data.subrange(
                i * 1267,
                if (i + 1) * 1267 <= data.len() {
                    (i + 1) * 1267
                } else {
                    data.len() as int
                },
            ),
    )
}

/// The tail of the fragment list flattens to the tail of the buffer.
proof fn lemma_fragments_cover_from(data: Seq<u8>, k: int)
    requires
        0 <= k <= crate::network::num_fragments(data.len()),
    ensures
        fragment_payloads(data).skip(k).flatten() == data.subrange(
            if k * 1267 <= data.len() {
                k * 1267
            } else {
                data.len() as int
            },
            data.len() as int,
        ),
    decreases crate::network::num_fragments(data.len()) - k,
{
    let nf = crate::network::num_fragments(data.len()) as int;
    let ps = fragment_payloads(data);
    if data.len() > 1267 {
        vstd::arithmetic::div_mod::lemma_fundamental_div_mod(data.len() as int + 1266, 1267);
    }
    if k == nf {
        assert(ps.skip(k) =~= Seq::<Seq<u8>>::empty());
        assert(ps.skip(k).flatten() =~= Seq::<u8>::empty());
        assert(k * 1267 >= data.len());
        assert(data.subrange(data.len() as int, data.len() as int) =~= Seq::<u8>::empty());
    } else {
        assert(k * 1267 < data.len() || (data.len() == 0 && k == 0));
        let start = k * 1267;
        let end = if (k + 1) * 1267 <= data.len() {
            (k + 1) * 1267
        } else {
            data.len() as int
        };
        lemma_fragments_cover_from(data, k + 1);
        assert(ps.skip(k).first() == ps[k]);
        assert(ps.skip(k).drop_first() =~= ps.skip(k + 1));
        assert(ps.skip(k).flatten() == ps[k] + ps.skip(k + 1).flatten());
        assert(ps[k] + data.subrange(end, data.len() as int) =~= data.subrange(
            start,
            data.len() as int,
        ));
    }
}

/// Fragmentation covers the buffer: the payloads `create_packets`
/// produces, concatenated in order, equal the original buffer.
pub proof fn lemma_fragment_payloads_cover(data: Seq<u8>)
    ensures
        fragment_payloads(data).flatten() == data,
{
    lemma_fragments_cover_from(data, 0);
    assert(fragment_payloads(data).skip(0) =~= fragment_payloads(data));
    assert(data.subrange(0, data.len() as int) =~= data);
}

// ---------------------------------------------------------------------------
// The retransmission budget
// ---------------------------------------------------------------------------

/// One retransmission sweep respects the retry budget: every packet it
/// returns carries a retry count between one and the budget, and an
/// entry that timed out with its budget already spent is gone from the
/// kept table.  Since entries enter the table with a retry count of
/// zero and each returned packet accounts for exactly one increment, a
/// sequence whose acknowledgment never arrives is sent at most
/// `1 + max_retries` times in all and then dropped.
pub proof fn lemma_retransmit_budget(
    s: Seq<(u32, crate::network::PendingModel)>,
    now_ms: u64,
    timeout_ms: u64,
    max_retries: u32,
)
    requires
        unique_keys(s),
        forall|i: int| 0 <= i < s.len() ==> (#[trigger] s[i]).1.retries <= max_retries,
    ensures
        forall|j: int|
            0 <= j < crate::network::retransmit_out(s, now_ms, timeout_ms, max_retries).len()
                ==> 1 <= (#[trigger] crate::network::retransmit_out(
                s,
                now_ms,
                timeout_ms,
                max_retries,
            )[j]).1 <= max_retries,
        forall|i: int|
            0 <= i < s.len() && crate::network::timed_out((#[trigger] s[i]).1, now_ms, timeout_ms)
                && s[i].1.retries == max_retries ==> !keyed_map(
                crate::network::retransmit_keep(s, now_ms, timeout_ms, max_retries),
            ).contains_key(s[i].0),
    decreases s.len(),
{
    let keep = crate::network::retransmit_keep(s, now_ms, timeout_ms, max_retries);
    if s.len() > 0 {
        let d = s.drop_first();
        assert(unique_keys(d));
        assert forall|i: int| 0 <= i < d.len() implies (#[trigger] d[i]).1.retries
            <= max_retries by {
            assert(d[i] == s[i + 1]);
        }
        lemma_retransmit_budget(d, now_ms, timeout_ms, max_retries);
        let keep_d = crate::network::retransmit_keep(d, now_ms, timeout_ms, max_retries);
        let out_d = crate::network::retransmit_out(d, now_ms, timeout_ms, max_retries);
        crate::network::lemma_retransmit_keep_wf(s, now_ms, timeout_ms, max_retries);
        crate::network::lemma_retransmit_keep_wf(d, now_ms, timeout_ms, max_retries);
        crate::keyed::lemma_keyed_map(keep);
        crate::keyed::lemma_keyed_map(keep_d);
        assert forall|j: int|
            0 <= j < crate::network::retransmit_out(s, now_ms, timeout_ms, max_retries).len()
                implies 1 <= (#[trigger] crate::network::retransmit_out(
            s,
            now_ms,
            timeout_ms,
            max_retries,
        )[j]).1 <= max_retries by {
            let out = crate::network::retransmit_out(s, now_ms, timeout_ms, max_retries);
            if crate::network::timed_out(s[0].1, now_ms, timeout_ms) && s[0].1.retries
                < max_retries {
                if j > 0 {
                    assert(out[j] == out_d[j - 1]);
                }
            } else {
                assert(out[j] == out_d[j]);
            }
        }
        assert forall|i: int|
            0 <= i < s.len() && crate::network::timed_out(
                (#[trigger] s[i]).1,
                now_ms,
                timeout_ms,
            ) && s[i].1.retries == max_retries implies !keyed_map(keep).contains_key(s[i].0) by {
            if i == 0 {
                assert(keep == keep_d);
                if keyed_map(keep_d).contains_key(s[0].0) {
                    let w = choose|w: int| 0 <= w < keep_d.len() && (#[trigger] keep_d[w]).0
                        == s[0].0;
                    let wd = choose|wd: int| 0 <= wd < d.len() && (#[trigger] d[wd]).0
                        == keep_d[w].0;
                    assert(d[wd] == s[wd + 1]);
                    assert(false);
                }
            } else {
                assert(d[i - 1] == s[i]);
                assert(!keyed_map(keep_d).contains_key(s[i].0));
                if keyed_map(keep).contains_key(s[i].0) {
                    let w = choose|w: int| 0 <= w < keep.len() && (#[trigger] keep[w]).0
                        == s[i].0;
                    if crate::network::timed_out(s[0].1, now_ms, timeout_ms)
                        && s[0].1.retries >= max_retries {
                        assert(keep == keep_d);
                        assert(false);
                    } else {
                        assert(keep.drop_first() == keep_d);
                        if w == 0 {
                            assert(keep[0].0 == s[0].0);
                            assert(s[0].0 != s[i].0);
                            assert(false);
                        } else {
                            assert(keep[w] == keep_d[w - 1]);
                            assert(false);
                        }
                    }
                }
            }
        }
    }
}

/// Round trip of a lone value: decoding its exact encoding yields the
/// value back.
pub proof fn lemma_value_round_trip(v: ValueModel)
    requires
        wf_value(v),
        decodable(v, false),
    ensures
        parse_value(value_bytes(v), 0) == Ok::<(ValueModel, int), WireError>(
            (v, value_bytes(v).len() as int),
        ),
{
    let s = value_bytes(v);
    assert(s.subrange(0, s.len() as int) =~= s);
    lemma_parse_value_at(v, s, 0);
}

} // verus!
