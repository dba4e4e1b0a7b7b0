//! The BiWi decoder: parses a byte buffer back into values, with precise
//! errors.  Every method's behaviour is pinned to the parse functions of
//! [`crate::wire`].

use vstd::prelude::*;
use vstd::slice::{slice_subrange, slice_to_vec};
use vstd::utf8::{decode_utf8, valid_utf8};
use vstd::arithmetic::div_mod::{lemma_add_mod_noop, lemma_mul_mod_noop_right, lemma_small_mod,
    lemma_mod_sub_multiples_vanish};
use crate::value::{BiWiValue, SmallString, ValueModel, views_of, entry_views_of,
    lemma_entry_views_of};
use crate::wire::{WireError, parse_varint, unzigzag32, unzigzag64, sign_extend7, u32_of_be,
    u64_of_be, parse_int32_payload, parse_int64_payload, parse_string_payload,
    parse_binary_payload, parse_value, parse_elems, parse_entries, parse_packed,
    parse_array_payload, parse_object_payload, parse_packed_payload, parse_field, parse_fields,
    parse_fields_stop, parse_chunk_start, parse_chunk_data, dedup_entries, unique_entry_keys,
    put_entry,
    has_entry_key, entry_key_index, lemma_put_entry, lemma_dedup_entries_from_push};

verus! {

/// Errors that can occur during decoding.  The strings are static
/// diagnostic context; the [`WireError`] view carries the variant.
#[derive(Debug, Clone, PartialEq, Eq)]
pub enum DecodeError {
    InsufficientData(&'static str),
    UnknownType(u8),
    InvalidData(&'static str),
}

impl View for DecodeError {
    type V = WireError;

    open spec fn view(&self) -> WireError {
        match *self {
            DecodeError::InsufficientData(_) => WireError::Insufficient,
            DecodeError::UnknownType(t) => WireError::UnknownType(t),
            DecodeError::InvalidData(_) => WireError::Invalid,
        }
    }
}

/// The result type of the decoding entry points.
pub type DecodeResult<T> = Result<T, DecodeError>;

/// A decoded field: its id and its value.
#[derive(Debug, PartialEq)]
pub struct DecodedField {
    pub field_id: u32,
    pub value: BiWiValue,
}

impl View for DecodedField {
    type V = (u32, ValueModel);

    open spec fn view(&self) -> (u32, ValueModel) {
        (self.field_id, self.value@)
    }
}

/// The models of a sequence of decoded fields.
pub open spec fn field_views_of(s: Seq<DecodedField>) -> Seq<(u32, ValueModel)>
    decreases s,
{
    if s.len() == 0 {
        Seq::empty()
    } else {
        seq![s[0]@] + field_views_of(s.drop_first())
    }
}

/// `field_views_of` is the element-wise model.
pub proof fn lemma_field_views_of(s: Seq<DecodedField>)
    ensures
        field_views_of(s).len() == s.len(),
        forall|i: int| 0 <= i < s.len() ==> field_views_of(s)[i] == (#[trigger] s[i])@,
    decreases s.len(),
{
    if s.len() > 0 {
        lemma_field_views_of(s.drop_first());
        assert forall|i: int| 0 <= i < s.len() implies field_views_of(s)[i] == (#[trigger] s[i])@
        by {
            if i > 0 {
                assert(s.drop_first()[i - 1] == s[i]);
            }
        }
    }
}

/// Appending a field appends its model.
pub proof fn lemma_field_views_of_push(s: Seq<DecodedField>, f: DecodedField)
    ensures
        field_views_of(s.push(f)) == field_views_of(s) + seq![f@],
    decreases s.len(),
{
    if s.len() == 0 {
        assert(s.push(f)[0] == f);
        assert(s.push(f).drop_first() =~= Seq::<DecodedField>::empty());
        assert(field_views_of(Seq::<DecodedField>::empty()) =~= Seq::<(u32, ValueModel)>::empty());
        assert(field_views_of(s.push(f)) =~= seq![f@]);
        assert(field_views_of(s) =~= Seq::<(u32, ValueModel)>::empty());
        assert(field_views_of(s.push(f)) =~= field_views_of(s) + seq![f@]);
    } else {
        lemma_field_views_of_push(s.drop_first(), f);
        assert(s.push(f).drop_first() =~= s.drop_first().push(f));
        assert(s.push(f)[0] == s[0]);
        assert(field_views_of(s.push(f)) =~= seq![s[0]@] + field_views_of(
            s.drop_first().push(f),
        ));
        assert(field_views_of(s) + seq![f@] =~= seq![s[0]@] + (field_views_of(s.drop_first())
            + seq![f@]));
    }
}

/// A decoded chunk-start record.
#[derive(Debug, Clone, PartialEq, Eq)]
pub struct ChunkStart {
    pub field_id: u16,
    pub total_size: u32,
}

/// A decoded chunk-data record.
#[derive(Debug, Clone, PartialEq, Eq)]
pub struct ChunkData {
    pub chunk_index: u16,
    pub data: Vec<u8>,
}

/// Relies on `String::from_utf8`: it returns `Ok` exactly when the bytes
/// are valid UTF-8, and the string it then yields is the character
/// sequence those bytes encode.
#[verifier::external_body]
fn string_from_utf8(bytes: Vec<u8>) -> (r: Option<String>)
    ensures
        r is Some <==> valid_utf8(bytes@),
        r is Some ==> r->0@ == decode_utf8(bytes@),
{
    match String::from_utf8(bytes) {
        Ok(s) => Some(s),
        Err(_) => None,
    }
}

/// Read a varint starting at `pos`, truncated to 32 bits.
fn varint32_at(buffer: &Vec<u8>, pos: usize) -> (r: Option<(u32, usize)>)
    ensures
        match r {
            Some((v, end)) => parse_varint(buffer@, pos as int) is Some
                && v as nat == (parse_varint(buffer@, pos as int)->0).0 % 0x1_0000_0000
                && end as int == (parse_varint(buffer@, pos as int)->0).1
                && pos < end <= buffer@.len(),
            None => parse_varint(buffer@, pos as int) is None,
        },
    decreases buffer@.len() - pos,
{
    if pos >= buffer.len() {
        return None;
    }
    let b = buffer[pos];
    if b < 128 {
        Some((b as u32, pos + 1))
    } else {
        match varint32_at(buffer, pos + 1) {
            None => None,
            Some((rest, end)) => {
                let v = ((b - 128) as u32).wrapping_add(rest.wrapping_mul(128));
                proof {
                    let g = (b - 128) as nat;
                    let rv = (parse_varint(buffer@, pos + 1)->0).0;
                    let m = 0x1_0000_0000nat;
                    let t = (128 * (rest as nat)) % m;
                    lemma_mul_mod_noop_right(128, rv as int, m as int);
                    assert(t == (128 * rv) % m);
                    assert(v as nat == (g + t) % m) by {
                        if g + t < m {
                            lemma_small_mod((g + t) as nat, m);
                        } else {
                            lemma_mod_sub_multiples_vanish((g + t) as int, m as int);
                            lemma_small_mod((g + t - m) as nat, m);
                        }
                    }
                    lemma_small_mod(g, m);
                    lemma_add_mod_noop(g as int, (128 * rv) as int, m as int);
                    assert(v as nat == (g + 128 * rv) % m);
                }
                Some((v, end))
            },
        }
    }
}

/// Read a varint starting at `pos`, truncated to 64 bits.
fn varint64_at(buffer: &Vec<u8>, pos: usize) -> (r: Option<(u64, usize)>)
    ensures
        match r {
            Some((v, end)) => parse_varint(buffer@, pos as int) is Some
                && v as nat == (parse_varint(buffer@, pos as int)->0).0
                    % 0x1_0000_0000_0000_0000
                && end as int == (parse_varint(buffer@, pos as int)->0).1
                && pos < end <= buffer@.len(),
            None => parse_varint(buffer@, pos as int) is None,
        },
    decreases buffer@.len() - pos,
{
    if pos >= buffer.len() {
        return None;
    }
    let b = buffer[pos];
    if b < 128 {
        Some((b as u64, pos + 1))
    } else {
        match varint64_at(buffer, pos + 1) {
            None => None,
            Some((rest, end)) => {
                let v = ((b - 128) as u64).wrapping_add(rest.wrapping_mul(128));
                proof {
                    let g = (b - 128) as nat;
                    let rv = (parse_varint(buffer@, pos + 1)->0).0;
                    let m = 0x1_0000_0000_0000_0000nat;
                    let t = (128 * (rest as nat)) % m;
                    lemma_mul_mod_noop_right(128, rv as int, m as int);
                    assert(t == (128 * rv) % m);
                    assert(v as nat == (g + t) % m) by {
                        if g + t < m {
                            lemma_small_mod((g + t) as nat, m);
                        } else {
                            lemma_mod_sub_multiples_vanish((g + t) as int, m as int);
                            lemma_small_mod((g + t - m) as nat, m);
                        }
                    }
                    lemma_small_mod(g, m);
                    lemma_add_mod_noop(g as int, (128 * rv) as int, m as int);
                    assert(v as nat == (g + 128 * rv) % m);
                }
                Some((v, end))
            },
        }
    }
}

/// Collapse duplicate keys among decoded object entries, as a mapping
/// would: the last value for a key wins, and the key keeps the position
/// of its first occurrence.
#[verifier::loop_isolation(false)]
fn dedup_decoded_entries(entries: Vec<(String, BiWiValue)>) -> (r: Vec<(String, BiWiValue)>)
    ensures
        entry_views_of(r@) == dedup_entries(entry_views_of(entries@)),
{
    let ghost evs = entry_views_of(entries@);
    let ghost empty = Seq::<(Seq<char>, ValueModel)>::empty();
    let n = entries.len();
    let mut out: Vec<(String, BiWiValue)> = Vec::new();
    proof {
        lemma_entry_views_of(entries@);
        assert(entry_views_of(out@) =~= empty);
        assert(evs.take(0) =~= empty);
    }
    let mut i: usize = 0;
    while i < n
        invariant
            i <= n,
            n == entries@.len(),
            entry_views_of(out@) == dedup_entries(evs.take(i as int)),
            unique_entry_keys(entry_views_of(out@)),
        decreases n - i,
    {
        let key = entries[i].0.clone();
        let value = entries[i].1.clone();
        let ghost kview = key@;
        let ghost vview = value@;
        proof {
            assert(evs[i as int] == (kview, vview));
            lemma_entry_views_of(out@);
        }
        let ghost pre = out@;
        let m = out.len();
        let mut j: usize = 0;
        let mut found = false;
        let mut at: usize = 0;
        while j < m
            invariant
                j <= m,
                m == out@.len(),
                out@ == pre,
                found ==> at < j && (out@[at as int]).0@ == kview,
                !found ==> forall|w: int| 0 <= w < j ==> (#[trigger] out@[w]).0@ != kview,
            decreases m - j,
        {
            if !found {
                if out[j].0 == key {
                    found = true;
                    at = j;
                }
            }
            j = j + 1;
        }
        if found {
            let kept = out.remove(at);
            out.insert(at, (kept.0, value));
            proof {
                assert(out@ =~= pre.update(at as int, (kept.0, value)));
                lemma_entry_views_of(pre);
                lemma_entry_views_of(out@);
                assert(has_entry_key(entry_views_of(pre), kview)) by {
                    assert(entry_views_of(pre)[at as int] == (pre[at as int].0@,
                    crate::value::view_of(pre[at as int].1)));
                    assert(entry_views_of(pre)[at as int].0 == kview);
                }
                lemma_put_entry(entry_views_of(pre), kview, vview);
                let ci = entry_key_index(entry_views_of(pre), kview);
                assert(entry_views_of(pre)[ci].0 == kview);
                assert(ci == at) by {
                    if ci < at {
                        assert(entry_views_of(pre)[ci].0 != entry_views_of(pre)[at as int].0);
                    } else if ci > at {
                        assert(entry_views_of(pre)[at as int].0 != entry_views_of(pre)[ci].0);
                    }
                }
                let target = entry_views_of(pre).update(at as int, (kview, vview));
                assert(put_entry(entry_views_of(pre), kview, vview) == target);
                assert forall|w: int| 0 <= w < out@.len() implies entry_views_of(out@)[w]
                    == target[w] by {
                    assert(entry_views_of(out@)[w] == (out@[w].0@, crate::value::view_of(
                        out@[w].1,
                    )));
                    if w == at {
                        assert(out@[w] == (kept.0, value));
                        assert(kept == pre[at as int]);
                    } else {
                        assert(out@[w] == pre[w]);
                        assert(entry_views_of(pre)[w] == (pre[w].0@, crate::value::view_of(
                            pre[w].1,
                        )));
                    }
                }
                assert(entry_views_of(out@).len() == target.len());
                assert(entry_views_of(out@) =~= target);
            }
        } else {
            out.push((key, value));
            proof {
                assert(out@ =~= pre.push((key, value)));
                lemma_entry_views_of(pre);
                lemma_entry_views_of(out@);
                assert(!has_entry_key(entry_views_of(pre), kview)) by {
                    if has_entry_key(entry_views_of(pre), kview) {
                        let w = choose|w: int|
                            0 <= w < entry_views_of(pre).len() && (#[trigger] entry_views_of(
                                pre,
                            )[w]).0 == kview;
                        assert(entry_views_of(pre)[w] == (pre[w].0@, crate::value::view_of(
                            pre[w].1,
                        )));
                        assert(pre[w].0@ == kview);
                    }
                }
                lemma_put_entry(entry_views_of(pre), kview, vview);
                let target = entry_views_of(pre).push((kview, vview));
                assert(put_entry(entry_views_of(pre), kview, vview) == target);
                assert forall|w: int| 0 <= w < out@.len() implies entry_views_of(out@)[w]
                    == target[w] by {
                    assert(entry_views_of(out@)[w] == (out@[w].0@, crate::value::view_of(
                        out@[w].1,
                    )));
                    if w < pre.len() {
                        assert(out@[w] == pre[w]);
                        assert(entry_views_of(pre)[w] == (pre[w].0@, crate::value::view_of(
                            pre[w].1,
                        )));
                    } else {
                        assert(out@[w] == (key, value));
                    }
                }
                assert(entry_views_of(out@).len() == target.len());
                assert(entry_views_of(out@) =~= target);
            }
        }
        proof {
            assert(evs.take(i + 1) =~= evs.take(i as int).push(evs[i as int]));
            lemma_dedup_entries_from_push(empty, evs.take(i as int), evs[i as int]);
            assert(entry_views_of(out@) == dedup_entries(evs.take(i + 1)));
        }
        i = i + 1;
    }
    proof {
        assert(evs.take(n as int) =~= evs);
    }
    out
}

/// Decoder for the BiWi binary format: a byte buffer and a cursor.
pub struct BiWiDecoder {
    buffer: Vec<u8>,
    offset: usize,
}

impl BiWiDecoder {
    /// The bytes being decoded.
    pub closed spec fn spec_buffer(&self) -> Seq<u8> {
        self.buffer@
    }

    /// The cursor position.
    pub closed spec fn spec_offset(&self) -> int {
        self.offset as int
    }

    /// The cursor stays between the start and the end of the buffer.
    pub open spec fn wf(&self) -> bool {
        0 <= self.spec_offset() <= self.spec_buffer().len()
    }

    /// A decoder over a copy of the given bytes, cursor at the start.
    pub fn new(buffer: &[u8]) -> (r: Self)
        ensures
            r.spec_buffer() == buffer@,
            r.spec_offset() == 0,
            r.wf(),
    {
        BiWiDecoder { buffer: slice_to_vec(buffer), offset: 0 }
    }

    /// Read a 32-bit varint at the cursor.  On success the cursor moves
    /// past it; on failure the cursor is unchanged.
    pub fn read_varint(&mut self) -> (r: DecodeResult<u32>)
        requires
            old(self).wf(),
        ensures
            final(self).wf(),
            final(self).spec_buffer() == old(self).spec_buffer(),
            match r {
                Ok(v) => parse_varint(old(self).spec_buffer(), old(self).spec_offset()) is Some
                    && v as nat == (parse_varint(
                    old(self).spec_buffer(),
                    old(self).spec_offset(),
                )->0).0 % 0x1_0000_0000
                    && final(self).spec_offset() == (parse_varint(
                    old(self).spec_buffer(),
                    old(self).spec_offset(),
                )->0).1,
                Err(e) => parse_varint(old(self).spec_buffer(), old(self).spec_offset()) is None
                    && e@ == WireError::Insufficient
                    && final(self).spec_offset() == old(self).spec_offset(),
            },
            r is Ok ==> old(self).spec_offset() < final(self).spec_offset(),
    {
        match varint32_at(&self.buffer, self.offset) {
            Some((v, end)) => {
                self.offset = end;
                Ok(v)
            },
            None => Err(DecodeError::InsufficientData("varint")),
        }
    }

    /// Read a 64-bit varint at the cursor.
    pub fn read_varint_u64(&mut self) -> (r: DecodeResult<u64>)
        requires
            old(self).wf(),
        ensures
            final(self).wf(),
            final(self).spec_buffer() == old(self).spec_buffer(),
            match r {
                Ok(v) => parse_varint(old(self).spec_buffer(), old(self).spec_offset()) is Some
                    && v as nat == (parse_varint(
                    old(self).spec_buffer(),
                    old(self).spec_offset(),
                )->0).0 % 0x1_0000_0000_0000_0000
                    && final(self).spec_offset() == (parse_varint(
                    old(self).spec_buffer(),
                    old(self).spec_offset(),
                )->0).1,
                Err(e) => parse_varint(old(self).spec_buffer(), old(self).spec_offset()) is None
                    && e@ == WireError::Insufficient
                    && final(self).spec_offset() == old(self).spec_offset(),
            },
            r is Ok ==> old(self).spec_offset() < final(self).spec_offset(),
    {
        match varint64_at(&self.buffer, self.offset) {
            Some((v, end)) => {
                self.offset = end;
                Ok(v)
            },
            None => Err(DecodeError::InsufficientData("varint64")),
        }
    }

    /// ZigZag-decode a 32-bit value.
    pub fn zigzag_decode_i32(value: u32) -> (r: i32)
        ensures
            r as int == unzigzag32(value as nat),
    {
        let h = value / 2;
        if value % 2 == 0 {
            h as i32
        } else {
            -(h as i32) - 1
        }
    }

    /// ZigZag-decode a 64-bit value.
    pub fn zigzag_decode_i64(value: u64) -> (r: i64)
        ensures
            r as int == unzigzag64(value as nat),
    {
        let h = value / 2;
        if value % 2 == 0 {
            h as i64
        } else {
            -(h as i64) - 1
        }
    }

    /// Copy `count` bytes at the cursor out of the buffer and advance.
    fn take_bytes(&mut self, count: usize) -> (r: Vec<u8>)
        requires
            old(self).wf(),
            count <= old(self).spec_buffer().len() - old(self).spec_offset(),
        ensures
            final(self).wf(),
            final(self).spec_buffer() == old(self).spec_buffer(),
            final(self).spec_offset() == old(self).spec_offset() + count,
            r@ == old(self).spec_buffer().subrange(
                old(self).spec_offset(),
                old(self).spec_offset() + count,
            ),
    {
        let start = self.offset;
        let total = self.buffer.len();
        proof {
            assert(start + count <= total);
        }
        let bytes = slice_to_vec(slice_subrange(self.buffer.as_slice(), start, start + count));
        self.offset = start + count;
        bytes
    }

    /// Decode a field with its header, compact or extended.
    #[verifier::rlimit(100)]
    pub fn decode_field(&mut self) -> (r: DecodeResult<DecodedField>)
        requires
            old(self).wf(),
        ensures
            final(self).wf(),
            final(self).spec_buffer() == old(self).spec_buffer(),
            match r {
                Ok(f) => parse_field(old(self).spec_buffer(), old(self).spec_offset())
                    == Ok::<((u32, ValueModel), int), WireError>(
                    (f@, final(self).spec_offset()),
                ),
                Err(e) => parse_field(old(self).spec_buffer(), old(self).spec_offset()) is Err
                    && e@ == parse_field(
                    old(self).spec_buffer(),
                    old(self).spec_offset(),
                )->Err_0,
            },
            r is Ok ==> old(self).spec_offset() < final(self).spec_offset(),
            final(self).spec_offset() >= old(self).spec_offset(),
    {
        if self.offset >= self.buffer.len() {
            return Err(DecodeError::InsufficientData("field header"));
        }
        let header_byte = self.buffer[self.offset];
        if header_byte < 0x80 {
            self.offset = self.offset + 1;
            let field_id = (header_byte / 4) as u32;
            match self.decode_value() {
                Ok(value) => Ok(DecodedField { field_id, value }),
                Err(e) => Err(e),
            }
        } else if header_byte >= 0xC0 {
            match self.read_varint_u64() {
                Err(e) => Err(e),
                Ok(h) => {
                    let field_id = ((h / 8) % 0x1_0000_0000) as u32;
                    match self.decode_value() {
                        Ok(value) => Ok(DecodedField { field_id, value }),
                        Err(e) => Err(e),
                    }
                },
            }
        } else {
            self.offset = self.offset + 1;
            let field_id = (header_byte / 8) as u32;
            match self.decode_value() {
                Ok(value) => Ok(DecodedField { field_id, value }),
                Err(e) => Err(e),
            }
        }
    }

    /// Decode one value, type byte first.
    #[verifier::rlimit(100)]
    pub fn decode_value(&mut self) -> (r: DecodeResult<BiWiValue>)
        requires
            old(self).wf(),
        ensures
            final(self).wf(),
            final(self).spec_buffer() == old(self).spec_buffer(),
            match r {
                Ok(v) => parse_value(old(self).spec_buffer(), old(self).spec_offset())
                    == Ok::<(ValueModel, int), WireError>((v@, final(self).spec_offset())),
                Err(e) => parse_value(old(self).spec_buffer(), old(self).spec_offset()) is Err
                    && e@ == parse_value(
                    old(self).spec_buffer(),
                    old(self).spec_offset(),
                )->Err_0,
            },
            r is Ok ==> old(self).spec_offset() < final(self).spec_offset(),
            final(self).spec_offset() >= old(self).spec_offset(),
        decreases old(self).spec_buffer().len() - old(self).spec_offset(), 0nat,
    {
        if self.offset >= self.buffer.len() {
            return Err(DecodeError::InsufficientData("type byte"));
        }
        let type_code = self.buffer[self.offset];
        self.offset = self.offset + 1;
        if type_code == 0x88 {
            return self.decode_packed_array();
        }
        match type_code {
            0x00 => Ok(BiWiValue::Null),
            0x01 => Ok(BiWiValue::Boolean(true)),
            0xFF => Ok(BiWiValue::Boolean(false)),
            0x02 => self.decode_int32(),
            0x03 => self.decode_int64(),
            0x04 => self.decode_float32(),
            0x05 => self.decode_float64(),
            0x06 => self.decode_string(),
            0x07 => self.decode_binary(),
            0x08 => self.decode_array(),
            0x09 => self.decode_object(),
            _ => Err(DecodeError::UnknownType(type_code)),
        }
    }

    /// Decode an `Int32` payload: a varint where one terminates in the
    /// buffer, else a lone inline byte.
    fn decode_int32(&mut self) -> (r: DecodeResult<BiWiValue>)
        requires
            old(self).wf(),
        ensures
            final(self).wf(),
            final(self).spec_buffer() == old(self).spec_buffer(),
            match r {
                Ok(v) => parse_int32_payload(old(self).spec_buffer(), old(self).spec_offset())
                    == Ok::<(ValueModel, int), WireError>((v@, final(self).spec_offset())),
                Err(e) => parse_int32_payload(
                    old(self).spec_buffer(),
                    old(self).spec_offset(),
                ) is Err && e@ == parse_int32_payload(
                    old(self).spec_buffer(),
                    old(self).spec_offset(),
                )->Err_0,
            },
            r is Ok ==> old(self).spec_offset() < final(self).spec_offset(),
            final(self).spec_offset() >= old(self).spec_offset(),
    {
        if self.offset >= self.buffer.len() {
            return Err(DecodeError::InsufficientData("int32 value"));
        }
        let byte = self.buffer[self.offset];
        match varint32_at(&self.buffer, self.offset) {
            Some((zigzag, end)) => {
                self.offset = end;
                Ok(BiWiValue::Int32(Self::zigzag_decode_i32(zigzag)))
            },
            None => {
                self.offset = self.offset + 1;
                let low = byte % 128;
                let value: i32 = if low < 64 {
                    low as i32
                } else {
                    (low as i32) - 128
                };
                proof {
                    assert(value as int == sign_extend7(byte));
                }
                Ok(BiWiValue::Int32(value))
            },
        }
    }

    /// Decode an `Int64` payload.
    fn decode_int64(&mut self) -> (r: DecodeResult<BiWiValue>)
        requires
            old(self).wf(),
        ensures
            final(self).wf(),
            final(self).spec_buffer() == old(self).spec_buffer(),
            match r {
                Ok(v) => parse_int64_payload(old(self).spec_buffer(), old(self).spec_offset())
                    == Ok::<(ValueModel, int), WireError>((v@, final(self).spec_offset())),
                Err(e) => parse_int64_payload(
                    old(self).spec_buffer(),
                    old(self).spec_offset(),
                ) is Err && e@ == parse_int64_payload(
                    old(self).spec_buffer(),
                    old(self).spec_offset(),
                )->Err_0,
            },
            r is Ok ==> old(self).spec_offset() < final(self).spec_offset(),
            final(self).spec_offset() >= old(self).spec_offset(),
    {
        if self.offset >= self.buffer.len() {
            return Err(DecodeError::InsufficientData("int64 value"));
        }
        let byte = self.buffer[self.offset];
        match varint64_at(&self.buffer, self.offset) {
            Some((zigzag, end)) => {
                self.offset = end;
                Ok(BiWiValue::Int64(Self::zigzag_decode_i64(zigzag)))
            },
            None => {
                self.offset = self.offset + 1;
                let low = byte % 128;
                let value: i64 = if low < 64 {
                    low as i64
                } else {
                    (low as i64) - 128
                };
                proof {
                    assert(value as int == sign_extend7(byte));
                }
                Ok(BiWiValue::Int64(value))
            },
        }
    }

    /// Decode a `Float32` payload: four big-endian bytes of bit pattern.
    fn decode_float32(&mut self) -> (r: DecodeResult<BiWiValue>)
        requires
            old(self).wf(),
        ensures
            final(self).wf(),
            final(self).spec_buffer() == old(self).spec_buffer(),
            match r {
                Ok(v) => ({
                    let s = old(self).spec_buffer();
                    let p = old(self).spec_offset();
                    &&& p + 4 <= s.len()
                    &&& v@ == ValueModel::Float32(u32_of_be(s[p], s[p + 1], s[p + 2], s[p + 3]))
                    &&& final(self).spec_offset() == p + 4
                }),
                Err(e) => old(self).spec_offset() + 4 > old(self).spec_buffer().len()
                    && e@ == WireError::Insufficient
                    && final(self).spec_offset() == old(self).spec_offset(),
            },
    {
        if self.buffer.len() - self.offset < 4 {
            return Err(DecodeError::InsufficientData("float32"));
        }
        let b0 = self.buffer[self.offset];
        let b1 = self.buffer[self.offset + 1];
        let b2 = self.buffer[self.offset + 2];
        let b3 = self.buffer[self.offset + 3];
        self.offset = self.offset + 4;
        let bits = (b0 as u32) * 0x100_0000 + (b1 as u32) * 0x1_0000 + (b2 as u32) * 0x100
            + (b3 as u32);
        Ok(BiWiValue::Float32(bits))
    }

    /// Decode a `Float64` payload: eight big-endian bytes of bit pattern.
    fn decode_float64(&mut self) -> (r: DecodeResult<BiWiValue>)
        requires
            old(self).wf(),
        ensures
            final(self).wf(),
            final(self).spec_buffer() == old(self).spec_buffer(),
            match r {
                Ok(v) => ({
                    let s = old(self).spec_buffer();
                    let p = old(self).spec_offset();
                    &&& p + 8 <= s.len()
                    &&& v@ == ValueModel::Float64(
                        u64_of_be(
                            s[p], s[p + 1], s[p + 2], s[p + 3],
                            s[p + 4], s[p + 5], s[p + 6], s[p + 7],
                        ),
                    )
                    &&& final(self).spec_offset() == p + 8
                }),
                Err(e) => old(self).spec_offset() + 8 > old(self).spec_buffer().len()
                    && e@ == WireError::Insufficient
                    && final(self).spec_offset() == old(self).spec_offset(),
            },
    {
        if self.buffer.len() - self.offset < 8 {
            return Err(DecodeError::InsufficientData("float64"));
        }
        let b0 = self.buffer[self.offset];
        let b1 = self.buffer[self.offset + 1];
        let b2 = self.buffer[self.offset + 2];
        let b3 = self.buffer[self.offset + 3];
        let b4 = self.buffer[self.offset + 4];
        let b5 = self.buffer[self.offset + 5];
        let b6 = self.buffer[self.offset + 6];
        let b7 = self.buffer[self.offset + 7];
        self.offset = self.offset + 8;
        let bits = (b0 as u64) * 0x100_0000_0000_0000 + (b1 as u64) * 0x1_0000_0000_0000 + (
        b2 as u64) * 0x100_0000_0000 + (b3 as u64) * 0x1_0000_0000 + (b4 as u64) * 0x100_0000 + (
        b5 as u64) * 0x1_0000 + (b6 as u64) * 0x100 + (b7 as u64);
        Ok(BiWiValue::Float64(bits))
    }

    /// Decode a string payload, inline or varint-length form.
    #[verifier::rlimit(100)]
    fn decode_string(&mut self) -> (r: DecodeResult<BiWiValue>)
        requires
            old(self).wf(),
        ensures
            final(self).wf(),
            final(self).spec_buffer() == old(self).spec_buffer(),
            match r {
                Ok(v) => parse_string_payload(old(self).spec_buffer(), old(self).spec_offset())
                    == Ok::<(ValueModel, int), WireError>((v@, final(self).spec_offset())),
                Err(e) => parse_string_payload(
                    old(self).spec_buffer(),
                    old(self).spec_offset(),
                ) is Err && e@ == parse_string_payload(
                    old(self).spec_buffer(),
                    old(self).spec_offset(),
                )->Err_0,
            },
            r is Ok ==> old(self).spec_offset() < final(self).spec_offset(),
            final(self).spec_offset() >= old(self).spec_offset(),
    {
        if self.offset >= self.buffer.len() {
            return Err(DecodeError::InsufficientData("string length"));
        }
        let len_byte = self.buffer[self.offset];
        if len_byte >= 128 {
            let length = (len_byte - 128) as usize;
            self.offset = self.offset + 1;
            if length > self.buffer.len() - self.offset {
                self.offset = self.offset - 1;
                return Err(DecodeError::InsufficientData("small string content"));
            }
            let bytes = self.take_bytes(length);
            let ghost bs = bytes@;
            match string_from_utf8(bytes) {
                None => Err(DecodeError::InvalidData("invalid UTF-8 in small string")),
                Some(s) => {
                    if length <= 15 {
                        proof {
                            vstd::utf8::decode_utf8_encode_utf8(bs);
                        }
                        match SmallString::new(s.as_str()) {
                            Some(small) => Ok(BiWiValue::SmallString(small)),
                            None => {
                                proof {
                                    assert(false);
                                }
                                Ok(BiWiValue::String(s))
                            },
                        }
                    } else {
                        Ok(BiWiValue::String(s))
                    }
                },
            }
        } else {
            match self.read_varint() {
                Err(e) => Err(e),
                Ok(len32) => {
                    let length = len32 as usize;
                    if length > self.buffer.len() - self.offset {
                        return Err(DecodeError::InsufficientData("string content"));
                    }
                    let bytes = self.take_bytes(length);
                    match string_from_utf8(bytes) {
                        None => Err(DecodeError::InvalidData("invalid UTF-8")),
                        Some(s) => Ok(BiWiValue::String(s)),
                    }
                },
            }
        }
    }

    /// Decode a binary payload: varint length, raw bytes.
    fn decode_binary(&mut self) -> (r: DecodeResult<BiWiValue>)
        requires
            old(self).wf(),
        ensures
            final(self).wf(),
            final(self).spec_buffer() == old(self).spec_buffer(),
            match r {
                Ok(v) => parse_binary_payload(old(self).spec_buffer(), old(self).spec_offset())
                    == Ok::<(ValueModel, int), WireError>((v@, final(self).spec_offset())),
                Err(e) => parse_binary_payload(
                    old(self).spec_buffer(),
                    old(self).spec_offset(),
                ) is Err && e@ == parse_binary_payload(
                    old(self).spec_buffer(),
                    old(self).spec_offset(),
                )->Err_0,
            },
            final(self).spec_offset() >= old(self).spec_offset(),
    {
        match self.read_varint() {
            Err(e) => Err(e),
            Ok(len32) => {
                let length = len32 as usize;
                if length > self.buffer.len() - self.offset {
                    return Err(DecodeError::InsufficientData("binary content"));
                }
                let data = self.take_bytes(length);
                Ok(BiWiValue::Binary(data))
            },
        }
    }

    /// Decode an array payload: count, then that many values.
    fn decode_array(&mut self) -> (r: DecodeResult<BiWiValue>)
        requires
            old(self).wf(),
        ensures
            final(self).wf(),
            final(self).spec_buffer() == old(self).spec_buffer(),
            match r {
                Ok(v) => parse_array_payload(old(self).spec_buffer(), old(self).spec_offset())
                    == Ok::<(ValueModel, int), WireError>((v@, final(self).spec_offset())),
                Err(e) => parse_array_payload(
                    old(self).spec_buffer(),
                    old(self).spec_offset(),
                ) is Err && e@ == parse_array_payload(
                    old(self).spec_buffer(),
                    old(self).spec_offset(),
                )->Err_0,
            },
            final(self).spec_offset() >= old(self).spec_offset(),
        decreases old(self).spec_buffer().len() - old(self).spec_offset(), 2nat,
    {
        match self.read_varint() {
            Err(e) => Err(e),
            Ok(count) => {
                match self.decode_values(count) {
                    Err(e) => Err(e),
                    Ok(items) => Ok(BiWiValue::Array(items)),
                }
            },
        }
    }

    /// Decode `count` consecutive values.
    fn decode_values(&mut self, count: u32) -> (r: DecodeResult<Vec<BiWiValue>>)
        requires
            old(self).wf(),
        ensures
            final(self).wf(),
            final(self).spec_buffer() == old(self).spec_buffer(),
            match r {
                Ok(vs) => parse_elems(
                    old(self).spec_buffer(),
                    old(self).spec_offset(),
                    count as nat,
                ) == Ok::<(Seq<ValueModel>, int), WireError>(
                    (views_of(vs@), final(self).spec_offset()),
                ),
                Err(e) => parse_elems(
                    old(self).spec_buffer(),
                    old(self).spec_offset(),
                    count as nat,
                ) is Err && e@ == parse_elems(
                    old(self).spec_buffer(),
                    old(self).spec_offset(),
                    count as nat,
                )->Err_0,
            },
            final(self).spec_offset() >= old(self).spec_offset(),
        decreases old(self).spec_buffer().len() - old(self).spec_offset(), 1nat,
    {
        if count == 0 {
            let vs: Vec<BiWiValue> = Vec::new();
            proof {
                assert(views_of(vs@) =~= Seq::<ValueModel>::empty());
            }
            return Ok(vs);
        }
        match self.decode_value() {
            Err(e) => Err(e),
            Ok(v) => {
                match self.decode_values(count - 1) {
                    Err(e) => Err(e),
                    Ok(mut vs) => {
                        let ghost tail = vs@;
                        vs.insert(0, v);
                        proof {
                            assert(vs@ =~= seq![v] + tail);
                            crate::value::lemma_views_of_cons(v, tail);
                            assert(views_of(vs@) == seq![v@] + views_of(tail));
                        }
                        Ok(vs)
                    },
                }
            },
        }
    }

    /// Decode an object payload: entry count, then keys and values.
    /// Duplicate keys collapse as in a mapping: the last value for a key
    /// wins, and the key keeps the position of its first occurrence.
    fn decode_object(&mut self) -> (r: DecodeResult<BiWiValue>)
        requires
            old(self).wf(),
        ensures
            final(self).wf(),
            final(self).spec_buffer() == old(self).spec_buffer(),
            match r {
                Ok(v) => parse_object_payload(old(self).spec_buffer(), old(self).spec_offset())
                    == Ok::<(ValueModel, int), WireError>((v@, final(self).spec_offset())),
                Err(e) => parse_object_payload(
                    old(self).spec_buffer(),
                    old(self).spec_offset(),
                ) is Err && e@ == parse_object_payload(
                    old(self).spec_buffer(),
                    old(self).spec_offset(),
                )->Err_0,
            },
            final(self).spec_offset() >= old(self).spec_offset(),
        decreases old(self).spec_buffer().len() - old(self).spec_offset(), 2nat,
    {
        match self.read_varint() {
            Err(e) => Err(e),
            Ok(count) => {
                match self.decode_entries(count) {
                    Err(e) => Err(e),
                    Ok(entries) => Ok(BiWiValue::Object(dedup_decoded_entries(entries))),
                }
            },
        }
    }

    /// Decode `count` consecutive object entries.
    fn decode_entries(&mut self, count: u32) -> (r: DecodeResult<Vec<(String, BiWiValue)>>)
        requires
            old(self).wf(),
        ensures
            final(self).wf(),
            final(self).spec_buffer() == old(self).spec_buffer(),
            match r {
                Ok(en) => parse_entries(
                    old(self).spec_buffer(),
                    old(self).spec_offset(),
                    count as nat,
                ) == Ok::<(Seq<(Seq<char>, ValueModel)>, int), WireError>(
                    (entry_views_of(en@), final(self).spec_offset()),
                ),
                Err(e) => parse_entries(
                    old(self).spec_buffer(),
                    old(self).spec_offset(),
                    count as nat,
                ) is Err && e@ == parse_entries(
                    old(self).spec_buffer(),
                    old(self).spec_offset(),
                    count as nat,
                )->Err_0,
            },
            final(self).spec_offset() >= old(self).spec_offset(),
        decreases old(self).spec_buffer().len() - old(self).spec_offset(), 1nat,
    {
        if count == 0 {
            let en: Vec<(String, BiWiValue)> = Vec::new();
            proof {
                assert(entry_views_of(en@) =~= Seq::<(Seq<char>, ValueModel)>::empty());
            }
            return Ok(en);
        }
        match self.read_varint() {
            Err(e) => Err(e),
            Ok(klen32) => {
                let key_length = klen32 as usize;
                if key_length > self.buffer.len() - self.offset {
                    return Err(DecodeError::InsufficientData("key content"));
                }
                let key_bytes = self.take_bytes(key_length);
                match string_from_utf8(key_bytes) {
                    None => Err(DecodeError::InvalidData("invalid key UTF-8")),
                    Some(key) => {
                        match self.decode_value() {
                            Err(e) => Err(e),
                            Ok(v) => {
                                match self.decode_entries(count - 1) {
                                    Err(e) => Err(e),
                                    Ok(mut en) => {
                                        let ghost tail = en@;
                                        let ghost kchars = key@;
                                        let ghost vm = v@;
                                        let ghost kv_pair = (key, v);
                                        en.insert(0, (key, v));
                                        proof {
                                            assert(en@ =~= seq![kv_pair] + tail);
                                            crate::value::lemma_entry_views_of_cons(
                                                kv_pair,
                                                tail,
                                            );
                                            assert(entry_views_of(en@) == seq![
                                                (kchars, vm),
                                            ] + entry_views_of(tail));
                                        }
                                        Ok(en)
                                    },
                                }
                            },
                        }
                    },
                }
            },
        }
    }

    /// Decode a packed-array payload: element type byte, count, then bare
    /// element payloads.
    fn decode_packed_array(&mut self) -> (r: DecodeResult<BiWiValue>)
        requires
            old(self).wf(),
        ensures
            final(self).wf(),
            final(self).spec_buffer() == old(self).spec_buffer(),
            match r {
                Ok(v) => parse_packed_payload(old(self).spec_buffer(), old(self).spec_offset())
                    == Ok::<(ValueModel, int), WireError>((v@, final(self).spec_offset())),
                Err(e) => parse_packed_payload(
                    old(self).spec_buffer(),
                    old(self).spec_offset(),
                ) is Err && e@ == parse_packed_payload(
                    old(self).spec_buffer(),
                    old(self).spec_offset(),
                )->Err_0,
            },
            final(self).spec_offset() >= old(self).spec_offset(),
        decreases old(self).spec_buffer().len() - old(self).spec_offset(), 2nat,
    {
        if self.offset >= self.buffer.len() {
            return Err(DecodeError::InsufficientData("packed array type"));
        }
        let element_type = self.buffer[self.offset];
        self.offset = self.offset + 1;
        match self.read_varint() {
            Err(e) => Err(e),
            Ok(count) => {
                if element_type == 0x02 || element_type == 0x03 || element_type == 0x04
                    || element_type == 0x05 {
                    match self.decode_packed_values(count, element_type) {
                        Err(e) => Err(e),
                        Ok(items) => Ok(BiWiValue::Array(items)),
                    }
                } else {
                    Err(DecodeError::InvalidData("unknown packed array element type"))
                }
            },
        }
    }

    /// Decode `count` packed elements of the element type `et`.
    fn decode_packed_values(&mut self, count: u32, et: u8) -> (r: DecodeResult<Vec<BiWiValue>>)
        requires
            old(self).wf(),
            et == 0x02 || et == 0x03 || et == 0x04 || et == 0x05,
        ensures
            final(self).wf(),
            final(self).spec_buffer() == old(self).spec_buffer(),
            match r {
                Ok(vs) => parse_packed(
                    old(self).spec_buffer(),
                    old(self).spec_offset(),
                    count as nat,
                    et,
                ) == Ok::<(Seq<ValueModel>, int), WireError>(
                    (views_of(vs@), final(self).spec_offset()),
                ),
                Err(e) => parse_packed(
                    old(self).spec_buffer(),
                    old(self).spec_offset(),
                    count as nat,
                    et,
                ) is Err && e@ == parse_packed(
                    old(self).spec_buffer(),
                    old(self).spec_offset(),
                    count as nat,
                    et,
                )->Err_0,
            },
            final(self).spec_offset() >= old(self).spec_offset(),
        decreases old(self).spec_buffer().len() - old(self).spec_offset(), 1nat,
    {
        if count == 0 {
            let vs: Vec<BiWiValue> = Vec::new();
            proof {
                assert(views_of(vs@) =~= Seq::<ValueModel>::empty());
            }
            return Ok(vs);
        }
        let element: BiWiValue;
        if et == 0x02 {
            match self.read_varint() {
                Err(e) => {
                    return Err(e);
                },
                Ok(zigzag) => {
                    element = BiWiValue::Int32(Self::zigzag_decode_i32(zigzag));
                },
            }
        } else if et == 0x03 {
            match self.read_varint_u64() {
                Err(e) => {
                    return Err(e);
                },
                Ok(zigzag) => {
                    element = BiWiValue::Int64(Self::zigzag_decode_i64(zigzag));
                },
            }
        } else if et == 0x04 {
            match self.decode_float32() {
                Err(e) => {
                    return Err(e);
                },
                Ok(v) => {
                    element = v;
                },
            }
        } else {
            match self.decode_float64() {
                Err(e) => {
                    return Err(e);
                },
                Ok(v) => {
                    element = v;
                },
            }
        }
        match self.decode_packed_values(count - 1, et) {
            Err(e) => Err(e),
            Ok(mut vs) => {
                let ghost tail = vs@;
                let ghost em = element@;
                let ghost elem_snap = element;
                vs.insert(0, element);
                proof {
                    assert(vs@ =~= seq![elem_snap] + tail);
                    crate::value::lemma_views_of_cons(elem_snap, tail);
                    assert(views_of(vs@) == seq![em] + views_of(tail));
                }
                Ok(vs)
            },
        }
    }

    /// Decode a chunk-start record body (the `0x0A` type byte is read by
    /// the caller).
    pub fn decode_chunk_start(&mut self) -> (r: DecodeResult<ChunkStart>)
        requires
            old(self).wf(),
        ensures
            final(self).wf(),
            final(self).spec_buffer() == old(self).spec_buffer(),
            match r {
                Ok(c) => parse_chunk_start(old(self).spec_buffer(), old(self).spec_offset())
                    == Ok::<((u16, u32), int), WireError>(
                    ((c.field_id, c.total_size), final(self).spec_offset()),
                ),
                Err(e) => parse_chunk_start(
                    old(self).spec_buffer(),
                    old(self).spec_offset(),
                ) is Err && e@ == WireError::Insufficient
                    && final(self).spec_offset() == old(self).spec_offset(),
            },
    {
        if self.buffer.len() - self.offset < 6 {
            return Err(DecodeError::InsufficientData("chunk start"));
        }
        let b0 = self.buffer[self.offset];
        let b1 = self.buffer[self.offset + 1];
        let field_id = (b0 as u16) * 0x100 + (b1 as u16);
        let c0 = self.buffer[self.offset + 2];
        let c1 = self.buffer[self.offset + 3];
        let c2 = self.buffer[self.offset + 4];
        let c3 = self.buffer[self.offset + 5];
        let total_size = (c0 as u32) * 0x100_0000 + (c1 as u32) * 0x1_0000 + (c2 as u32) * 0x100
            + (c3 as u32);
        self.offset = self.offset + 6;
        Ok(ChunkStart { field_id, total_size })
    }

    /// Decode a chunk-data record body (the `0x0B` type byte is read by
    /// the caller).
    pub fn decode_chunk_data(&mut self) -> (r: DecodeResult<ChunkData>)
        requires
            old(self).wf(),
        ensures
            final(self).wf(),
            final(self).spec_buffer() == old(self).spec_buffer(),
            match r {
                Ok(c) => parse_chunk_data(old(self).spec_buffer(), old(self).spec_offset())
                    == Ok::<((u16, Seq<u8>), int), WireError>(
                    ((c.chunk_index, c.data@), final(self).spec_offset()),
                ),
                Err(e) => parse_chunk_data(
                    old(self).spec_buffer(),
                    old(self).spec_offset(),
                ) is Err && e@ == WireError::Insufficient
                    && final(self).spec_offset() == old(self).spec_offset(),
            },
    {
        if self.buffer.len() - self.offset < 4 {
            return Err(DecodeError::InsufficientData("chunk data header"));
        }
        let b0 = self.buffer[self.offset];
        let b1 = self.buffer[self.offset + 1];
        let chunk_index = (b0 as u16) * 0x100 + (b1 as u16);
        let l0 = self.buffer[self.offset + 2];
        let l1 = self.buffer[self.offset + 3];
        let data_length = ((l0 as u16) * 0x100 + (l1 as u16)) as usize;
        if data_length > self.buffer.len() - (self.offset + 4) {
            return Err(DecodeError::InsufficientData("chunk content"));
        }
        self.offset = self.offset + 4;
        let data = self.take_bytes(data_length);
        Ok(ChunkData { chunk_index, data })
    }

    /// Decode fields until the buffer is exhausted or a field fails to
    /// parse, and report how the run stopped: `None` for the end of the
    /// buffer or clean truncation inside a field, `Some(e)` for
    /// malformed data at a valid field boundary.
    pub(crate) fn decode_all_reporting(&mut self) -> (r: (
        Vec<DecodedField>,
        Option<DecodeError>,
    ))
        requires
            old(self).wf(),
        ensures
            final(self).wf(),
            final(self).spec_buffer() == old(self).spec_buffer(),
            field_views_of(r.0@) == parse_fields(
                old(self).spec_buffer(),
                old(self).spec_offset(),
            ),
            match r.1 {
                None => parse_fields_stop(old(self).spec_buffer(), old(self).spec_offset())
                    == Ok::<(), WireError>(()),
                Some(e) => parse_fields_stop(old(self).spec_buffer(), old(self).spec_offset())
                    == Err::<(), WireError>(e@),
            },
    {
        let ghost b = self.spec_buffer();
        let ghost start = self.spec_offset();
        let mut fields: Vec<DecodedField> = Vec::new();
        let mut stopper: Option<DecodeError> = None;
        let mut done = false;
        proof {
            assert(field_views_of(fields@) =~= Seq::<(u32, ValueModel)>::empty());
        }
        while !done && self.offset < self.buffer.len()
            invariant
                self.wf(),
                self.spec_buffer() == b,
                !done ==> stopper is None,
                !done ==> parse_fields(b, start) == field_views_of(fields@) + parse_fields(
                    b,
                    self.spec_offset(),
                ),
                !done ==> parse_fields_stop(b, start) == parse_fields_stop(
                    b,
                    self.spec_offset(),
                ),
                done ==> parse_fields(b, start) == field_views_of(fields@),
                done ==> match stopper {
                    None => parse_fields_stop(b, start) == Ok::<(), WireError>(()),
                    Some(e) => parse_fields_stop(b, start) == Err::<(), WireError>(e@),
                },
            decreases b.len() - self.spec_offset() + (if done { 0int } else { 1int }),
        {
            let ghost pos = self.spec_offset();
            match self.decode_field() {
                Ok(field) => {
                    let ghost fv = field@;
                    let ghost prev = fields@;
                    fields.push(field);
                    proof {
                        lemma_field_views_of_push(prev, field);
                        assert(fields@ == prev.push(field));
                        assert(field_views_of(fields@) == field_views_of(prev) + seq![fv]);
                        assert(parse_fields(b, pos) == seq![fv] + parse_fields(
                            b,
                            self.spec_offset(),
                        ));
                        assert(parse_fields_stop(b, pos) == parse_fields_stop(
                            b,
                            self.spec_offset(),
                        ));
                        assert(field_views_of(fields@) + parse_fields(b, self.spec_offset())
                            =~= (field_views_of(prev) + parse_fields(b, pos)));
                    }
                },
                Err(e) => {
                    done = true;
                    let truncated = match &e {
                        DecodeError::InsufficientData(_) => true,
                        _ => false,
                    };
                    proof {
                        assert(parse_fields(b, pos) =~= Seq::<(u32, ValueModel)>::empty());
                    }
                    if truncated {
                        proof {
                            assert(e@ == WireError::Insufficient);
                            assert(parse_fields_stop(b, pos) == Ok::<(), WireError>(()));
                        }
                    } else {
                        proof {
                            assert(parse_fields_stop(b, pos) == Err::<(), WireError>(e@));
                        }
                        stopper = Some(e);
                    }
                },
            }
        }
        proof {
            if !done {
                assert(parse_fields(b, self.spec_offset()) =~= Seq::<(u32, ValueModel)>::empty());
                assert(parse_fields_stop(b, self.spec_offset()) == Ok::<(), WireError>(()));
            }
            assert(field_views_of(fields@) + Seq::<(u32, ValueModel)>::empty() =~= field_views_of(
                fields@,
            ));
        }
        (fields, stopper)
    }

    /// Decode fields until the buffer is exhausted or a field fails to
    /// parse; incomplete trailing data is silently discarded.
    pub fn decode_all(&mut self) -> (r: Vec<DecodedField>)
        requires
            old(self).wf(),
        ensures
            final(self).wf(),
            final(self).spec_buffer() == old(self).spec_buffer(),
            field_views_of(r@) == parse_fields(old(self).spec_buffer(), old(self).spec_offset()),
    {
        let (fields, _) = self.decode_all_reporting();
        fields
    }

    /// Whether bytes remain past the cursor.
    pub fn has_more(&self) -> (r: bool)
        requires
            self.wf(),
        ensures
            r == (self.spec_offset() < self.spec_buffer().len()),
    {
        self.offset < self.buffer.len()
    }

    /// The number of bytes remaining past the cursor.
    pub fn remaining(&self) -> (r: usize)
        requires
            self.wf(),
        ensures
            r == self.spec_buffer().len() - self.spec_offset(),
    {
        self.buffer.len() - self.offset
    }

    /// The cursor position.
    pub fn offset(&self) -> (r: usize)
        ensures
            r == self.spec_offset(),
    {
        self.offset
    }
}

} // verus!
