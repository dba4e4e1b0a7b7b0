//! The BiWi encoder: serializes values and framed fields into a byte
//! buffer.  Every method's output is pinned to the spec functions of
//! [`crate::wire`].

use vstd::prelude::*;
use vstd::slice::slice_index_get;
use crate::value::{BiWiValue, ValueModel, views_of, entry_views_of, wf_value,
    lemma_views_of, lemma_entry_views_of};
use crate::wire::{varint, zigzag32, zigzag64, small_int_byte, int32_payload, int64_payload,
    be_bytes_u32, be_bytes_u64, value_bytes, values_bytes, entries_bytes,
    packed_body, packable, packed_type_code, all_int32, all_int64,
    all_float32, all_float64, wire_hint, header_bytes, field_bytes, chunk_start_bytes,
    chunk_data_bytes, lemma_values_bytes_take, lemma_entries_bytes_take, lemma_packed_body_take};

verus! {

/// Encoder for the BiWi binary format: an append-only byte buffer.
pub struct BiWiEncoder {
    buffer: Vec<u8>,
}

impl View for BiWiEncoder {
    type V = Seq<u8>;

    closed spec fn view(&self) -> Seq<u8> {
        self.buffer@
    }
}

impl BiWiEncoder {
    /// A fresh, empty encoder.
    pub fn new() -> (r: Self)
        ensures
            r@ == Seq::<u8>::empty(),
    {
        Self::with_capacity(128)
    }

    /// A fresh, empty encoder with room reserved for `capacity` bytes.
    pub fn with_capacity(capacity: usize) -> (r: Self)
        ensures
            r@ == Seq::<u8>::empty(),
    {
        BiWiEncoder { buffer: Vec::with_capacity(capacity) }
    }

    /// Append the bytes of a slice.
    fn push_bytes(&mut self, bytes: &[u8])
        ensures
            final(self)@ == old(self)@ + bytes@,
    {
        let ghost orig = self.buffer@;
        let n = bytes.len();
        let mut i: usize = 0;
        while i < n
            invariant
                i <= n,
                n == bytes@.len(),
                self.buffer@ == orig + bytes@.take(i as int),
            decreases n - i,
        {
            self.buffer.push(*slice_index_get(bytes, i));
            proof {
                assert(bytes@.take(i + 1) =~= bytes@.take(i as int).push(bytes@[i as int]));
            }
            i = i + 1;
        }
        proof {
            assert(bytes@.take(n as int) =~= bytes@);
        }
    }

    /// Write a varint: little-endian base-128, continuation bit on every
    /// byte but the last.
    pub fn write_varint(&mut self, value: u32)
        ensures
            final(self)@ == old(self)@ + varint(value as nat),
    {
        if value < 0x80 {
            self.buffer.push(value as u8);
            proof {
                assert(old(self)@ + varint(value as nat) =~= self.buffer@);
            }
        } else if value < 0x4000 {
            self.buffer.push((value % 128 + 128) as u8);
            self.buffer.push((value / 128) as u8);
            proof {
                assert(varint((value / 128) as nat) =~= seq![(value / 128) as u8]);
                assert(old(self)@ + varint(value as nat) =~= self.buffer@);
            }
        } else {
            let ghost orig = self.buffer@;
            let mut v = value;
            while v >= 0x80
                invariant
                    orig + varint(value as nat) == self.buffer@ + varint(v as nat),
                decreases v,
            {
                self.buffer.push((v % 128 + 128) as u8);
                proof {
                    assert(varint(v as nat) =~= seq![(128 + v as nat % 128) as u8] + varint(
                        v as nat / 128,
                    ));
                    assert((self.buffer@ + varint((v / 128) as nat)) =~= (self.buffer@.drop_last()
                        + varint(v as nat)));
                }
                v = v / 128;
            }
            self.buffer.push(v as u8);
            proof {
                assert(varint(v as nat) =~= seq![v as u8]);
                assert(orig + varint(value as nat) =~= self.buffer@);
            }
        }
    }

    /// Write a 64-bit varint.
    pub fn write_varint_u64(&mut self, value: u64)
        ensures
            final(self)@ == old(self)@ + varint(value as nat),
    {
        if value < 0x80 {
            self.buffer.push(value as u8);
            proof {
                assert(old(self)@ + varint(value as nat) =~= self.buffer@);
            }
        } else if value < 0x4000 {
            self.buffer.push((value % 128 + 128) as u8);
            self.buffer.push((value / 128) as u8);
            proof {
                assert(varint((value / 128) as nat) =~= seq![(value / 128) as u8]);
                assert(old(self)@ + varint(value as nat) =~= self.buffer@);
            }
        } else {
            let ghost orig = self.buffer@;
            let mut v = value;
            while v >= 0x80
                invariant
                    orig + varint(value as nat) == self.buffer@ + varint(v as nat),
                decreases v,
            {
                self.buffer.push((v % 128 + 128) as u8);
                proof {
                    assert(varint(v as nat) =~= seq![(128 + v as nat % 128) as u8] + varint(
                        v as nat / 128,
                    ));
                    assert((self.buffer@ + varint((v / 128) as nat)) =~= (self.buffer@.drop_last()
                        + varint(v as nat)));
                }
                v = v / 128;
            }
            self.buffer.push(v as u8);
            proof {
                assert(varint(v as nat) =~= seq![v as u8]);
                assert(orig + varint(value as nat) =~= self.buffer@);
            }
        }
    }

    /// ZigZag-code a 32-bit integer.
    pub fn zigzag_encode_i32(n: i32) -> (r: u32)
        ensures
            r as nat == zigzag32(n as int),
    {
        if n >= 0 {
            (n as u32) * 2
        } else {
            let m = -(n + 1);
            (m as u32) * 2 + 1
        }
    }

    /// ZigZag-code a 64-bit integer.
    pub fn zigzag_encode_i64(n: i64) -> (r: u64)
        ensures
            r as nat == zigzag64(n as int),
    {
        if n >= 0 {
            (n as u64) * 2
        } else {
            let m = -(n + 1);
            (m as u64) * 2 + 1
        }
    }

    /// Write an `Int32` payload: inline byte for `[-64, 63]`, zigzag
    /// varint otherwise.
    fn write_int32_payload(&mut self, n: i32)
        ensures
            final(self)@ == old(self)@ + int32_payload(n as int),
    {
        if -64 <= n && n <= 63 {
            let b: u8 = if n >= 0 {
                128 + (n as u8)
            } else {
                ((n + 128) as u8) + 128
            };
            self.buffer.push(b);
            proof {
                assert(b == small_int_byte(n as int));
                assert(old(self)@ + int32_payload(n as int) =~= self.buffer@);
            }
        } else {
            let zz = Self::zigzag_encode_i32(n);
            self.write_varint(zz);
        }
    }

    /// Write an `Int64` payload.
    fn write_int64_payload(&mut self, n: i64)
        ensures
            final(self)@ == old(self)@ + int64_payload(n as int),
    {
        if -64 <= n && n <= 63 {
            let b: u8 = if n >= 0 {
                128 + (n as u8)
            } else {
                ((n + 128) as u8) + 128
            };
            self.buffer.push(b);
            proof {
                assert(b == small_int_byte(n as int));
                assert(old(self)@ + int64_payload(n as int) =~= self.buffer@);
            }
        } else {
            let zz = Self::zigzag_encode_i64(n);
            self.write_varint_u64(zz);
        }
    }

    /// Write the four big-endian bytes of a `u32`.
    fn write_be_u32(&mut self, x: u32)
        ensures
            final(self)@ == old(self)@ + be_bytes_u32(x),
    {
        self.buffer.push((x / 0x100_0000) as u8);
        self.buffer.push(((x / 0x1_0000) % 0x100) as u8);
        self.buffer.push(((x / 0x100) % 0x100) as u8);
        self.buffer.push((x % 0x100) as u8);
        proof {
            assert(old(self)@ + be_bytes_u32(x) =~= self.buffer@);
        }
    }

    /// Write the eight big-endian bytes of a `u64`.
    fn write_be_u64(&mut self, x: u64)
        ensures
            final(self)@ == old(self)@ + be_bytes_u64(x),
    {
        self.buffer.push((x / 0x100_0000_0000_0000) as u8);
        self.buffer.push(((x / 0x1_0000_0000_0000) % 0x100) as u8);
        self.buffer.push(((x / 0x100_0000_0000) % 0x100) as u8);
        self.buffer.push(((x / 0x1_0000_0000) % 0x100) as u8);
        self.buffer.push(((x / 0x100_0000) % 0x100) as u8);
        self.buffer.push(((x / 0x1_0000) % 0x100) as u8);
        self.buffer.push(((x / 0x100) % 0x100) as u8);
        self.buffer.push((x % 0x100) as u8);
        proof {
            assert(old(self)@ + be_bytes_u64(x) =~= self.buffer@);
        }
    }

    /// Write a length or count: one byte below 128, a varint otherwise.
    /// On the wire the two coincide, since a one-byte varint is that byte.
    fn write_count(&mut self, n: u32)
        ensures
            final(self)@ == old(self)@ + varint(n as nat),
    {
        if n < 128 {
            self.buffer.push(n as u8);
            proof {
                assert(old(self)@ + varint(n as nat) =~= self.buffer@);
            }
        } else {
            self.write_varint(n);
        }
    }

    /// Encode a complete field: header, then the value.
    pub fn encode_field(&mut self, field_id: u32, value: &BiWiValue)
        requires
            wf_value(value@),
        ensures
            final(self)@ == old(self)@ + field_bytes(field_id, value@),
    {
        let wire_type: u8 = match value {
            BiWiValue::Int32(_) | BiWiValue::Int64(_) => 2,
            BiWiValue::String(_) | BiWiValue::Binary(_) | BiWiValue::Array(_)
                | BiWiValue::Object(_) => 3,
            BiWiValue::Float32(_) => 0,
            BiWiValue::Float64(_) => 1,
            _ => 2,
        };
        proof {
            assert(wire_type == wire_hint(value@));
        }
        if field_id > 0 && field_id <= 63 {
            self.buffer.push((field_id as u8) * 4 + wire_type);
            proof {
                assert(header_bytes(field_id, wire_type) =~= seq![
                    (4 * field_id + wire_type) as u8,
                ]);
            }
        } else {
            self.write_varint_u64((field_id as u64) * 8 + (wire_type as u64));
        }
        self.encode_value(value);
        proof {
            assert(old(self)@ + field_bytes(field_id, value@) =~= self.buffer@);
        }
    }

    /// Encode one value, type byte first.
    pub fn encode_value(&mut self, value: &BiWiValue)
        requires
            wf_value(value@),
        ensures
            final(self)@ == old(self)@ + value_bytes(value@),
        decreases value, 2nat,
    {
        match value {
            BiWiValue::Null => {
                self.buffer.push(0x00);
                proof {
                    assert(old(self)@ + value_bytes(value@) =~= self.buffer@);
                }
            },
            BiWiValue::Boolean(b) => {
                if *b {
                    self.buffer.push(0x01);
                } else {
                    self.buffer.push(0xFF);
                }
                proof {
                    assert(old(self)@ + value_bytes(value@) =~= self.buffer@);
                }
            },
            BiWiValue::Int32(n) => {
                self.buffer.push(0x02);
                self.write_int32_payload(*n);
                proof {
                    assert(old(self)@ + value_bytes(value@) =~= self.buffer@);
                }
            },
            BiWiValue::Int64(n) => {
                self.buffer.push(0x03);
                self.write_int64_payload(*n);
                proof {
                    assert(old(self)@ + value_bytes(value@) =~= self.buffer@);
                }
            },
            BiWiValue::Float32(bits) => {
                self.buffer.push(0x04);
                self.write_be_u32(*bits);
                proof {
                    assert(old(self)@ + value_bytes(value@) =~= self.buffer@);
                }
            },
            BiWiValue::Float64(bits) => {
                self.buffer.push(0x05);
                self.write_be_u64(*bits);
                proof {
                    assert(old(self)@ + value_bytes(value@) =~= self.buffer@);
                }
            },
            BiWiValue::SmallString(s) => {
                self.buffer.push(0x06);
                let bytes = s.as_bytes();
                self.buffer.push(128 + (bytes.len() as u8));
                self.push_bytes(bytes);
                proof {
                    assert(old(self)@ + value_bytes(value@) =~= self.buffer@);
                }
            },
            BiWiValue::String(s) => {
                self.encode_string(s);
            },
            BiWiValue::Binary(data) => {
                self.encode_binary(data);
            },
            BiWiValue::Array(items) => {
                proof {
                    assert(decreases_to!(*value => *items));
                }
                self.encode_array(items);
            },
            BiWiValue::Object(entries) => {
                proof {
                    assert(decreases_to!(*value => *entries));
                }
                self.encode_object(entries);
            },
        }
    }

    /// Encode a string: type byte, varint byte length, UTF-8 bytes.
    fn encode_string(&mut self, s: &String)
        requires
            wf_value(ValueModel::Str(s@)),
        ensures
            final(self)@ == old(self)@ + value_bytes(ValueModel::Str(s@)),
    {
        self.buffer.push(0x06);
        let bytes = s.as_str().as_bytes();
        let length = bytes.len() as u32;
        if length < 128 {
            self.buffer.push(length as u8);
        } else if length < 0x4000 {
            self.buffer.push((length % 128 + 128) as u8);
            self.buffer.push((length / 128) as u8);
            proof {
                assert(varint((length / 128) as nat) =~= seq![(length / 128) as u8]);
            }
        } else {
            self.write_varint(length);
        }
        self.push_bytes(bytes);
        proof {
            assert(old(self)@ + value_bytes(ValueModel::Str(s@)) =~= self.buffer@);
        }
    }

    /// Encode binary data: type byte, varint length, raw bytes.
    fn encode_binary(&mut self, data: &Vec<u8>)
        requires
            wf_value(ValueModel::Bin(data@)),
        ensures
            final(self)@ == old(self)@ + value_bytes(ValueModel::Bin(data@)),
    {
        self.buffer.push(0x07);
        self.write_varint(data.len() as u32);
        self.push_bytes(data.as_slice());
        proof {
            assert(old(self)@ + value_bytes(ValueModel::Bin(data@)) =~= self.buffer@);
        }
    }

    /// The packed element type byte of a homogeneous primitive array,
    /// `None` when the array cannot be packed.
    fn packed_code(items: &Vec<BiWiValue>) -> (r: Option<u8>)
        ensures
            match r {
                Some(c) => packable(views_of(items@)) && c == packed_type_code(views_of(items@)),
                None => !packable(views_of(items@)),
            },
    {
        proof {
            lemma_views_of(items@);
        }
        if items.len() == 0 {
            return None;
        }
        let ghost es = views_of(items@);
        let n = items.len();
        match &items[0] {
            BiWiValue::Int32(_) => {
                let mut i: usize = 1;
                while i < n
                    invariant
                        1 <= i <= n,
                        n == items@.len(),
                        es == views_of(items@),
                        es.len() == n,
                        forall|j: int| 0 <= j < i ==> (#[trigger] es[j]) is Int32,
                    decreases n - i,
                {
                    if !(matches!(&items[i], BiWiValue::Int32(_))) {
                        proof {
                            lemma_views_of(items@);
                            assert(!(es[i as int] is Int32));
                        }
                        return None;
                    }
                    proof {
                        lemma_views_of(items@);
                    }
                    i = i + 1;
                }
                proof {
                    assert(all_int32(es));
                }
                Some(0x02)
            },
            BiWiValue::Int64(_) => {
                let mut i: usize = 1;
                while i < n
                    invariant
                        1 <= i <= n,
                        n == items@.len(),
                        es == views_of(items@),
                        es.len() == n,
                        forall|j: int| 0 <= j < i ==> (#[trigger] es[j]) is Int64,
                    decreases n - i,
                {
                    if !(matches!(&items[i], BiWiValue::Int64(_))) {
                        proof {
                            lemma_views_of(items@);
                            assert(!(es[i as int] is Int64));
                        }
                        return None;
                    }
                    proof {
                        lemma_views_of(items@);
                    }
                    i = i + 1;
                }
                proof {
                    assert(all_int64(es));
                    assert(!all_int32(es));
                }
                Some(0x03)
            },
            BiWiValue::Float32(_) => {
                let mut i: usize = 1;
                while i < n
                    invariant
                        1 <= i <= n,
                        n == items@.len(),
                        es == views_of(items@),
                        es.len() == n,
                        forall|j: int| 0 <= j < i ==> (#[trigger] es[j]) is Float32,
                    decreases n - i,
                {
                    if !(matches!(&items[i], BiWiValue::Float32(_))) {
                        proof {
                            lemma_views_of(items@);
                            assert(!(es[i as int] is Float32));
                        }
                        return None;
                    }
                    proof {
                        lemma_views_of(items@);
                    }
                    i = i + 1;
                }
                proof {
                    assert(all_float32(es));
                    assert(!all_int32(es));
                    assert(!all_int64(es));
                }
                Some(0x04)
            },
            BiWiValue::Float64(_) => {
                let mut i: usize = 1;
                while i < n
                    invariant
                        1 <= i <= n,
                        n == items@.len(),
                        es == views_of(items@),
                        es.len() == n,
                        forall|j: int| 0 <= j < i ==> (#[trigger] es[j]) is Float64,
                    decreases n - i,
                {
                    if !(matches!(&items[i], BiWiValue::Float64(_))) {
                        proof {
                            lemma_views_of(items@);
                            assert(!(es[i as int] is Float64));
                        }
                        return None;
                    }
                    proof {
                        lemma_views_of(items@);
                    }
                    i = i + 1;
                }
                proof {
                    assert(all_float64(es));
                    assert(!all_int32(es));
                    assert(!all_int64(es));
                    assert(!all_float32(es));
                }
                Some(0x05)
            },
            _ => {
                proof {
                    lemma_views_of(items@);
                    assert(!(es[0] is Int32));
                }
                None
            },
        }
    }

    /// Encode an array, packing homogeneous primitive arrays.
    fn encode_array(&mut self, items: &Vec<BiWiValue>)
        requires
            wf_value(ValueModel::Arr(views_of(items@))),
        ensures
            final(self)@ == old(self)@ + value_bytes(ValueModel::Arr(views_of(items@))),
        decreases items, 1nat,
    {
        proof {
            lemma_views_of(items@);
        }
        let ghost es = views_of(items@);
        match Self::packed_code(items) {
            Some(code) => {
                self.encode_packed_array(items, code);
            },
            None => {
                self.buffer.push(0x08);
                self.write_count(items.len() as u32);
                let ghost header = self.buffer@;
                let n = items.len();
                let mut i: usize = 0;
                while i < n
                    invariant
                        i <= n,
                        n == items@.len(),
                        es == views_of(items@),
                        es.len() == n,
                        forall|j: int| 0 <= j < n ==> wf_value(#[trigger] es[j]),
                        self.buffer@ == header + values_bytes(es.take(i as int)),
                    decreases n - i,
                {
                    proof {
                        lemma_views_of(items@);
                        assert(decreases_to!(*items => items@[i as int]));
                        lemma_values_bytes_take(es, i as int);
                    }
                    self.encode_value(&items[i]);
                    i = i + 1;
                }
                proof {
                    assert(es.take(n as int) =~= es);
                    assert(old(self)@ + value_bytes(ValueModel::Arr(es)) =~= self.buffer@);
                }
            },
        }
    }

    /// Encode a packed array: marked type byte, element type byte, count,
    /// then bare element payloads.
    fn encode_packed_array(&mut self, items: &Vec<BiWiValue>, code: u8)
        requires
            wf_value(ValueModel::Arr(views_of(items@))),
            packable(views_of(items@)),
            code == packed_type_code(views_of(items@)),
        ensures
            final(self)@ == old(self)@ + value_bytes(ValueModel::Arr(views_of(items@))),
    {
        proof {
            lemma_views_of(items@);
        }
        let ghost es = views_of(items@);
        self.buffer.push(0x88);
        self.buffer.push(code);
        self.write_count(items.len() as u32);
        let ghost header = self.buffer@;
        let n = items.len();
        let mut i: usize = 0;
        while i < n
            invariant
                i <= n,
                n == items@.len(),
                es == views_of(items@),
                es.len() == n,
                packable(es),
                self.buffer@ == header + packed_body(es.take(i as int)),
            decreases n - i,
        {
            proof {
                lemma_views_of(items@);
                lemma_packed_body_take(es, i as int);
            }
            match &items[i] {
                BiWiValue::Int32(m) => {
                    let zz = Self::zigzag_encode_i32(*m);
                    self.write_varint(zz);
                },
                BiWiValue::Int64(m) => {
                    let zz = Self::zigzag_encode_i64(*m);
                    self.write_varint_u64(zz);
                },
                BiWiValue::Float32(bits) => {
                    self.write_be_u32(*bits);
                },
                BiWiValue::Float64(bits) => {
                    self.write_be_u64(*bits);
                },
                _ => {
                    proof {
                        assert(es[i as int] is Int32 || es[i as int] is Int64 || es[i as int]
                            is Float32 || es[i as int] is Float64);
                        assert(false);
                    }
                },
            }
            i = i + 1;
        }
        proof {
            assert(es.take(n as int) =~= es);
            assert(old(self)@ + value_bytes(ValueModel::Arr(es)) =~= self.buffer@);
        }
    }

    /// Encode an object: type byte, entry count, then for each entry the
    /// key length, key bytes and value.
    fn encode_object(&mut self, entries: &Vec<(String, BiWiValue)>)
        requires
            wf_value(ValueModel::Obj(entry_views_of(entries@))),
        ensures
            final(self)@ == old(self)@ + value_bytes(ValueModel::Obj(entry_views_of(entries@))),
        decreases entries, 1nat,
    {
        proof {
            lemma_entry_views_of(entries@);
        }
        let ghost en = entry_views_of(entries@);
        self.buffer.push(0x09);
        self.write_count(entries.len() as u32);
        let ghost header = self.buffer@;
        let n = entries.len();
        let mut i: usize = 0;
        while i < n
            invariant
                i <= n,
                n == entries@.len(),
                en == entry_views_of(entries@),
                en.len() == n,
                forall|j: int| 0 <= j < n ==> wf_value((#[trigger] en[j]).1)
                    && vstd::utf8::encode_utf8(en[j].0).len() < 0x1_0000_0000,
                self.buffer@ == header + entries_bytes(en.take(i as int)),
            decreases n - i,
        {
            proof {
                lemma_entry_views_of(entries@);
                lemma_entries_bytes_take(en, i as int);
                assert(decreases_to!(*entries => entries@[i as int]));
                assert(decreases_to!(entries@[i as int] => entries@[i as int].1));
            }
            let entry = &entries[i];
            let key_bytes = entry.0.as_str().as_bytes();
            self.write_count(key_bytes.len() as u32);
            self.push_bytes(key_bytes);
            self.encode_value(&entry.1);
            i = i + 1;
        }
        proof {
            assert(en.take(n as int) =~= en);
            assert(old(self)@ + value_bytes(ValueModel::Obj(en)) =~= self.buffer@);
        }
    }

    /// Write a streaming chunk-start record.
    pub fn encode_chunk_start(&mut self, field_id: u16, total_size: u32)
        ensures
            final(self)@ == old(self)@ + chunk_start_bytes(field_id, total_size),
    {
        self.buffer.push(0x0A);
        self.buffer.push((field_id / 0x100) as u8);
        self.buffer.push((field_id % 0x100) as u8);
        self.write_be_u32(total_size);
        proof {
            assert(old(self)@ + chunk_start_bytes(field_id, total_size) =~= self.buffer@);
        }
    }

    /// Write a streaming chunk-data record.  The data must fit the
    /// record's 16-bit length field.
    pub fn encode_chunk_data(&mut self, chunk_index: u16, data: &[u8])
        requires
            data@.len() < 0x1_0000,
        ensures
            final(self)@ == old(self)@ + chunk_data_bytes(chunk_index, data@),
    {
        self.buffer.push(0x0B);
        self.buffer.push((chunk_index / 0x100) as u8);
        self.buffer.push((chunk_index % 0x100) as u8);
        let len = data.len() as u16;
        self.buffer.push((len / 0x100) as u8);
        self.buffer.push((len % 0x100) as u8);
        self.push_bytes(data);
        proof {
            assert(old(self)@ + chunk_data_bytes(chunk_index, data@) =~= self.buffer@);
        }
    }

    /// Write a streaming chunk-end record.
    pub fn encode_chunk_end(&mut self)
        ensures
            final(self)@ == old(self)@ + seq![0x0Cu8],
    {
        self.buffer.push(0x0C);
        proof {
            assert(old(self)@ + seq![0x0Cu8] =~= self.buffer@);
        }
    }

    /// The encoded bytes, consuming the encoder.
    pub fn to_buffer(self) -> (r: Vec<u8>)
        ensures
            r@ == self@,
    {
        self.buffer
    }

    /// A borrow of the encoded bytes.
    pub fn as_slice(&self) -> (r: &[u8])
        ensures
            r@ == self@,
    {
        self.buffer.as_slice()
    }

    /// The number of bytes encoded so far.
    pub fn size(&self) -> (r: usize)
        ensures
            r == self@.len(),
    {
        self.buffer.len()
    }

    /// Clear the buffer for reuse.
    pub fn reset(&mut self)
        ensures
            final(self)@ == Seq::<u8>::empty(),
    {
        self.buffer.clear();
    }
}

impl Default for BiWiEncoder {
    /// A fresh, empty encoder.
    fn default() -> (r: Self)
        ensures
            r@ == Seq::<u8>::empty(),
    {
        BiWiEncoder::new()
    }
}

} // verus!
