//! A BiWi message: a mapping from field id to value, with a cached
//! serialization that every mutation invalidates.

use vstd::prelude::*;
use crate::value::{BiWiValue, ValueModel, view_of, wf_value, clone_value_ref, clone_bytes};
use crate::keyed::{unique_keys, keyed_map, lemma_keyed_map, lemma_keyed_map_update,
    lemma_keyed_map_push, lemma_keyed_map_remove};
use crate::wire::{fields_bytes, lemma_fields_bytes_take, parse_fields, parse_fields_stop,
    WireError};
use crate::decoder::{BiWiDecoder, DecodeResult};
use crate::encoder::BiWiEncoder;

verus! {

/// The models of a sequence of stored fields.
pub open spec fn stored_field_views(s: Seq<(u32, BiWiValue)>) -> Seq<(u32, ValueModel)>
    decreases s,
{
    if s.len() == 0 {
        Seq::empty()
    } else {
        seq![(s[0].0, view_of(s[0].1))] + stored_field_views(s.drop_first())
    }
}

/// `stored_field_views` is the element-wise model.
pub proof fn lemma_stored_field_views(s: Seq<(u32, BiWiValue)>)
    ensures
        stored_field_views(s).len() == s.len(),
        forall|i: int| 0 <= i < s.len() ==> stored_field_views(s)[i]
            == ((#[trigger] s[i]).0, view_of(s[i].1)),
    decreases s.len(),
{
    if s.len() > 0 {
        lemma_stored_field_views(s.drop_first());
        assert forall|i: int| 0 <= i < s.len() implies stored_field_views(s)[i]
            == ((#[trigger] s[i]).0, view_of(s[i].1)) by {
            if i > 0 {
                assert(s.drop_first()[i - 1] == s[i]);
            }
        }
    }
}

/// Stored views, element by element.
pub proof fn lemma_stored_field_views_eq(a: Seq<(u32, BiWiValue)>, b: Seq<(u32, ValueModel)>)
    requires
        a.len() == b.len(),
        forall|i: int| 0 <= i < a.len() ==> b[i] == ((#[trigger] a[i]).0, view_of(a[i].1)),
    ensures
        stored_field_views(a) == b,
{
    lemma_stored_field_views(a);
    assert forall|i: int| 0 <= i < a.len() implies stored_field_views(a)[i] == b[i] by {
        assert(b[i] == (a[i].0, view_of(a[i].1)));
    }
    assert(stored_field_views(a) =~= b);
}

/// A message: a mapping from unsigned 32-bit field id to value, with a
/// lazily cached serialization.
pub struct BiWiMessage {
    fields: Vec<(u32, BiWiValue)>,
    cached_buffer: Option<Vec<u8>>,
}

impl View for BiWiMessage {
    type V = Map<u32, ValueModel>;

    open spec fn view(&self) -> Map<u32, ValueModel> {
        keyed_map(self.entries())
    }
}

impl BiWiMessage {
    /// The stored fields, in encoding order.
    pub closed spec fn entries(&self) -> Seq<(u32, ValueModel)> {
        stored_field_views(self.fields@)
    }

    /// Whether the cache, if filled, holds the current encoding.
    pub closed spec fn cache_ok(&self) -> bool {
        self.cached_buffer matches Some(b) ==> b@ == fields_bytes(self.entries())
    }

    /// Field ids are unique and the cache, if filled, is current.
    pub open spec fn wf(&self) -> bool {
        unique_keys(self.entries()) && self.cache_ok()
    }

    /// Every stored value fits the wire format's length fields.
    pub open spec fn values_wf(&self) -> bool {
        forall|i: int| 0 <= i < self.entries().len() ==> wf_value(
            (#[trigger] self.entries()[i]).1,
        )
    }

    /// A new empty message.
    pub fn new() -> (r: Self)
        ensures
            r.wf(),
            r.values_wf(),
            r.entries() == Seq::<(u32, ValueModel)>::empty(),
            r@ == Map::<u32, ValueModel>::empty(),
    {
        let r = BiWiMessage { fields: Vec::new(), cached_buffer: None };
        proof {
            assert(r.entries() =~= Seq::<(u32, ValueModel)>::empty());
        }
        r
    }

    /// A new empty message with room reserved for `capacity` fields.
    pub fn with_capacity(capacity: usize) -> (r: Self)
        ensures
            r.wf(),
            r.values_wf(),
            r.entries() == Seq::<(u32, ValueModel)>::empty(),
            r@ == Map::<u32, ValueModel>::empty(),
    {
        let r = BiWiMessage { fields: Vec::with_capacity(capacity), cached_buffer: None };
        proof {
            assert(r.entries() =~= Seq::<(u32, ValueModel)>::empty());
        }
        r
    }

    /// The position of a field id among the stored fields.
    pub closed spec fn key_index(&self, field_id: u32) -> int {
        choose|i: int| 0 <= i < self.entries().len() && self.entries()[i].0 == field_id
    }

    /// Find the storage index of a field id.
    fn find_index(&self, field_id: u32) -> (r: Option<usize>)
        requires
            unique_keys(self.entries()),
        ensures
            match r {
                Some(i) => i == self.key_index(field_id) && 0 <= i < self.entries().len()
                    && self.entries()[i as int].0 == field_id,
                None => forall|i: int| 0 <= i < self.entries().len() ==> (
                #[trigger] self.entries()[i]).0 != field_id,
            },
    {
        proof {
            lemma_stored_field_views(self.fields@);
        }
        let n = self.fields.len();
        let mut i: usize = 0;
        while i < n
            invariant
                i <= n,
                n == self.fields@.len(),
                n == self.entries().len(),
                unique_keys(self.entries()),
                forall|j: int| 0 <= j < i ==> (#[trigger] self.entries()[j]).0 != field_id,
                forall|j: int| 0 <= j < n ==> (#[trigger] self.entries()[j])
                    == (self.fields@[j].0, view_of(self.fields@[j].1)),
            decreases n - i,
        {
            if self.fields[i].0 == field_id {
                proof {
                    assert(self.entries()[i as int].0 == field_id);
                }
                return Some(i);
            }
            i = i + 1;
        }
        None
    }

    /// Insert or overwrite a field; the cached serialization is dropped.
    pub fn set_field(&mut self, field_id: u32, value: BiWiValue)
        requires
            old(self).wf(),
        ensures
            final(self).wf(),
            final(self)@ == old(self)@.insert(field_id, value@),
            old(self).values_wf() && wf_value(value@) ==> final(self).values_wf(),
            !old(self)@.contains_key(field_id) ==> final(self).entries() == old(
                self,
            ).entries().push((field_id, value@)),
            old(self)@.contains_key(field_id) ==> final(self).entries() == old(
                self,
            ).entries().update(old(self).key_index(field_id), (field_id, value@)),
    {
        proof {
            lemma_stored_field_views(self.fields@);
            lemma_keyed_map(self.entries());
        }
        let ghost pre = self.entries();
        match self.find_index(field_id) {
            Some(i) => {
                let ghost value_snap = value;
                self.fields.remove(i);
                self.fields.insert(i, (field_id, value));
                self.cached_buffer = None;
                proof {
                    assert(self.fields@ =~= old(self).fields@.update(
                        i as int,
                        (field_id, value_snap),
                    ));
                    lemma_stored_field_views(old(self).fields@);
                    lemma_stored_field_views_eq(
                        self.fields@,
                        pre.update(i as int, (field_id, view_of(value_snap))),
                    );
                    assert(pre[i as int].0 == field_id);
                    lemma_keyed_map_update(pre, i as int, view_of(value_snap));
                }
            },
            None => {
                let ghost value_snap = value;
                self.fields.push((field_id, value));
                self.cached_buffer = None;
                proof {
                    lemma_stored_field_views(old(self).fields@);
                    lemma_stored_field_views_eq(
                        self.fields@,
                        pre.push((field_id, view_of(value_snap))),
                    );
                    lemma_keyed_map_push(pre, field_id, view_of(value_snap));
                    lemma_keyed_map(pre);
                }
            },
        }
    }

    /// Look up a field.
    pub fn get_field(&self, field_id: u32) -> (r: Option<&BiWiValue>)
        requires
            self.wf(),
        ensures
            match r {
                Some(v) => self@.contains_key(field_id) && v@ == self@[field_id],
                None => !self@.contains_key(field_id),
            },
    {
        proof {
            lemma_stored_field_views(self.fields@);
            lemma_keyed_map(self.entries());
        }
        match self.find_index(field_id) {
            Some(i) => Some(&self.fields[i].1),
            None => None,
        }
    }

    /// Whether a field is present.
    pub fn has_field(&self, field_id: u32) -> (r: bool)
        requires
            self.wf(),
        ensures
            r == self@.contains_key(field_id),
    {
        proof {
            lemma_keyed_map(self.entries());
        }
        match self.find_index(field_id) {
            Some(_) => true,
            None => false,
        }
    }

    /// Remove a field, returning its value; the cached serialization is
    /// dropped.
    pub fn remove_field(&mut self, field_id: u32) -> (r: Option<BiWiValue>)
        requires
            old(self).wf(),
        ensures
            final(self).wf(),
            final(self)@ == old(self)@.remove(field_id),
            old(self).values_wf() ==> final(self).values_wf(),
            match r {
                Some(v) => old(self)@.contains_key(field_id) && v@ == old(self)@[field_id]
                    && final(self).entries() == old(self).entries().remove(
                    old(self).key_index(field_id),
                ),
                None => !old(self)@.contains_key(field_id) && final(self).entries() == old(
                    self,
                ).entries(),
            },
    {
        proof {
            lemma_stored_field_views(self.fields@);
            lemma_keyed_map(self.entries());
        }
        let ghost pre = self.entries();
        match self.find_index(field_id) {
            Some(i) => {
                let (_, v) = self.fields.remove(i);
                self.cached_buffer = None;
                proof {
                    lemma_stored_field_views(old(self).fields@);
                    lemma_stored_field_views_eq(self.fields@, pre.remove(i as int));
                    assert(pre[i as int].0 == field_id);
                    lemma_keyed_map_remove(pre, i as int);
                }
                Some(v)
            },
            None => {
                proof {
                    lemma_keyed_map(self.entries());
                    assert(keyed_map(self.entries()) =~= keyed_map(self.entries()).remove(
                        field_id,
                    ));
                }
                None
            },
        }
    }

    /// All field ids, in storage order.
    pub fn field_ids(&self) -> (r: Vec<u32>)
        ensures
            r@.len() == self.entries().len(),
            forall|i: int| 0 <= i < r@.len() ==> r@[i] == (#[trigger] self.entries()[i]).0,
    {
        proof {
            lemma_stored_field_views(self.fields@);
        }
        let n = self.fields.len();
        let mut ids: Vec<u32> = Vec::with_capacity(n);
        let mut i: usize = 0;
        while i < n
            invariant
                i <= n,
                n == self.fields@.len(),
                n == self.entries().len(),
                ids@.len() == i,
                forall|j: int| 0 <= j < i ==> ids@[j] == (#[trigger] self.entries()[j]).0,
                forall|j: int| 0 <= j < n ==> (#[trigger] self.entries()[j])
                    == (self.fields@[j].0, view_of(self.fields@[j].1)),
            decreases n - i,
        {
            ids.push(self.fields[i].0);
            i = i + 1;
        }
        ids
    }

    /// The number of fields.
    pub fn field_count(&self) -> (r: usize)
        requires
            self.wf(),
        ensures
            r == self.entries().len(),
            r == self@.dom().len(),
    {
        proof {
            lemma_stored_field_views(self.fields@);
            lemma_keyed_map(self.entries());
        }
        self.fields.len()
    }

    /// Remove every field; the cached serialization is dropped.
    pub fn clear(&mut self)
        ensures
            final(self).wf(),
            final(self).values_wf(),
            final(self).entries() == Seq::<(u32, ValueModel)>::empty(),
            final(self)@ == Map::<u32, ValueModel>::empty(),
    {
        self.fields.clear();
        self.cached_buffer = None;
        proof {
            assert(self.entries() =~= Seq::<(u32, ValueModel)>::empty());
        }
    }

    /// A borrow of the stored fields, in encoding order.
    pub fn fields(&self) -> (r: &Vec<(u32, BiWiValue)>)
        ensures
            stored_field_views(r@) == self.entries(),
    {
        &self.fields
    }

    /// Encode the message afresh, without touching the cache.
    pub fn to_vec(&self) -> (r: Vec<u8>)
        requires
            self.values_wf(),
        ensures
            r@ == fields_bytes(self.entries()),
    {
        proof {
            lemma_stored_field_views(self.fields@);
        }
        let ghost fs = self.entries();
        let mut encoder = BiWiEncoder::new();
        let n = self.fields.len();
        let mut i: usize = 0;
        while i < n
            invariant
                i <= n,
                n == self.fields@.len(),
                n == fs.len(),
                fs == self.entries(),
                self.values_wf(),
                encoder@ == fields_bytes(fs.take(i as int)),
                forall|j: int| 0 <= j < n ==> (#[trigger] fs[j]) == (self.fields@[j].0, view_of(
                    self.fields@[j].1,
                )),
            decreases n - i,
        {
            proof {
                lemma_fields_bytes_take(fs, i as int);
                assert(wf_value(fs[i as int].1));
            }
            let entry = &self.fields[i];
            encoder.encode_field(entry.0, &entry.1);
            proof {
                assert(encoder@ =~= fields_bytes(fs.take(i + 1)));
            }
            i = i + 1;
        }
        proof {
            assert(fs.take(n as int) =~= fs);
        }
        encoder.to_buffer()
    }

    /// Encode the message, filling the cache, and return the bytes; the
    /// cache is reused until the next mutation.
    pub fn to_buffer(&mut self) -> (r: Vec<u8>)
        requires
            old(self).wf(),
            old(self).values_wf(),
        ensures
            final(self).wf(),
            final(self).values_wf(),
            final(self).entries() == old(self).entries(),
            final(self)@ == old(self)@,
            r@ == fields_bytes(old(self).entries()),
    {
        let filled = match &self.cached_buffer {
            Some(_) => true,
            None => false,
        };
        if !filled {
            let encoded = self.to_vec();
            self.cached_buffer = Some(encoded);
        }
        match &self.cached_buffer {
            Some(buffer) => clone_bytes(buffer),
            None => {
                proof {
                    assert(false);
                }
                Vec::new()
            },
        }
    }

    /// The size in bytes of the encoded message, caching the encoding.
    pub fn size(&mut self) -> (r: usize)
        requires
            old(self).wf(),
            old(self).values_wf(),
        ensures
            final(self).wf(),
            final(self).values_wf(),
            final(self).entries() == old(self).entries(),
            final(self)@ == old(self)@,
            r == fields_bytes(old(self).entries()).len(),
    {
        let buffer = self.to_buffer();
        buffer.len()
    }

    /// Decode a message from a buffer: fields are read until the buffer
    /// is exhausted.  Clean truncation — the buffer ending inside a
    /// field — silently discards the incomplete tail, while malformed
    /// data at a valid field boundary (an unknown type byte, non-UTF-8
    /// text, a bad packed element type) is surfaced as the error the
    /// decoder reported.  Later occurrences of a field id overwrite
    /// earlier ones.
    pub fn from_buffer(buffer: &[u8]) -> (r: DecodeResult<Self>)
        ensures
            match r {
                Ok(m) => parse_fields_stop(buffer@, 0) == Ok::<(), WireError>(()) && m.wf()
                    && m@ == keyed_map(parse_fields(buffer@, 0)),
                Err(e) => parse_fields_stop(buffer@, 0) == Err::<(), WireError>(e@),
            },
    {
        let mut decoder = BiWiDecoder::new(buffer);
        let mut message = BiWiMessage::new();
        let (fields, stopper) = decoder.decode_all_reporting();
        match stopper {
            Some(e) => {
                return Err(e);
            },
            None => {
            },
        }
        let ghost parsed = parse_fields(buffer@, 0);
        proof {
            crate::decoder::lemma_field_views_of(fields@);
        }
        let n = fields.len();
        let mut i: usize = 0;
        while i < n
            invariant
                i <= n,
                n == fields@.len(),
                crate::decoder::field_views_of(fields@) == parsed,
                parsed.len() == n,
                forall|j: int| 0 <= j < n ==> parsed[j] == (#[trigger] fields@[j])@,
                message.wf(),
                message@ == keyed_map(parsed.take(i as int)),
            decreases n - i,
        {
            let field = &fields[i];
            proof {
                assert(parsed.take(i + 1).drop_last() =~= parsed.take(i as int));
                assert(parsed.take(i + 1).last() == parsed[i as int]);
            }
            message.set_field(field.field_id, clone_value_ref(&field.value));
            i = i + 1;
        }
        proof {
            assert(parsed.take(n as int) =~= parsed);
        }
        Ok(message)
    }
}

impl Default for BiWiMessage {
    /// A fresh, empty message.
    fn default() -> (r: Self)
        ensures
            r.wf(),
            r.values_wf(),
            r@ == Map::<u32, ValueModel>::empty(),
    {
        BiWiMessage::new()
    }
}

impl Clone for BiWiMessage {
    /// A clone carries the same fields; the serialization cache is not
    /// copied and will be rebuilt on demand.
    fn clone(&self) -> (r: Self)
        ensures
            self.wf() ==> r.wf(),
            r.entries() == self.entries(),
            r@ == self@,
    {
        proof {
            lemma_stored_field_views(self.fields@);
        }
        let n = self.fields.len();
        let mut fields: Vec<(u32, BiWiValue)> = Vec::with_capacity(n);
        let mut i: usize = 0;
        while i < n
            invariant
                i <= n,
                n == self.fields@.len(),
                fields@.len() == i,
                forall|j: int| 0 <= j < i ==> (#[trigger] fields@[j]).0 == self.fields@[j].0
                    && fields@[j].1@ == self.fields@[j].1@,
            decreases n - i,
        {
            let entry = &self.fields[i];
            fields.push((entry.0, clone_value_ref(&entry.1)));
            i = i + 1;
        }
        let r = BiWiMessage { fields, cached_buffer: None };
        proof {
            lemma_stored_field_views(r.fields@);
            assert forall|j: int| 0 <= j < n implies stored_field_views(r.fields@)[j]
                == stored_field_views(self.fields@)[j] by {
                assert(r.fields@[j].0 == self.fields@[j].0 && r.fields@[j].1@
                    == self.fields@[j].1@);
            }
            assert(stored_field_views(r.fields@) =~= stored_field_views(self.fields@));
        }
        r
    }
}

} // verus!
