//! The BiWi value model: a tagged union over null, booleans, integers,
//! floating-point bit patterns, strings, binary blobs, arrays and objects.
//!
//! Floating-point payloads are carried as their IEEE-754 bit patterns
//! (`u32` / `u64`); the wire format only ever moves those bits, so the
//! codec itself never performs floating-point arithmetic.

use vstd::prelude::*;
use vstd::utf8::encode_utf8;

verus! {

/// The mathematical model of a value: what the contracts speak about.
/// Strings are sequences of characters, binary data a sequence of bytes,
/// and an object an ordered sequence of key/value entries.
pub enum ValueModel {
    Null,
    Bool(bool),
    Int32(i32),
    Int64(i64),
    /// IEEE-754 single-precision bit pattern.
    Float32(u32),
    /// IEEE-754 double-precision bit pattern.
    Float64(u64),
    SmallStr(Seq<char>),
    Str(Seq<char>),
    Bin(Seq<u8>),
    Arr(Seq<ValueModel>),
    Obj(Seq<(Seq<char>, ValueModel)>),
}

/// Values whose sizes fit the wire format's 32-bit length fields, with
/// small strings actually small.
pub open spec fn wf_value(m: ValueModel) -> bool
    decreases m,
{
    match m {
        ValueModel::SmallStr(s) => encode_utf8(s).len() <= 15,
        ValueModel::Str(s) => encode_utf8(s).len() < 0x1_0000_0000,
        ValueModel::Bin(b) => b.len() < 0x1_0000_0000,
        ValueModel::Arr(es) => es.len() < 0x1_0000_0000 && (forall|i: int|
            0 <= i < es.len() ==> wf_value(#[trigger] es[i])),
        ValueModel::Obj(en) => en.len() < 0x1_0000_0000 && (forall|i: int|
            0 <= i < en.len() ==> encode_utf8((#[trigger] en[i]).0).len() < 0x1_0000_0000
                && wf_value(en[i].1)),
        _ => true,
    }
}

/// An inline string of at most 15 UTF-8 bytes.  On the wire it is written
/// with a one-byte marker length; in memory it simply owns its text.
#[derive(Debug, PartialEq, Eq)]
pub struct SmallString {
    s: String,
}

impl Clone for SmallString {
    /// A clone holds the same text.
    fn clone(&self) -> (r: Self)
        ensures
            r == *self,
    {
        proof {
            use_type_invariant(self);
        }
        SmallString { s: self.s.clone() }
    }
}

impl View for SmallString {
    type V = Seq<char>;

    closed spec fn view(&self) -> Seq<char> {
        self.s@
    }
}

impl SmallString {
    /// Every `SmallString` holds at most 15 bytes of UTF-8.
    #[verifier::type_invariant]
    pub closed spec fn type_inv(self) -> bool {
        encode_utf8(self.s@).len() <= 15
    }

    /// Wrap a string of at most 15 UTF-8 bytes; longer input is refused.
    pub fn new(s: &str) -> (r: Option<SmallString>)
        ensures
            r is Some <==> encode_utf8(s@).len() <= 15,
            r is Some ==> r->0@ == s@,
    {
        let bytes = s.as_bytes();
        if bytes.len() > 15 {
            return None;
        }
        Some(SmallString { s: s.to_owned() })
    }

    /// The text held.
    pub fn as_str(&self) -> (r: &str)
        ensures
            r@ == self@,
    {
        self.s.as_str()
    }

    /// The UTF-8 bytes held; at most 15 of them.
    pub fn as_bytes(&self) -> (r: &[u8])
        ensures
            r@ == encode_utf8(self@),
            r@.len() <= 15,
    {
        proof {
            use_type_invariant(self);
        }
        self.s.as_str().as_bytes()
    }
}

/// A BiWi value.  `Float32` and `Float64` carry IEEE-754 bit patterns;
/// converting to and from the machine float types is the caller's concern.
#[derive(Debug, PartialEq)]
pub enum BiWiValue {
    Null,
    Boolean(bool),
    Int32(i32),
    Int64(i64),
    Float32(u32),
    Float64(u64),
    /// Small string (at most 15 UTF-8 bytes), written inline with a marker
    /// length byte.
    SmallString(SmallString),
    /// String of any length, written with a varint length.
    String(String),
    Binary(Vec<u8>),
    Array(Vec<BiWiValue>),
    /// Object entries in encoding order; keys are expected to be distinct.
    Object(Vec<(String, BiWiValue)>),
}

/// The model of a value.
pub open spec fn view_of(v: BiWiValue) -> ValueModel
    decreases v, 0nat,
{
    match v {
        BiWiValue::Null => ValueModel::Null,
        BiWiValue::Boolean(b) => ValueModel::Bool(b),
        BiWiValue::Int32(n) => ValueModel::Int32(n),
        BiWiValue::Int64(n) => ValueModel::Int64(n),
        BiWiValue::Float32(bits) => ValueModel::Float32(bits),
        BiWiValue::Float64(bits) => ValueModel::Float64(bits),
        BiWiValue::SmallString(s) => ValueModel::SmallStr(s@),
        BiWiValue::String(s) => ValueModel::Str(s@),
        BiWiValue::Binary(b) => ValueModel::Bin(b@),
        BiWiValue::Array(items) => ValueModel::Arr(views_of(items@)),
        BiWiValue::Object(entries) => ValueModel::Obj(entry_views_of(entries@)),
    }
}

/// The models of a sequence of values.
pub open spec fn views_of(s: Seq<BiWiValue>) -> Seq<ValueModel>
    decreases s, 1nat,
{
    if s.len() == 0 {
        Seq::empty()
    } else {
        seq![view_of(s[0])] + views_of(s.drop_first())
    }
}

/// The models of a sequence of object entries.
pub open spec fn entry_views_of(s: Seq<(String, BiWiValue)>) -> Seq<(Seq<char>, ValueModel)>
    decreases s, 1nat,
{
    if s.len() == 0 {
        Seq::empty()
    } else {
        seq![(s[0].0@, view_of(s[0].1))] + entry_views_of(s.drop_first())
    }
}

/// Prepending an element prepends its model.
pub proof fn lemma_views_of_cons(v: BiWiValue, s: Seq<BiWiValue>)
    ensures
        views_of(seq![v] + s) == seq![view_of(v)] + views_of(s),
{
    let c = seq![v] + s;
    assert(c[0] == v);
    assert(c.drop_first() =~= s);
    assert(views_of(c) =~= seq![view_of(v)] + views_of(s));
}

/// Prepending an entry prepends its model.
pub proof fn lemma_entry_views_of_cons(e: (String, BiWiValue), s: Seq<(String, BiWiValue)>)
    ensures
        entry_views_of(seq![e] + s) == seq![(e.0@, view_of(e.1))] + entry_views_of(s),
{
    let c = seq![e] + s;
    assert(c[0] == e);
    assert(c.drop_first() =~= s);
    assert(entry_views_of(c) =~= seq![(e.0@, view_of(e.1))] + entry_views_of(s));
}

impl View for BiWiValue {
    type V = ValueModel;

    open spec fn view(&self) -> ValueModel {
        view_of(*self)
    }
}

/// `views_of` is the element-wise model.
pub proof fn lemma_views_of(s: Seq<BiWiValue>)
    ensures
        views_of(s).len() == s.len(),
        forall|i: int| 0 <= i < s.len() ==> views_of(s)[i] == view_of(#[trigger] s[i]),
    decreases s.len(),
{
    if s.len() > 0 {
        lemma_views_of(s.drop_first());
        assert forall|i: int| 0 <= i < s.len() implies views_of(s)[i] == view_of(#[trigger] s[i]) by {
            if i > 0 {
                assert(s.drop_first()[i - 1] == s[i]);
            }
        }
    }
}

/// `entry_views_of` is the element-wise model.
pub proof fn lemma_entry_views_of(s: Seq<(String, BiWiValue)>)
    ensures
        entry_views_of(s).len() == s.len(),
        forall|i: int| 0 <= i < s.len() ==> entry_views_of(s)[i]
            == ((#[trigger] s[i]).0@, view_of(s[i].1)),
    decreases s.len(),
{
    if s.len() > 0 {
        lemma_entry_views_of(s.drop_first());
        assert forall|i: int| 0 <= i < s.len() implies entry_views_of(s)[i]
            == ((#[trigger] s[i]).0@, view_of(s[i].1)) by {
            if i > 0 {
                assert(s.drop_first()[i - 1] == s[i]);
            }
        }
    }
}

/// Copy a byte vector.
pub(crate) fn clone_bytes(bytes: &Vec<u8>) -> (r: Vec<u8>)
    ensures
        r@ == bytes@,
{
    let n = bytes.len();
    let mut out: Vec<u8> = Vec::with_capacity(n);
    let mut i: usize = 0;
    while i < n
        invariant
            i <= n,
            n == bytes@.len(),
            out@ == bytes@.take(i as int),
        decreases n - i,
    {
        out.push(bytes[i]);
        proof {
            assert(bytes@.take(i + 1) =~= bytes@.take(i as int).push(bytes@[i as int]));
        }
        i = i + 1;
    }
    proof {
        assert(bytes@.take(n as int) =~= bytes@);
    }
    out
}

/// Deep-copy a value; the copy has the same model.
#[verifier::loop_isolation(false)]
pub fn clone_value_ref(v: &BiWiValue) -> (r: BiWiValue)
    ensures
        r@ == v@,
    decreases v,
{
    match v {
        BiWiValue::Null => BiWiValue::Null,
        BiWiValue::Boolean(b) => BiWiValue::Boolean(*b),
        BiWiValue::Int32(n) => BiWiValue::Int32(*n),
        BiWiValue::Int64(n) => BiWiValue::Int64(*n),
        BiWiValue::Float32(bits) => BiWiValue::Float32(*bits),
        BiWiValue::Float64(bits) => BiWiValue::Float64(*bits),
        BiWiValue::SmallString(s) => BiWiValue::SmallString(s.clone()),
        BiWiValue::String(s) => BiWiValue::String(s.clone()),
        BiWiValue::Binary(b) => BiWiValue::Binary(clone_bytes(b)),
        BiWiValue::Array(items) => {
            let n = items.len();
            let mut out: Vec<BiWiValue> = Vec::with_capacity(n);
            let mut i: usize = 0;
            while i < n
                invariant
                    i <= n,
                    n == items@.len(),
                    *v == BiWiValue::Array(*items),
                    out@.len() == i,
                    forall|j: int| 0 <= j < i ==> (#[trigger] out@[j])@ == items@[j]@,
                decreases n - i,
            {
                proof {
                    assert(decreases_to!(*v => *items));
                    assert(decreases_to!(*items => items@[i as int]));
                }
                out.push(clone_value_ref(&items[i]));
                i = i + 1;
            }
            proof {
                lemma_views_of(out@);
                lemma_views_of(items@);
                assert forall|j: int| 0 <= j < n implies views_of(out@)[j]
                    == views_of(items@)[j] by {
                    assert(out@[j]@ == items@[j]@);
                }
                assert(views_of(out@) =~= views_of(items@));
            }
            BiWiValue::Array(out)
        },
        BiWiValue::Object(entries) => {
            let n = entries.len();
            let mut out: Vec<(String, BiWiValue)> = Vec::with_capacity(n);
            let mut i: usize = 0;
            while i < n
                invariant
                    i <= n,
                    n == entries@.len(),
                    *v == BiWiValue::Object(*entries),
                    out@.len() == i,
                    forall|j: int| 0 <= j < i ==> (#[trigger] out@[j]).0@ == entries@[j].0@
                        && out@[j].1@ == entries@[j].1@,
                decreases n - i,
            {
                proof {
                    assert(decreases_to!(*v => *entries));
                    assert(decreases_to!(*entries => entries@[i as int]));
                    assert(decreases_to!(entries@[i as int] => entries@[i as int].1));
                }
                let entry = &entries[i];
                out.push((entry.0.clone(), clone_value_ref(&entry.1)));
                i = i + 1;
            }
            proof {
                lemma_entry_views_of(out@);
                lemma_entry_views_of(entries@);
                assert forall|j: int| 0 <= j < n implies entry_views_of(out@)[j]
                    == entry_views_of(entries@)[j] by {
                    assert(out@[j].0@ == entries@[j].0@ && out@[j].1@ == entries@[j].1@);
                }
                assert(entry_views_of(out@) =~= entry_views_of(
                    entries@,
                ));
            }
            BiWiValue::Object(out)
        },
    }
}


impl Clone for BiWiValue {
    /// A clone has the same model.
    fn clone(&self) -> (r: Self)
        ensures
            r@ == self@,
    {
        clone_value_ref(self)
    }
}

} // verus!
