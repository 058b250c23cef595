//! The dynamic, self-describing wire value type and its mathematical model.

use vstd::prelude::*;

verus! {

/// A structured wire value: nil, bool, integer, float, string, binary,
/// array, or string-keyed mapping.  Integers are split into a non-negative
/// and a negative variant so that every value a peer can send is
/// representable; a float is carried as its IEEE 754 bit pattern, which the
/// codec never interprets.
#[derive(Debug)]
pub enum Value {
    Nil,
    Bool(bool),
    /// A non-negative integer.
    UInt(u64),
    /// A negative integer.
    NegInt(i64),
    /// A 64-bit float, as its raw bit pattern.
    Float(u64),
    Str(String),
    Bin(Vec<u8>),
    Array(Vec<Value>),
    Mapping(Vec<(Value, Value)>),
}

/// The model of a [`Value`]: both integer variants collapse into a single
/// mathematical integer, strings become character sequences, and the
/// containers become sequences of models.
pub ghost enum ValueView {
    Nil,
    Bool(bool),
    Int(int),
    Float(u64),
    Str(Seq<char>),
    Bin(Seq<u8>),
    Array(Seq<ValueView>),
    Mapping(Seq<(ValueView, ValueView)>),
}

/// The model of a value.
pub open spec fn value_view(v: Value) -> ValueView
    decreases v, 0int, 0int,
{
    match v {
        Value::Nil => ValueView::Nil,
        Value::Bool(b) => ValueView::Bool(b),
        Value::UInt(n) => ValueView::Int(n as int),
        Value::NegInt(n) => ValueView::Int(n as int),
        Value::Float(bits) => ValueView::Float(bits),
        Value::Str(s) => ValueView::Str(s@),
        Value::Bin(b) => ValueView::Bin(b@),
        Value::Array(items) => ValueView::Array(views_from(items@, 0)),
        Value::Mapping(pairs) => ValueView::Mapping(pair_views_from(pairs@, 0)),
    }
}

/// The models of the elements of `items` from position `i` on.
pub open spec fn views_from(items: Seq<Value>, i: int) -> Seq<ValueView>
    decreases items, 1int, items.len() - i,
{
    if i < 0 || i >= items.len() {
        Seq::empty()
    } else {
        seq![value_view(items[i])] + views_from(items, i + 1)
    }
}

/// The models of the pairs of `pairs` from position `i` on.
pub open spec fn pair_views_from(pairs: Seq<(Value, Value)>, i: int) -> Seq<(ValueView, ValueView)>
    decreases pairs, 1int, pairs.len() - i,
{
    if i < 0 || i >= pairs.len() {
        Seq::empty()
    } else {
        seq![(value_view(pairs[i].0), value_view(pairs[i].1))] + pair_views_from(pairs, i + 1)
    }
}

impl View for Value {
    type V = ValueView;

    open spec fn view(&self) -> ValueView {
        value_view(*self)
    }
}

/// The models of all elements of a value sequence.
pub open spec fn seq_view(items: Seq<Value>) -> Seq<ValueView> {
    items.map_values(|v: Value| value_view(v))
}

/// The models of all pairs of a pair sequence.
pub open spec fn pair_seq_view(pairs: Seq<(Value, Value)>) -> Seq<(ValueView, ValueView)> {
    pairs.map_values(|p: (Value, Value)| (value_view(p.0), value_view(p.1)))
}

pub proof fn lemma_views_from(items: Seq<Value>, i: int)
    requires
        0 <= i <= items.len(),
    ensures
        views_from(items, i).len() == items.len() - i,
        forall|j: int|
            i <= j < items.len() ==> views_from(items, i)[j - i] == value_view(items[j]),
    decreases items.len() - i,
{
    if i < items.len() {
        lemma_views_from(items, i + 1);
    }
}

pub proof fn lemma_pair_views_from(pairs: Seq<(Value, Value)>, i: int)
    requires
        0 <= i <= pairs.len(),
    ensures
        pair_views_from(pairs, i).len() == pairs.len() - i,
        forall|j: int|
            i <= j < pairs.len() ==> pair_views_from(pairs, i)[j - i] == (
                value_view(pairs[j].0),
                value_view(pairs[j].1),
            ),
    decreases pairs.len() - i,
{
    if i < pairs.len() {
        lemma_pair_views_from(pairs, i + 1);
    }
}

/// The two spellings of the element models agree.
pub proof fn lemma_seq_view(items: Seq<Value>)
    ensures
        views_from(items, 0) == seq_view(items),
        seq_view(items).len() == items.len(),
        forall|j: int| 0 <= j < items.len() ==> seq_view(items)[j] == value_view(items[j]),
{
    lemma_views_from(items, 0);
    assert(views_from(items, 0) =~= seq_view(items));
}

/// The two spellings of the pair models agree.
pub proof fn lemma_pair_seq_view(pairs: Seq<(Value, Value)>)
    ensures
        pair_views_from(pairs, 0) == pair_seq_view(pairs),
        pair_seq_view(pairs).len() == pairs.len(),
        forall|j: int|
            0 <= j < pairs.len() ==> pair_seq_view(pairs)[j] == (
                value_view(pairs[j].0),
                value_view(pairs[j].1),
            ),
{
    lemma_pair_views_from(pairs, 0);
    assert(pair_views_from(pairs, 0) =~= pair_seq_view(pairs));
}

/// Well-formedness of a value model: integers fit the wire's 64-bit signed
/// or unsigned range, and every string, binary, array and mapping is short
/// enough for a 32-bit length field.
pub open spec fn view_wf(v: ValueView) -> bool
    decreases v, 0int, 0int,
{
    match v {
        ValueView::Nil => true,
        ValueView::Bool(_) => true,
        ValueView::Int(i) => -0x8000_0000_0000_0000 <= i <= 0xFFFF_FFFF_FFFF_FFFF,
        ValueView::Float(_) => true,
        ValueView::Str(s) => vstd::utf8::encode_utf8(s).len() <= 0xFFFF_FFFF,
        ValueView::Bin(b) => b.len() <= 0xFFFF_FFFF,
        ValueView::Array(items) => items.len() <= 0xFFFF_FFFF && views_wf_from(items, 0),
        ValueView::Mapping(pairs) => pairs.len() <= 0xFFFF_FFFF && pair_views_wf_from(pairs, 0),
    }
}

/// Well-formedness of all elements from position `i` on.
pub open spec fn views_wf_from(items: Seq<ValueView>, i: int) -> bool
    decreases items, 1int, items.len() - i,
{
    if i < 0 || i >= items.len() {
        true
    } else {
        view_wf(items[i]) && views_wf_from(items, i + 1)
    }
}

/// Well-formedness of all pairs from position `i` on.
pub open spec fn pair_views_wf_from(pairs: Seq<(ValueView, ValueView)>, i: int) -> bool
    decreases pairs, 1int, pairs.len() - i,
{
    if i < 0 || i >= pairs.len() {
        true
    } else {
        view_wf(pairs[i].0) && view_wf(pairs[i].1) && pair_views_wf_from(pairs, i + 1)
    }
}

pub proof fn lemma_views_wf_from(items: Seq<ValueView>, i: int)
    requires
        0 <= i <= items.len(),
    ensures
        views_wf_from(items, i) <==> (forall|j: int| i <= j < items.len() ==> view_wf(items[j])),
    decreases items.len() - i,
{
    if i < items.len() {
        lemma_views_wf_from(items, i + 1);
    }
}

pub proof fn lemma_pair_views_wf_from(pairs: Seq<(ValueView, ValueView)>, i: int)
    requires
        0 <= i <= pairs.len(),
    ensures
        pair_views_wf_from(pairs, i) <==> (forall|j: int|
            i <= j < pairs.len() ==> view_wf(pairs[j].0) && view_wf(pairs[j].1)),
    decreases pairs.len() - i,
{
    if i < pairs.len() {
        lemma_pair_views_wf_from(pairs, i + 1);
    }
}

} // verus!

verus! {

impl Value {
    /// The integer under this value, when it is one a `u64` can hold.
    pub fn as_u64(&self) -> (r: Option<u64>)
        ensures
            match self@ {
                ValueView::Int(i) => if 0 <= i <= 0xFFFF_FFFF_FFFF_FFFF {
                    r == Some(i as u64)
                } else {
                    r is None
                },
                _ => r is None,
            },
    {
        match self {
            Value::UInt(n) => Some(*n),
            Value::NegInt(n) => if *n >= 0 {
                Some(*n as u64)
            } else {
                None
            },
            _ => None,
        }
    }

    /// The boolean under this value.
    pub fn as_bool(&self) -> (r: Option<bool>)
        ensures
            match self@ {
                ValueView::Bool(x) => r == Some(x),
                _ => r is None,
            },
    {
        match self {
            Value::Bool(x) => Some(*x),
            _ => None,
        }
    }

    /// The string under this value.
    pub fn as_str(&self) -> (r: Option<&String>)
        ensures
            match self@ {
                ValueView::Str(s) => r matches Some(t) && t@ == s,
                _ => r is None,
            },
    {
        match self {
            Value::Str(s) => Some(s),
            _ => None,
        }
    }

    /// The string under this value, by move.
    pub fn into_string(self) -> (r: Option<String>)
        ensures
            match self@ {
                ValueView::Str(s) => r matches Some(t) && t@ == s,
                _ => r is None,
            },
    {
        match self {
            Value::Str(s) => Some(s),
            _ => None,
        }
    }

    /// The elements under this value, by move.
    pub fn into_array(self) -> (r: Option<Vec<Value>>)
        ensures
            match self@ {
                ValueView::Array(vs) => r matches Some(items) && seq_view(items@) == vs,
                _ => r is None,
            },
    {
        match self {
            Value::Array(items) => {
                proof {
                    lemma_seq_view(items@);
                }
                Some(items)
            },
            _ => None,
        }
    }

    /// The key-value pairs under this value, by move.
    pub fn into_pairs(self) -> (r: Option<Vec<(Value, Value)>>)
        ensures
            match self@ {
                ValueView::Mapping(ps) => r matches Some(pairs) && pair_seq_view(pairs@) == ps,
                _ => r is None,
            },
    {
        match self {
            Value::Mapping(pairs) => {
                proof {
                    lemma_pair_seq_view(pairs@);
                }
                Some(pairs)
            },
            _ => None,
        }
    }
}

/// Whether two strings hold the same characters.  Equal byte encodings
/// mean equal character sequences, which the UTF-8 round trip shows.
pub fn str_eq(a: &str, b: &str) -> (r: bool)
    ensures
        r == (a@ == b@),
{
    let ab = a.as_bytes();
    let bb = b.as_bytes();
    if ab.len() != bb.len() {
        proof {
            vstd::utf8::encode_utf8_decode_utf8(a@);
            vstd::utf8::encode_utf8_decode_utf8(b@);
        }
        return false;
    }
    let n = ab.len();
    let mut i: usize = 0;
    while i < n
        invariant
            n == ab@.len() == bb@.len(),
            i <= n,
            ab@ == vstd::utf8::encode_utf8(a@),
            bb@ == vstd::utf8::encode_utf8(b@),
            forall|j: int| 0 <= j < i ==> ab@[j] == bb@[j],
        decreases n - i,
    {
        if ab[i] != bb[i] {
            proof {
                vstd::utf8::encode_utf8_decode_utf8(a@);
                vstd::utf8::encode_utf8_decode_utf8(b@);
            }
            return false;
        }
        i = i + 1;
    }
    proof {
        assert(ab@ =~= bb@);
        vstd::utf8::encode_utf8_decode_utf8(a@);
        vstd::utf8::encode_utf8_decode_utf8(b@);
    }
    true
}

} // verus!

verus! {

/// Moves the element at `i` out of the vector, leaving nil.
pub fn take_at(items: &mut Vec<Value>, i: usize) -> (r: Value)
    requires
        i < old(items)@.len(),
    ensures
        value_view(r) == value_view(old(items)@[i as int]),
        final(items)@.len() == old(items)@.len(),
        forall|j: int|
            0 <= j < old(items)@.len() && j != i ==> value_view(final(items)@[j]) == value_view(
                old(items)@[j],
            ),
{
    let mut v = Value::Nil;
    let slot = &mut items[i];
    core::mem::swap(&mut v, slot);
    v
}

} // verus!
