//! The positional wire form: a token tree over string, number, boolean,
//! null, sequence and mapping primitives, as a data-interchange format
//! such as JSON offers them.

use vstd::prelude::*;

verus! {

/// A wire token tree.
///
/// A host program converts between this type and its concrete
/// data-interchange representation; number tokens carry their decimal text.
#[derive(Debug, PartialEq)]
pub enum Value {
    String(String),
    Number(String),
    Bool(bool),
    Null,
    Sequence(Vec<Value>),
    Mapping(Vec<(String, Value)>),
}

/// The mathematical value of a wire token tree.
pub enum ValueView {
    Str(Seq<char>),
    Num(Seq<char>),
    Bool(bool),
    Null,
    Arr(Seq<ValueView>),
    Obj(Seq<(Seq<char>, ValueView)>),
}

pub open spec fn value_view(v: Value) -> ValueView
    decreases v,
{
    match v {
        Value::String(s) => ValueView::Str(s@),
        Value::Number(t) => ValueView::Num(t@),
        Value::Bool(b) => ValueView::Bool(b),
        Value::Null => ValueView::Null,
        Value::Sequence(items) => ValueView::Arr(values_view(items@)),
        Value::Mapping(pairs) => ValueView::Obj(pairs_view(pairs@)),
    }
}

pub open spec fn values_view(s: Seq<Value>) -> Seq<ValueView>
    decreases s,
{
    if s.len() == 0 {
        Seq::empty()
    } else {
        seq![value_view(s[0])] + values_view(s.drop_first())
    }
}

pub open spec fn pairs_view(s: Seq<(String, Value)>) -> Seq<(Seq<char>, ValueView)>
    decreases s,
{
    if s.len() == 0 {
        Seq::empty()
    } else {
        seq![(s[0].0@, value_view(s[0].1))] + pairs_view(s.drop_first())
    }
}

pub proof fn lemma_values_view_len(s: Seq<Value>)
    ensures
        values_view(s).len() == s.len(),
        forall|i: int| 0 <= i < s.len() ==> values_view(s)[i] == value_view(s[i]),
    decreases s,
{
    if s.len() > 0 {
        lemma_values_view_len(s.drop_first());
    }
}

pub proof fn lemma_values_view_push(s: Seq<Value>, v: Value)
    ensures
        values_view(s.push(v)) == values_view(s).push(value_view(v)),
{
    lemma_values_view_len(s.push(v));
    lemma_values_view_len(s);
    assert(values_view(s.push(v)) =~= values_view(s).push(value_view(v)));
}

pub proof fn lemma_pairs_view_len(s: Seq<(String, Value)>)
    ensures
        pairs_view(s).len() == s.len(),
        forall|i: int| 0 <= i < s.len() ==> pairs_view(s)[i] == (s[i].0@, value_view(s[i].1)),
    decreases s,
{
    if s.len() > 0 {
        lemma_pairs_view_len(s.drop_first());
    }
}

pub proof fn lemma_pairs_view_push(s: Seq<(String, Value)>, p: (String, Value))
    ensures
        pairs_view(s.push(p)) == pairs_view(s).push((p.0@, value_view(p.1))),
{
    lemma_pairs_view_len(s.push(p));
    lemma_pairs_view_len(s);
    assert(pairs_view(s.push(p)) =~= pairs_view(s).push((p.0@, value_view(p.1))));
}

} // verus!
