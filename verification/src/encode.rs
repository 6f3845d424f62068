//! The encoder: flattens a markup tree into the positional wire sequence.
//!
//! A text leaf becomes a bare string token. A tag becomes a sequence token
//! holding its name, then its attribute mapping only if that is non-empty,
//! then each child's encoding in order.

use vstd::prelude::*;

use crate::tree::{
    attr_value_view, attrs_view, element_view, elements_view, lemma_attrs_view_len,
    lemma_elements_view_len, tag_view, AttrValueView, AttributeValue, Element, ElementView, TagView,
};
use crate::wire::{
    lemma_pairs_view_push, lemma_values_view_push, pairs_view, value_view, values_view, Value,
    ValueView,
};

verus! {

pub open spec fn encode_attr(a: AttrValueView) -> ValueView {
    match a {
        AttrValueView::Str(s) => ValueView::Str(s),
        AttrValueView::Num(t) => ValueView::Num(t),
        AttrValueView::Bool(b) => ValueView::Bool(b),
        AttrValueView::Null => ValueView::Null,
    }
}

pub open spec fn encode_attr_pairs(attrs: Seq<(Seq<char>, AttrValueView)>) -> Seq<
    (Seq<char>, ValueView),
>
    decreases attrs.len(),
{
    if attrs.len() == 0 {
        Seq::empty()
    } else {
        seq![(attrs[0].0, encode_attr(attrs[0].1))] + encode_attr_pairs(attrs.drop_first())
    }
}

/// The items of the sequence token a tag encodes to: the name, the
/// attribute mapping only when it is non-empty, then the children in order.
pub open spec fn encode_tag_items(t: TagView) -> Seq<ValueView>
    decreases t,
{
    seq![ValueView::Str(t.name)] + (if t.attributes.len() == 0 {
        Seq::<ValueView>::empty()
    } else {
        seq![ValueView::Obj(encode_attr_pairs(t.attributes))]
    }) + encode_children(t.children)
}

pub open spec fn encode_element(e: ElementView) -> ValueView
    decreases e,
{
    match e {
        ElementView::Text(s) => ValueView::Str(s),
        ElementView::Tag(t) => ValueView::Arr(encode_tag_items(t)),
    }
}

pub open spec fn encode_children(s: Seq<ElementView>) -> Seq<ValueView>
    decreases s,
{
    if s.len() == 0 {
        Seq::empty()
    } else {
        seq![encode_element(s[0])] + encode_children(s.drop_first())
    }
}

pub proof fn lemma_encode_attr_pairs_len(attrs: Seq<(Seq<char>, AttrValueView)>)
    ensures
        encode_attr_pairs(attrs).len() == attrs.len(),
        forall|i: int|
            0 <= i < attrs.len() ==> encode_attr_pairs(attrs)[i] == (
                attrs[i].0,
                encode_attr(attrs[i].1),
            ),
    decreases attrs.len(),
{
    if attrs.len() > 0 {
        lemma_encode_attr_pairs_len(attrs.drop_first());
    }
}

pub proof fn lemma_encode_attr_pairs_push(
    attrs: Seq<(Seq<char>, AttrValueView)>,
    p: (Seq<char>, AttrValueView),
)
    ensures
        encode_attr_pairs(attrs.push(p)) == encode_attr_pairs(attrs).push(
            (p.0, encode_attr(p.1)),
        ),
{
    lemma_encode_attr_pairs_len(attrs.push(p));
    lemma_encode_attr_pairs_len(attrs);
    assert(encode_attr_pairs(attrs.push(p)) =~= encode_attr_pairs(attrs).push(
        (p.0, encode_attr(p.1)),
    ));
}

pub proof fn lemma_encode_children_len(s: Seq<ElementView>)
    ensures
        encode_children(s).len() == s.len(),
        forall|i: int| 0 <= i < s.len() ==> encode_children(s)[i] == encode_element(s[i]),
    decreases s,
{
    if s.len() > 0 {
        lemma_encode_children_len(s.drop_first());
    }
}

pub proof fn lemma_encode_children_push(s: Seq<ElementView>, e: ElementView)
    ensures
        encode_children(s.push(e)) == encode_children(s).push(encode_element(e)),
{
    lemma_encode_children_len(s.push(e));
    lemma_encode_children_len(s);
    assert(encode_children(s.push(e)) =~= encode_children(s).push(encode_element(e)));
}

fn encode_attr_exec(a: &AttributeValue) -> (r: Value)
    ensures
        value_view(r) == encode_attr(attr_value_view(*a)),
{
    match a {
        AttributeValue::String(s) => Value::String(s.clone()),
        AttributeValue::Number(t) => Value::Number(t.clone()),
        AttributeValue::Bool(b) => Value::Bool(*b),
        AttributeValue::Null => Value::Null,
    }
}

/// Flatten a markup tree into the positional wire sequence the decoder
/// reconstructs it from.
#[verifier::loop_isolation(false)]
pub fn encode(e: &Element) -> (r: Value)
    ensures
        value_view(r) == encode_element(element_view(*e)),
    decreases *e,
{
    match e {
        Element::String(s) => Value::String(s.clone()),
        Element::Tag(t) => {
            let ghost tv = tag_view(*t);
            let mut items: Vec<Value> = Vec::new();
            items.push(Value::String(t.name.clone()));
            let ghost head = seq![ValueView::Str(tv.name)];
            proof {
                lemma_values_view_push(Seq::empty(), Value::String(t.name));
                assert(values_view(items@) =~= head);
            }
            let ghost attrs_part = if tv.attributes.len() == 0 {
                Seq::<ValueView>::empty()
            } else {
                seq![ValueView::Obj(encode_attr_pairs(tv.attributes))]
            };
            proof {
                lemma_attrs_view_len(t.attributes@);
            }
            if t.attributes.len() > 0 {
                let mut pairs: Vec<(String, Value)> = Vec::new();
                let mut i: usize = 0;
                proof {
                    assert(pairs_view(pairs@) =~= encode_attr_pairs(tv.attributes.take(0)));
                }
                while i < t.attributes.len()
                    invariant
                        i <= t.attributes.len(),
                        tv == tag_view(*t),
                        tv.attributes == attrs_view(t.attributes@),
                        tv.attributes.len() == t.attributes.len(),
                        pairs_view(pairs@) == encode_attr_pairs(tv.attributes.take(i as int)),
                    decreases t.attributes.len() - i,
                {
                    let key = t.attributes[i].0.clone();
                    let val = encode_attr_exec(&t.attributes[i].1);
                    proof {
                        lemma_attrs_view_len(t.attributes@);
                        lemma_pairs_view_push(pairs@, (key, val));
                        lemma_encode_attr_pairs_push(
                            tv.attributes.take(i as int),
                            tv.attributes[i as int],
                        );
                        assert(tv.attributes.take(i + 1) =~= tv.attributes.take(i as int).push(
                            tv.attributes[i as int],
                        ));
                    }
                    pairs.push((key, val));
                    i += 1;
                }
                proof {
                    assert(tv.attributes.take(i as int) =~= tv.attributes);
                    lemma_values_view_push(items@, Value::Mapping(pairs));
                    assert(values_view(items@).push(
                        ValueView::Obj(encode_attr_pairs(tv.attributes)),
                    ) =~= head + attrs_part);
                }
                items.push(Value::Mapping(pairs));
            }
            proof {
                assert(values_view(items@) =~= head + attrs_part);
            }
            let ghost kids = tv.children;
            proof {
                lemma_elements_view_len(t.element_list@);
                assert(encode_children(kids.take(0)) =~= Seq::<ValueView>::empty());
                assert(values_view(items@) =~= head + attrs_part + encode_children(kids.take(0)));
            }
            let mut j: usize = 0;
            while j < t.element_list.len()
                invariant
                    j <= t.element_list.len(),
                    tv == tag_view(*t),
                    kids == elements_view(t.element_list@),
                    kids.len() == t.element_list.len(),
                    attrs_part == (if tv.attributes.len() == 0 {
                        Seq::<ValueView>::empty()
                    } else {
                        seq![ValueView::Obj(encode_attr_pairs(tv.attributes))]
                    }),
                    head == seq![ValueView::Str(tv.name)],
                    values_view(items@) == head + attrs_part + encode_children(
                        kids.take(j as int),
                    ),
                decreases t.element_list.len() - j,
            {
                proof {
                    assert(*e == Element::Tag(*t));
                    assert(decreases_to!(*t => t.element_list));
                    assert(decreases_to!(t.element_list => t.element_list@[j as int]));
                    assert(decreases_to!(*e => t.element_list@[j as int]));
                }
                let child = encode(&t.element_list[j]);
                proof {
                    lemma_elements_view_len(t.element_list@);
                    lemma_values_view_push(items@, child);
                    lemma_encode_children_push(kids.take(j as int), kids[j as int]);
                    assert(kids.take(j + 1) =~= kids.take(j as int).push(kids[j as int]));
                    assert((head + attrs_part + encode_children(kids.take(j as int))).push(
                        value_view(child),
                    ) =~= head + attrs_part + encode_children(kids.take(j + 1)));
                }
                items.push(child);
                j += 1;
            }
            proof {
                assert(kids.take(j as int) =~= kids);
                assert(values_view(items@) =~= encode_tag_items(tv));
            }
            Value::Sequence(items)
        },
    }
}

} // verus!
