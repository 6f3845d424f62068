//! The markup tree: a node is either raw text or a named tag carrying
//! attributes and ordered children.

use vstd::prelude::*;

verus! {

/// A scalar value an attribute may hold.
///
/// Numeric values are carried by their decimal text representation; a host
/// program converts machine floating-point numbers at the boundary.
#[derive(Debug, Clone, PartialEq)]
pub enum AttributeValue {
    String(String),
    Number(String),
    Bool(bool),
    Null,
}

/// An interior markup node: a name, an attribute mapping and ordered
/// children.
///
/// The name and the attribute keys are not validated at construction time;
/// validity is a render-time concern. Attributes are kept in insertion
/// order, and a well-formed tag has no two attributes with the same key.
#[derive(Debug, PartialEq)]
pub struct Tag {
    pub name: String,
    pub attributes: Vec<(String, AttributeValue)>,
    pub element_list: Vec<Element>,
}

/// A markup tree: either a named tag or a leaf of literal text.
#[derive(Debug, PartialEq)]
pub enum Element {
    Tag(Tag),
    String(String),
}

/// The mathematical value of an `AttributeValue`.
pub enum AttrValueView {
    Str(Seq<char>),
    Num(Seq<char>),
    Bool(bool),
    Null,
}

/// The mathematical value of a `Tag`.
pub struct TagView {
    pub name: Seq<char>,
    pub attributes: Seq<(Seq<char>, AttrValueView)>,
    pub children: Seq<ElementView>,
}

/// The mathematical value of an `Element`.
pub enum ElementView {
    Tag(TagView),
    Text(Seq<char>),
}

pub open spec fn attr_value_view(a: AttributeValue) -> AttrValueView {
    match a {
        AttributeValue::String(s) => AttrValueView::Str(s@),
        AttributeValue::Number(t) => AttrValueView::Num(t@),
        AttributeValue::Bool(b) => AttrValueView::Bool(b),
        AttributeValue::Null => AttrValueView::Null,
    }
}

pub open spec fn attrs_view(s: Seq<(String, AttributeValue)>) -> Seq<(Seq<char>, AttrValueView)>
    decreases s.len(),
{
    if s.len() == 0 {
        Seq::empty()
    } else {
        seq![(s[0].0@, attr_value_view(s[0].1))] + attrs_view(s.drop_first())
    }
}

pub open spec fn element_view(e: Element) -> ElementView
    decreases e,
{
    match e {
        Element::String(s) => ElementView::Text(s@),
        Element::Tag(t) => ElementView::Tag(tag_view(t)),
    }
}

pub open spec fn tag_view(t: Tag) -> TagView
    decreases t,
{
    TagView {
        name: t.name@,
        attributes: attrs_view(t.attributes@),
        children: elements_view(t.element_list@),
    }
}

pub open spec fn elements_view(s: Seq<Element>) -> Seq<ElementView>
    decreases s,
{
    if s.len() == 0 {
        Seq::empty()
    } else {
        seq![element_view(s[0])] + elements_view(s.drop_first())
    }
}

/// The attribute keys of a tag are pairwise distinct.
pub open spec fn attr_keys_unique(attrs: Seq<(Seq<char>, AttrValueView)>) -> bool {
    forall|i: int, j: int| 0 <= i < j < attrs.len() ==> attrs[i].0 != attrs[j].0
}

/// A well-formed markup tree: every tag's attribute keys are pairwise
/// distinct. The decoder only produces well-formed trees.
pub open spec fn element_wf(e: ElementView) -> bool
    decreases e,
{
    match e {
        ElementView::Text(_) => true,
        ElementView::Tag(t) => {
            &&& attr_keys_unique(t.attributes)
            &&& elements_wf(t.children)
        },
    }
}

pub open spec fn elements_wf(s: Seq<ElementView>) -> bool
    decreases s,
{
    if s.len() == 0 {
        true
    } else {
        element_wf(s[0]) && elements_wf(s.drop_first())
    }
}

/// The bottom-up mapping relation: the result is one possible outcome of
/// rebuilding the tree with every child mapped first and the function then
/// applied to the rebuilt tag. Text leaves are returned unchanged, without
/// applying the function. The function value may be nondeterministic, so
/// the relation admits every outcome its postcondition admits.
pub open spec fn maps_bottom_up<F: Fn(Element) -> Element>(f: F, x: Element, r: Element) -> bool
    decreases x,
{
    match x {
        Element::String(_) => r == x,
        Element::Tag(t) => exists|mid: Tag|
            {
                &&& mid.name == t.name
                &&& mid.attributes == t.attributes
                &&& mid.element_list@.len() == t.element_list@.len()
                &&& (forall|k: int|
                    0 <= k < t.element_list@.len() ==> maps_bottom_up(
                        f,
                        #[trigger] t.element_list@[k],
                        mid.element_list@[k],
                    ))
                &&& call_ensures(f, (Element::Tag(mid),), r)
            },
    }
}

impl Element {
    /// Rebuild the tree bottom-up, applying the function to every tag once
    /// its children have been rebuilt; text leaves are returned unchanged.
    #[verifier::loop_isolation(false)]
    pub fn map_bottom_up<F: Fn(Element) -> Element + Copy>(self, function: F) -> (r: Element)
        requires
            forall|x: Element| call_requires(function, (x,)),
        ensures
            maps_bottom_up(function, self, r),
        decreases self,
    {
        match self {
            Element::Tag(Tag { name, attributes, mut element_list }) => {
                let ghost l0 = element_list;
                let ghost orig = element_list@;
                let mut mapped: Vec<Element> = Vec::new();
                while element_list.len() > 0
                    invariant
                        mapped@.len() + element_list@.len() == orig.len(),
                        element_list@ == orig.subrange(mapped@.len() as int, orig.len() as int),
                        forall|k: int|
                            0 <= k < mapped@.len() ==> maps_bottom_up(
                                function,
                                #[trigger] orig[k],
                                mapped@[k],
                            ),
                    decreases element_list@.len(),
                {
                    let ghost done = mapped@.len() as int;
                    let e = element_list.remove(0);
                    proof {
                        assert(e == orig[done]);
                        assert(decreases_to!(self => l0));
                        assert(decreases_to!(l0 => orig[done]));
                        assert(element_list@ =~= orig.subrange(done + 1, orig.len() as int));
                    }
                    let m = e.map_bottom_up(function);
                    mapped.push(m);
                }
                let mid = Tag { name, attributes, element_list: mapped };
                let ghost gm = mid;
                let result = function(Element::Tag(mid));
                proof {
                    let t0 = self->Tag_0;
                    assert(maps_bottom_up(function, self, result)) by {
                        assert(gm.name == t0.name);
                        assert(gm.attributes == t0.attributes);
                        assert(t0.element_list@ == orig);
                        assert(gm.element_list@.len() == t0.element_list@.len());
                        assert(forall|k: int|
                            0 <= k < t0.element_list@.len() ==> maps_bottom_up(
                                function,
                                #[trigger] t0.element_list@[k],
                                gm.element_list@[k],
                            ));
                        assert(call_ensures(function, (Element::Tag(gm),), result));
                    }
                }
                result
            },
            Element::String(s) => Element::String(s),
        }
    }
}

impl Default for Element {
    /// The default markup tree is the empty text leaf.
    fn default() -> (r: Self)
        ensures
            element_view(r) == ElementView::Text(Seq::<char>::empty()),
    {
        Element::String(String::new())
    }
}

pub proof fn lemma_attrs_view_len(s: Seq<(String, AttributeValue)>)
    ensures
        attrs_view(s).len() == s.len(),
        forall|i: int|
            0 <= i < s.len() ==> attrs_view(s)[i] == (s[i].0@, attr_value_view(s[i].1)),
    decreases s.len(),
{
    if s.len() > 0 {
        lemma_attrs_view_len(s.drop_first());
    }
}

pub proof fn lemma_attrs_view_push(s: Seq<(String, AttributeValue)>, p: (String, AttributeValue))
    ensures
        attrs_view(s.push(p)) == attrs_view(s).push((p.0@, attr_value_view(p.1))),
{
    lemma_attrs_view_len(s.push(p));
    lemma_attrs_view_len(s);
    assert(attrs_view(s.push(p)) =~= attrs_view(s).push((p.0@, attr_value_view(p.1))));
}

pub proof fn lemma_elements_view_len(s: Seq<Element>)
    ensures
        elements_view(s).len() == s.len(),
        forall|i: int| 0 <= i < s.len() ==> elements_view(s)[i] == element_view(s[i]),
    decreases s,
{
    if s.len() > 0 {
        lemma_elements_view_len(s.drop_first());
    }
}

pub proof fn lemma_elements_view_push(s: Seq<Element>, e: Element)
    ensures
        elements_view(s.push(e)) == elements_view(s).push(element_view(e)),
{
    lemma_elements_view_len(s.push(e));
    lemma_elements_view_len(s);
    assert(elements_view(s.push(e)) =~= elements_view(s).push(element_view(e)));
}

pub proof fn lemma_elements_wf_index(s: Seq<ElementView>)
    ensures
        elements_wf(s) <==> (forall|i: int| 0 <= i < s.len() ==> element_wf(#[trigger] s[i])),
    decreases s,
{
    if s.len() > 0 {
        lemma_elements_wf_index(s.drop_first());
        if element_wf(s[0]) && (forall|i: int|
            0 <= i < s.drop_first().len() ==> element_wf(#[trigger] s.drop_first()[i])) {
            assert forall|i: int| 0 <= i < s.len() implies element_wf(#[trigger] s[i]) by {
                if i > 0 {
                    assert(s.drop_first()[i - 1] == s[i]);
                }
            }
        }
        if forall|i: int| 0 <= i < s.len() ==> element_wf(#[trigger] s[i]) {
            assert forall|i: int|
                0 <= i < s.drop_first().len() implies element_wf(#[trigger] s.drop_first()[i]) by {
                assert(s.drop_first()[i] == s[i + 1]);
            }
        }
    }
}

} // verus!
