//! The decoder: reconstructs a markup tree from the positional wire
//! sequence.
//!
//! The wire format has no discriminator telling the attributes mapping from
//! a first child, so the token after the name is tried against the two
//! shapes in a fixed priority order: the mapping shape first, the element
//! shape second.

use vstd::prelude::*;

use crate::tree::{
    attr_keys_unique, attr_value_view, attrs_view, element_view, elements_view,
    lemma_attrs_view_len, lemma_attrs_view_push, lemma_elements_view_push, AttrValueView,
    AttributeValue, Element, ElementView, Tag, TagView,
};
use crate::wire::{lemma_pairs_view_len, lemma_values_view_len, pairs_view, value_view,
    values_view, Value, ValueView};

verus! {

/// Why decoding failed.
#[derive(Debug, Clone, Copy, PartialEq, Eq, Structural)]
pub enum DecodeError {
    /// The token sequence was empty where a tag was expected.
    MissingName,
    /// The token after the name is neither an attributes mapping nor an
    /// element.
    MalformedSequence,
    /// A token has the wrong underlying type, such as a number where a
    /// string is required.
    UnderlyingTokenError,
}

/// A token that can stand as an attribute value: a scalar.
pub open spec fn is_scalar(v: ValueView) -> bool {
    match v {
        ValueView::Str(_) => true,
        ValueView::Num(_) => true,
        ValueView::Bool(_) => true,
        ValueView::Null => true,
        ValueView::Arr(_) => false,
        ValueView::Obj(_) => false,
    }
}

pub open spec fn attr_of_scalar(v: ValueView) -> AttrValueView {
    match v {
        ValueView::Str(s) => AttrValueView::Str(s),
        ValueView::Num(t) => AttrValueView::Num(t),
        ValueView::Bool(b) => AttrValueView::Bool(b),
        _ => AttrValueView::Null,
    }
}

pub open spec fn all_scalar(pairs: Seq<(Seq<char>, ValueView)>) -> bool {
    forall|i: int| 0 <= i < pairs.len() ==> is_scalar(#[trigger] pairs[i].1)
}

/// The mapping shape: a mapping token whose values are all scalars.
pub open spec fn is_mapping_shape(v: ValueView) -> bool {
    match v {
        ValueView::Obj(pairs) => all_scalar(pairs),
        _ => false,
    }
}

/// Bind a key to a value in an ordered attribute sequence: replace the
/// value in place where the key is present, append otherwise. A later
/// binding of the same key wins, as insertion into a mapping would have it.
pub open spec fn set_key(
    attrs: Seq<(Seq<char>, AttrValueView)>,
    k: Seq<char>,
    a: AttrValueView,
) -> Seq<(Seq<char>, AttrValueView)>
    decreases attrs.len(),
{
    if attrs.len() == 0 {
        seq![(k, a)]
    } else if attrs[0].0 == k {
        seq![(k, a)] + attrs.drop_first()
    } else {
        seq![attrs[0]] + set_key(attrs.drop_first(), k, a)
    }
}

/// The attribute sequence a mapping token decodes to, bound pair by pair.
pub open spec fn attrs_of_pairs(pairs: Seq<(Seq<char>, ValueView)>) -> Seq<
    (Seq<char>, AttrValueView),
>
    decreases pairs.len(),
{
    if pairs.len() == 0 {
        Seq::empty()
    } else {
        set_key(
            attrs_of_pairs(pairs.drop_last()),
            pairs.last().0,
            attr_of_scalar(pairs.last().1),
        )
    }
}

/// What a wire token decodes to: a bare string is a text leaf, a sequence
/// is a tag, anything else is a type mismatch.
pub open spec fn decode_value(v: ValueView) -> Result<ElementView, DecodeError>
    decreases v,
{
    match v {
        ValueView::Str(s) => Ok(ElementView::Text(s)),
        ValueView::Arr(items) => decode_tag_items(items),
        _ => Err(DecodeError::UnderlyingTokenError),
    }
}

/// What the items of a sequence token decode to. The first token must be a
/// string, the name. The next token, if any, is tried as the attributes
/// mapping first and as the first child second; every remaining token is a
/// child.
pub open spec fn decode_tag_items(items: Seq<ValueView>) -> Result<ElementView, DecodeError>
    decreases items,
{
    if items.len() == 0 {
        Err(DecodeError::MissingName)
    } else if !(items[0] is Str) {
        Err(DecodeError::UnderlyingTokenError)
    } else {
        let name = items[0]->Str_0;
        let rest = items.drop_first();
        if rest.len() == 0 {
            Ok(
                ElementView::Tag(
                    TagView { name, attributes: Seq::empty(), children: Seq::empty() },
                ),
            )
        } else if is_mapping_shape(rest[0]) {
            match decode_children(rest.drop_first()) {
                Ok(kids) => Ok(
                    ElementView::Tag(
                        TagView { name, attributes: attrs_of_pairs(rest[0]->Obj_0), children: kids },
                    ),
                ),
                Err(e) => Err(e),
            }
        } else {
            match decode_value(rest[0]) {
                Ok(first) => match decode_children(rest.drop_first()) {
                    Ok(kids) => Ok(
                        ElementView::Tag(
                            TagView {
                                name,
                                attributes: Seq::empty(),
                                children: seq![first] + kids,
                            },
                        ),
                    ),
                    Err(e) => Err(e),
                },
                Err(_) => Err(DecodeError::MalformedSequence),
            }
        }
    }
}

/// Decode each token to a child, in order; the first failure is the result.
pub open spec fn decode_children(s: Seq<ValueView>) -> Result<Seq<ElementView>, DecodeError>
    decreases s,
{
    if s.len() == 0 {
        Ok(Seq::empty())
    } else {
        match decode_value(s[0]) {
            Ok(e) => match decode_children(s.drop_first()) {
                Ok(rest) => Ok(seq![e] + rest),
                Err(er) => Err(er),
            },
            Err(er) => Err(er),
        }
    }
}

/// The view of a decoding result.
pub open spec fn decoded_view(r: Result<Element, DecodeError>) -> Result<
    ElementView,
    DecodeError,
> {
    match r {
        Ok(e) => Ok(element_view(e)),
        Err(er) => Err(er),
    }
}

/// Decoding a concatenation decodes each part; an error in the left part
/// hides the right part.
pub proof fn lemma_decode_children_app(a: Seq<ValueView>, b: Seq<ValueView>)
    ensures
        decode_children(a + b) == (match decode_children(a) {
            Ok(xs) => match decode_children(b) {
                Ok(ys) => Ok::<Seq<ElementView>, DecodeError>(xs + ys),
                Err(e) => Err(e),
            },
            Err(e) => Err::<Seq<ElementView>, DecodeError>(e),
        }),
    decreases a,
{
    if a.len() == 0 {
        assert(a + b =~= b);
        if decode_children(b) is Ok {
            assert(Seq::<ElementView>::empty() + decode_children(b)->Ok_0 =~= decode_children(
                b,
            )->Ok_0);
        }
    } else {
        assert((a + b)[0] == a[0]);
        assert((a + b).len() > 0);
        assert((a + b).drop_first() =~= a.drop_first() + b);
        lemma_decode_children_app(a.drop_first(), b);
        if decode_value(a[0]) is Ok {
            let e = decode_value(a[0])->Ok_0;
            if decode_children(a.drop_first()) is Ok {
                let xs = decode_children(a.drop_first())->Ok_0;
                if decode_children(b) is Ok {
                    let ys = decode_children(b)->Ok_0;
                    assert(seq![e] + (xs + ys) =~= (seq![e] + xs) + ys);
                }
            }
        }
    }
}

pub proof fn lemma_set_key_absent(
    s: Seq<(Seq<char>, AttrValueView)>,
    k: Seq<char>,
    a: AttrValueView,
)
    requires
        forall|m: int| 0 <= m < s.len() ==> (#[trigger] s[m]).0 != k,
    ensures
        set_key(s, k, a) == s.push((k, a)),
    decreases s.len(),
{
    if s.len() == 0 {
        assert(set_key(s, k, a) =~= s.push((k, a)));
    } else {
        assert(s[0].0 != k);
        assert forall|m: int| 0 <= m < s.drop_first().len() implies (#[trigger] s.drop_first()[m]).0
            != k by {
            assert(s.drop_first()[m] == s[m + 1]);
        }
        lemma_set_key_absent(s.drop_first(), k, a);
        assert(seq![s[0]] + s.drop_first().push((k, a)) =~= s.push((k, a)));
    }
}

pub proof fn lemma_set_key_update(
    s: Seq<(Seq<char>, AttrValueView)>,
    k: Seq<char>,
    a: AttrValueView,
    j: int,
)
    requires
        0 <= j < s.len(),
        s[j].0 == k,
        forall|m: int| 0 <= m < j ==> (#[trigger] s[m]).0 != k,
    ensures
        set_key(s, k, a) == s.update(j, (k, a)),
    decreases j,
{
    if j == 0 {
        assert(seq![(k, a)] + s.drop_first() =~= s.update(0, (k, a)));
    } else {
        assert(s[0].0 != k);
        assert(s.drop_first()[j - 1] == s[j]);
        assert forall|m: int| 0 <= m < j - 1 implies (#[trigger] s.drop_first()[m]).0 != k by {
            assert(s.drop_first()[m] == s[m + 1]);
        }
        lemma_set_key_update(s.drop_first(), k, a, j - 1);
        assert(seq![s[0]] + s.drop_first().update(j - 1, (k, a)) =~= s.update(j, (k, a)));
    }
}

/// Some attribute is bound to `k`.
pub open spec fn has_key(s: Seq<(Seq<char>, AttrValueView)>, k: Seq<char>) -> bool {
    exists|m: int| 0 <= m < s.len() && (#[trigger] s[m]).0 == k
}

/// Binding a key keeps the keys pairwise distinct, and binds exactly the
/// old keys and the new one.
pub proof fn lemma_set_key_shape(
    s: Seq<(Seq<char>, AttrValueView)>,
    k: Seq<char>,
    a: AttrValueView,
)
    requires
        attr_keys_unique(s),
    ensures
        attr_keys_unique(set_key(s, k, a)),
        forall|k2: Seq<char>|
            #[trigger] has_key(set_key(s, k, a), k2) <==> (k2 == k || has_key(s, k2)),
    decreases s.len(),
{
    let r = set_key(s, k, a);
    if s.len() == 0 {
        assert(r == seq![(k, a)]);
        assert(r[0].0 == k);
        assert forall|k2: Seq<char>| has_key(r, k2) implies (k2 == k || has_key(s, k2)) by {
            let m = choose|m: int| 0 <= m < r.len() && (#[trigger] r[m]).0 == k2;
            assert(m == 0);
        }
    } else if s[0].0 == k {
        assert(r == seq![(k, a)] + s.drop_first());
        assert forall|i: int, j: int| 0 <= i < j < r.len() implies r[i].0 != r[j].0 by {
            if i == 0 {
                assert(r[j] == s[j]);
                assert(s[0].0 != s[j].0);
            } else {
                assert(r[i] == s[i] && r[j] == s[j]);
            }
        }
        assert forall|k2: Seq<char>| has_key(r, k2) implies (k2 == k || has_key(s, k2)) by {
            let m = choose|m: int| 0 <= m < r.len() && (#[trigger] r[m]).0 == k2;
            if m > 0 {
                assert(s[m].0 == k2);
            }
        }
        assert forall|k2: Seq<char>| (k2 == k || has_key(s, k2)) implies has_key(r, k2) by {
            if k2 == k {
                assert(r[0].0 == k2);
            } else {
                let m = choose|m: int| 0 <= m < s.len() && (#[trigger] s[m]).0 == k2;
                assert(m > 0);
                assert(r[m].0 == k2);
            }
        }
    } else {
        let tail = s.drop_first();
        assert(attr_keys_unique(tail)) by {
            assert(forall|i: int, j: int|
                0 <= i < j < tail.len() ==> tail[i] == s[i + 1] && tail[j] == s[j + 1]);
        }
        lemma_set_key_shape(tail, k, a);
        let rt = set_key(tail, k, a);
        assert(r == seq![s[0]] + rt);
        assert forall|i: int, j: int| 0 <= i < j < r.len() implies r[i].0 != r[j].0 by {
            if i == 0 {
                assert(r[j] == rt[j - 1]);
                assert(has_key(rt, r[j].0));
                if r[j].0 == s[0].0 {
                    assert(s[0].0 != k);
                    assert(has_key(tail, s[0].0));
                    let m = choose|m: int| 0 <= m < tail.len() && (#[trigger] tail[m]).0 == s[0].0;
                    assert(s[m + 1].0 == s[0].0);
                    assert(false);
                }
            } else {
                assert(r[i] == rt[i - 1] && r[j] == rt[j - 1]);
            }
        }
        assert forall|k2: Seq<char>| has_key(r, k2) implies (k2 == k || has_key(s, k2)) by {
            let m = choose|m: int| 0 <= m < r.len() && (#[trigger] r[m]).0 == k2;
            if m == 0 {
                assert(s[0].0 == k2);
            } else {
                assert(r[m] == rt[m - 1]);
                assert(rt[m - 1].0 == k2);
                assert(has_key(rt, k2));
                assert(k2 == k || has_key(tail, k2));
                if k2 != k {
                    assert(has_key(tail, k2));
                    let m2 = choose|m2: int| 0 <= m2 < tail.len() && (#[trigger] tail[m2]).0 == k2;
                    assert(tail[m2] == s[m2 + 1]);
                    assert(s[m2 + 1].0 == k2);
                    assert(has_key(s, k2));
                }
            }
        }
        assert forall|k2: Seq<char>| (k2 == k || has_key(s, k2)) implies has_key(r, k2) by {
            if k2 == k {
                assert(k2 == k || has_key(tail, k2));
                assert(has_key(rt, k2));
                let m = choose|m: int| 0 <= m < rt.len() && (#[trigger] rt[m]).0 == k2;
                assert(r[m + 1] == rt[m]);
                assert(r[m + 1].0 == k2);
            } else {
                let m = choose|m: int| 0 <= m < s.len() && (#[trigger] s[m]).0 == k2;
                if m == 0 {
                    assert(r[0].0 == k2);
                } else {
                    assert(tail[m - 1] == s[m]);
                    assert(tail[m - 1].0 == k2);
                    assert(has_key(tail, k2));
                    assert(k2 == k || has_key(tail, k2));
                    assert(has_key(rt, k2));
                    let m2 = choose|m2: int| 0 <= m2 < rt.len() && (#[trigger] rt[m2]).0 == k2;
                    assert(r[m2 + 1] == rt[m2]);
                    assert(r[m2 + 1].0 == k2);
                }
            }
        }
    }
}

/// The attributes a mapping token decodes to have pairwise distinct keys.
pub proof fn lemma_attrs_of_pairs_unique(pairs: Seq<(Seq<char>, ValueView)>)
    ensures
        attr_keys_unique(attrs_of_pairs(pairs)),
    decreases pairs.len(),
{
    if pairs.len() > 0 {
        lemma_attrs_of_pairs_unique(pairs.drop_last());
        lemma_set_key_shape(
            attrs_of_pairs(pairs.drop_last()),
            pairs.last().0,
            attr_of_scalar(pairs.last().1),
        );
    }
}

pub proof fn lemma_attrs_view_update(
    s: Seq<(String, AttributeValue)>,
    j: int,
    p: (String, AttributeValue),
)
    requires
        0 <= j < s.len(),
    ensures
        attrs_view(s.update(j, p)) == attrs_view(s).update(j, (p.0@, attr_value_view(p.1))),
{
    lemma_attrs_view_len(s.update(j, p));
    lemma_attrs_view_len(s);
    assert(attrs_view(s.update(j, p)) =~= attrs_view(s).update(j, (p.0@, attr_value_view(p.1))));
}

fn attr_of_scalar_exec(v: &Value) -> (r: Option<AttributeValue>)
    ensures
        match r {
            Some(a) => is_scalar(value_view(*v)) && attr_value_view(a) == attr_of_scalar(
                value_view(*v),
            ),
            None => !is_scalar(value_view(*v)),
        },
{
    match v {
        Value::String(s) => Some(AttributeValue::String(s.clone())),
        Value::Number(t) => Some(AttributeValue::Number(t.clone())),
        Value::Bool(b) => Some(AttributeValue::Bool(*b)),
        Value::Null => Some(AttributeValue::Null),
        _ => None,
    }
}

/// The index of the first attribute bound to `key`, if any.
#[verifier::loop_isolation(false)]
fn find_key(attrs: &Vec<(String, AttributeValue)>, key: &String) -> (r: Option<usize>)
    ensures
        match r {
            Some(j) => j < attrs@.len() && attrs@[j as int].0@ == key@ && (forall|m: int|
                0 <= m < j ==> (#[trigger] attrs@[m]).0@ != key@),
            None => forall|m: int| 0 <= m < attrs@.len() ==> (#[trigger] attrs@[m]).0@ != key@,
        },
{
    let mut j: usize = 0;
    while j < attrs.len()
        invariant
            j <= attrs@.len(),
            forall|m: int| 0 <= m < j ==> (#[trigger] attrs@[m]).0@ != key@,
        decreases attrs@.len() - j,
    {
        if attrs[j].0 == *key {
            return Some(j);
        }
        j += 1;
    }
    None
}

/// Interpret a mapping token's pairs as attributes. Every value must be a
/// scalar; a later pair with an already-bound key replaces that binding.
#[verifier::loop_isolation(false)]
fn convert_attrs(pairs: &Vec<(String, Value)>) -> (r: Option<Vec<(String, AttributeValue)>>)
    ensures
        match r {
            Some(attrs) => all_scalar(pairs_view(pairs@)) && attrs_view(attrs@) == attrs_of_pairs(
                pairs_view(pairs@),
            ),
            None => !all_scalar(pairs_view(pairs@)),
        },
{
    let ghost pv = pairs_view(pairs@);
    proof {
        lemma_pairs_view_len(pairs@);
    }
    let mut attrs: Vec<(String, AttributeValue)> = Vec::new();
    let mut i: usize = 0;
    proof {
        assert(attrs_view(attrs@) =~= attrs_of_pairs(pv.take(0)));
    }
    while i < pairs.len()
        invariant
            i <= pairs@.len(),
            all_scalar(pv.take(i as int)),
            attrs_view(attrs@) == attrs_of_pairs(pv.take(i as int)),
        decreases pairs@.len() - i,
    {
        let a = match attr_of_scalar_exec(&pairs[i].1) {
            Some(a) => a,
            None => {
                proof {
                    assert(pv[i as int].1 == value_view(pairs@[i as int].1));
                }
                return None;
            },
        };
        let key = pairs[i].0.clone();
        let ghost old_attrs = attrs_view(attrs@);
        proof {
            lemma_attrs_view_len(attrs@);
        }
        match find_key(&attrs, &key) {
            Some(j) => {
                proof {
                    lemma_attrs_view_update(attrs@, j as int, (key, a));
                    lemma_set_key_update(old_attrs, key@, attr_value_view(a), j as int);
                }
                attrs.set(j, (key, a));
            },
            None => {
                proof {
                    lemma_attrs_view_push(attrs@, (key, a));
                    lemma_set_key_absent(old_attrs, key@, attr_value_view(a));
                }
                attrs.push((key, a));
            },
        }
        proof {
            assert(pv.take(i + 1).drop_last() =~= pv.take(i as int));
            assert(pv.take(i + 1).last() == pv[i as int]);
            assert(pv[i as int] == (pairs@[i as int].0@, value_view(pairs@[i as int].1)));
            assert(attrs_view(attrs@) == attrs_of_pairs(pv.take(i + 1)));
            assert forall|m: int| 0 <= m < i + 1 implies is_scalar(
                #[trigger] pv.take(i + 1)[m].1,
            ) by {
                assert(pv.take(i + 1)[m] == pv[m]);
            }
        }
        i += 1;
    }
    proof {
        assert(pv.take(i as int) =~= pv);
    }
    Some(attrs)
}

/// Reconstruct a markup tree from a wire token tree.
///
/// A bare string token decodes to a text leaf; a sequence token decodes to
/// a tag; every other token fails with `UnderlyingTokenError`.
pub fn decode(v: &Value) -> (r: Result<Element, DecodeError>)
    ensures
        decoded_view(r) == decode_value(value_view(*v)),
    decreases *v,
{
    match v {
        Value::String(s) => Ok(Element::String(s.clone())),
        Value::Sequence(items) => decode_tag(items),
        _ => Err(DecodeError::UnderlyingTokenError),
    }
}

/// Reconstruct a tag from the items of a sequence token.
#[verifier::loop_isolation(false)]
fn decode_tag(items: &Vec<Value>) -> (r: Result<Element, DecodeError>)
    ensures
        decoded_view(r) == decode_tag_items(values_view(items@)),
    decreases *items,
{
    let ghost vs = values_view(items@);
    proof {
        lemma_values_view_len(items@);
    }
    let n = items.len();
    if n == 0 {
        return Err(DecodeError::MissingName);
    }
    let name = match &items[0] {
        Value::String(s) => s.clone(),
        _ => {
            return Err(DecodeError::UnderlyingTokenError);
        },
    };
    let ghost rest = vs.drop_first();
    if n == 1 {
        proof {
            assert(rest.len() == 0);
            assert(attrs_view(Seq::<(String, AttributeValue)>::empty()) =~= Seq::<
                (Seq<char>, AttrValueView),
            >::empty());
            assert(elements_view(Seq::<Element>::empty()) =~= Seq::<ElementView>::empty());
        }
        return Ok(
            Element::Tag(Tag { name, attributes: Vec::new(), element_list: Vec::new() }),
        );
    }
    let mut attributes: Vec<(String, AttributeValue)> = Vec::new();
    let mut children: Vec<Element> = Vec::new();
    proof {
        assert(rest[0] == vs[1]);
        assert(rest.drop_first() =~= vs.subrange(2, n as int));
    }
    match &items[1] {
        Value::Mapping(pairs) => {
            match convert_attrs(pairs) {
                Some(a) => {
                    attributes = a;
                    proof {
                        assert(is_mapping_shape(vs[1]));
                        assert(vs[1]->Obj_0 == pairs_view(pairs@));
                        assert(elements_view(children@) =~= Seq::<ElementView>::empty());
                    }
                },
                None => {
                    proof {
                        assert(!is_mapping_shape(vs[1]));
                        assert(decode_value(vs[1]) is Err);
                    }
                    return Err(DecodeError::MalformedSequence);
                },
            }
        },
        _ => {
            proof {
                assert(!is_mapping_shape(vs[1]));
                assert(decreases_to!(*items => items@[1int]));
            }
            match decode(&items[1]) {
                Ok(e) => {
                    proof {
                        lemma_elements_view_push(Seq::empty(), e);
                        assert(elements_view(children@.push(e)) =~= seq![element_view(e)]);
                    }
                    children.push(e);
                },
                Err(_) => {
                    return Err(DecodeError::MalformedSequence);
                },
            }
        },
    }
    let ghost first_kids = elements_view(children@);
    let ghost tail = vs.subrange(2, n as int);
    let mut i: usize = 2;
    proof {
        assert(vs.subrange(2, 2) =~= Seq::<ValueView>::empty());
        assert(first_kids + decode_children(vs.subrange(2, 2))->Ok_0 =~= first_kids);
    }
    while i < n
        invariant
            2 <= i <= n,
            decode_children(vs.subrange(2, i as int)) is Ok,
            elements_view(children@) == first_kids + decode_children(
                vs.subrange(2, i as int),
            )->Ok_0,
        decreases n - i,
    {
        proof {
            assert(decreases_to!(*items => items@[i as int]));
        }
        match decode(&items[i]) {
            Ok(e) => {
                proof {
                    lemma_decode_children_app(vs.subrange(2, i as int), seq![vs[i as int]]);
                    assert(seq![vs[i as int]].drop_first() =~= Seq::<ValueView>::empty());
                    assert(vs.subrange(2, i + 1) =~= vs.subrange(2, i as int) + seq![
                        vs[i as int]
                    ]);
                    lemma_elements_view_push(children@, e);
                    let ks = decode_children(vs.subrange(2, i as int))->Ok_0;
                    assert(seq![element_view(e)] + Seq::<ElementView>::empty() =~= seq![
                        element_view(e)
                    ]);
                    assert(first_kids + (ks + seq![element_view(e)]) =~= (first_kids + ks).push(
                        element_view(e),
                    ));
                }
                children.push(e);
            },
            Err(er) => {
                proof {
                    lemma_decode_children_app(vs.subrange(2, i as int), vs.subrange(i as int, n as int));
                    assert(vs.subrange(2, n as int) =~= vs.subrange(2, i as int) + vs.subrange(
                        i as int,
                        n as int,
                    ));
                    assert(vs.subrange(i as int, n as int)[0] == vs[i as int]);
                    assert(decode_children(vs.subrange(i as int, n as int)) == Err::<
                        Seq<ElementView>,
                        DecodeError,
                    >(er));
                }
                return Err(er);
            },
        }
        i += 1;
    }
    proof {
        assert(vs.subrange(2, i as int) =~= tail);
    }
    Ok(Element::Tag(Tag { name, attributes, element_list: children }))
}

} // verus!
