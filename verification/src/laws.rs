//! Laws relating the encoder and the decoder.

use vstd::prelude::*;

use crate::decode::{
    all_scalar, attr_of_scalar, attrs_of_pairs, decode_children, decode_tag_items, decode_value,
    is_mapping_shape, lemma_attrs_of_pairs_unique, lemma_set_key_absent, DecodeError,
};
use crate::encode::{
    encode_attr, encode_attr_pairs, encode_children, encode_element, encode_tag_items,
    lemma_encode_attr_pairs_len, lemma_encode_children_len,
};
use crate::tree::{
    attr_keys_unique, element_wf, elements_wf, lemma_elements_wf_index, AttrValueView, ElementView,
    TagView,
};
use crate::wire::ValueView;

verus! {

/// A mapping that encodes unique-keyed attributes decodes to those
/// attributes again: binding each pair in order never meets a key twice.
pub proof fn lemma_attrs_round_trip(attrs: Seq<(Seq<char>, AttrValueView)>)
    requires
        attr_keys_unique(attrs),
    ensures
        attrs_of_pairs(encode_attr_pairs(attrs)) == attrs,
    decreases attrs.len(),
{
    lemma_encode_attr_pairs_len(attrs);
    if attrs.len() == 0 {
        assert(encode_attr_pairs(attrs) =~= Seq::<(Seq<char>, ValueView)>::empty());
        assert(attrs_of_pairs(encode_attr_pairs(attrs)) =~= attrs);
    } else {
        let prefix = attrs.drop_last();
        lemma_encode_attr_pairs_len(prefix);
        assert(encode_attr_pairs(attrs).drop_last() =~= encode_attr_pairs(prefix));
        assert(encode_attr_pairs(attrs).last() == (
            attrs.last().0,
            encode_attr(attrs.last().1),
        ));
        assert(attr_of_scalar(encode_attr(attrs.last().1)) == attrs.last().1);
        assert(attr_keys_unique(prefix)) by {
            assert(forall|i: int, j: int|
                0 <= i < j < prefix.len() ==> prefix[i] == attrs[i] && prefix[j] == attrs[j]);
        }
        lemma_attrs_round_trip(prefix);
        assert(forall|m: int| 0 <= m < prefix.len() ==> (#[trigger] prefix[m]).0 != attrs.last().0)
            by {
            assert(forall|m: int| 0 <= m < prefix.len() ==> prefix[m] == attrs[m]);
        }
        lemma_set_key_absent(prefix, attrs.last().0, attrs.last().1);
        assert(prefix.push(attrs.last()) =~= attrs);
    }
}

/// Round trip: a well-formed markup tree, encoded to the wire and decoded
/// back, is returned unchanged. Well-formed means no tag binds the same
/// attribute key twice, which is the only freedom the wire mapping cannot
/// carry.
pub proof fn lemma_round_trip(e: ElementView)
    requires
        element_wf(e),
    ensures
        decode_value(encode_element(e)) == Ok::<ElementView, DecodeError>(e),
    decreases e,
{
    match e {
        ElementView::Text(_) => {},
        ElementView::Tag(t) => {
            let items = encode_tag_items(t);
            let attrs_part: Seq<ValueView> = if t.attributes.len() == 0 {
                Seq::empty()
            } else {
                seq![ValueView::Obj(encode_attr_pairs(t.attributes))]
            };
            let kids_enc = encode_children(t.children);
            lemma_encode_children_len(t.children);
            assert(items =~= seq![ValueView::Str(t.name)] + attrs_part + kids_enc);
            assert(items[0] == ValueView::Str(t.name));
            let rest = items.drop_first();
            assert(rest =~= attrs_part + kids_enc);
            lemma_elements_wf_index(t.children);
            if t.attributes.len() == 0 {
                assert(rest =~= kids_enc);
                if t.children.len() == 0 {
                    assert(rest.len() == 0);
                    assert(t.attributes =~= Seq::<(Seq<char>, AttrValueView)>::empty());
                    assert(t.children =~= Seq::<ElementView>::empty());
                    assert(TagView {
                        name: t.name,
                        attributes: Seq::empty(),
                        children: Seq::empty(),
                    } == t);
                    assert(decode_tag_items(items) == Ok::<ElementView, DecodeError>(e));
                } else {
                    assert(rest[0] == encode_element(t.children[0]));
                    assert(!is_mapping_shape(rest[0]));
                    lemma_round_trip(t.children[0]);
                    assert(rest.drop_first() =~= encode_children(t.children.drop_first()));
                    lemma_round_trip_children(t.children.drop_first());
                    assert(seq![t.children[0]] + t.children.drop_first() =~= t.children);
                    assert(t.attributes =~= Seq::<(Seq<char>, AttrValueView)>::empty());
                    assert(TagView {
                        name: t.name,
                        attributes: Seq::empty(),
                        children: seq![t.children[0]] + t.children.drop_first(),
                    } == t);
                    assert(decode_tag_items(items) == Ok::<ElementView, DecodeError>(e));
                }
            } else {
                assert(rest[0] == ValueView::Obj(encode_attr_pairs(t.attributes)));
                lemma_encode_attr_pairs_len(t.attributes);
                assert(all_scalar(encode_attr_pairs(t.attributes)));
                assert(is_mapping_shape(rest[0]));
                lemma_attrs_round_trip(t.attributes);
                assert(rest.drop_first() =~= kids_enc);
                lemma_round_trip_children(t.children);
                assert(TagView {
                    name: t.name,
                    attributes: attrs_of_pairs(rest[0]->Obj_0),
                    children: t.children,
                } == t);
                assert(decode_tag_items(items) == Ok::<ElementView, DecodeError>(e));
            }
        },
    }
}

/// Whatever the decoder yields is well-formed: no tag of a decoded tree
/// binds an attribute key twice, so every decoded tree round-trips.
pub proof fn lemma_decode_wf(v: ValueView)
    ensures
        decode_value(v) is Ok ==> element_wf(decode_value(v)->Ok_0),
    decreases v,
{
    match v {
        ValueView::Arr(items) => {
            if items.len() > 0 && items[0] is Str {
                let rest = items.drop_first();
                if rest.len() == 0 {
                    assert(elements_wf(Seq::<ElementView>::empty()));
                } else if is_mapping_shape(rest[0]) {
                    lemma_attrs_of_pairs_unique(rest[0]->Obj_0);
                    lemma_decode_children_wf(rest.drop_first());
                } else {
                    lemma_decode_wf(rest[0]);
                    lemma_decode_children_wf(rest.drop_first());
                    if decode_value(rest[0]) is Ok && decode_children(rest.drop_first()) is Ok {
                        let first = decode_value(rest[0])->Ok_0;
                        let kids = decode_children(rest.drop_first())->Ok_0;
                        lemma_elements_wf_index(kids);
                        lemma_elements_wf_index(seq![first] + kids);
                        assert forall|i: int| 0 <= i < (seq![first] + kids).len() implies element_wf(
                            #[trigger] (seq![first] + kids)[i],
                        ) by {
                            if i > 0 {
                                assert((seq![first] + kids)[i] == kids[i - 1]);
                            }
                        }
                    }
                }
            }
        },
        _ => {},
    }
}

/// Whatever the decoder yields for a child sequence is well-formed.
pub proof fn lemma_decode_children_wf(s: Seq<ValueView>)
    ensures
        decode_children(s) is Ok ==> elements_wf(decode_children(s)->Ok_0),
    decreases s,
{
    if s.len() > 0 {
        lemma_decode_wf(s[0]);
        lemma_decode_children_wf(s.drop_first());
        if decode_value(s[0]) is Ok && decode_children(s.drop_first()) is Ok {
            let first = decode_value(s[0])->Ok_0;
            let kids = decode_children(s.drop_first())->Ok_0;
            lemma_elements_wf_index(kids);
            lemma_elements_wf_index(seq![first] + kids);
            assert forall|i: int| 0 <= i < (seq![first] + kids).len() implies element_wf(
                #[trigger] (seq![first] + kids)[i],
            ) by {
                if i > 0 {
                    assert((seq![first] + kids)[i] == kids[i - 1]);
                }
            }
        }
    }
}

/// Round trip for a sequence of children, in order.
pub proof fn lemma_round_trip_children(s: Seq<ElementView>)
    requires
        elements_wf(s),
    ensures
        decode_children(encode_children(s)) == Ok::<Seq<ElementView>, DecodeError>(s),
    decreases s,
{
    if s.len() == 0 {
        assert(encode_children(s) =~= Seq::<ValueView>::empty());
        assert(decode_children(encode_children(s)) == Ok::<Seq<ElementView>, DecodeError>(
            Seq::empty(),
        ));
        assert(s =~= Seq::<ElementView>::empty());
    } else {
        let ec = encode_children(s);
        lemma_encode_children_len(s);
        lemma_encode_children_len(s.drop_first());
        assert(ec[0] == encode_element(s[0]));
        assert(ec.drop_first() =~= encode_children(s.drop_first()));
        lemma_round_trip(s[0]);
        lemma_round_trip_children(s.drop_first());
        assert(seq![s[0]] + s.drop_first() =~= s);
    }
}

} // verus!
