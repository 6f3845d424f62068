use jsonml::{decode, encode, render, AttributeValue, Element, RenderError, Tag, Value};

fn s(text: &str) -> String {
    text.to_string()
}

#[test]
fn test_display_element() {
    let element = Element::Tag(Tag {
        name: s("div"),
        attributes: vec![(s("id"), AttributeValue::String(s("aaa")))],
        element_list: vec![
            Element::String(s("bbb")),
            Element::Tag(Tag {
                name: s("span"),
                attributes: vec![],
                element_list: vec![Element::String(s("ccc"))],
            }),
        ],
    });
    assert_eq!(render(&element), Ok(s(r#"<div id="aaa">bbb<span>ccc</span></div>"#)));
}

#[test]
fn test_display_element_encode_attribute_value() {
    let element = Element::Tag(Tag {
        name: s("a"),
        attributes: vec![(s("b"), AttributeValue::String(s("=")))],
        element_list: vec![],
    });
    assert_eq!(render(&element), Ok(s(r#"<a b="&#x3D;"></a>"#)));
}

#[test]
fn render_invalid_tag_name_fails() {
    let element = Element::Tag(Tag {
        name: s("\u{65E5}"),
        attributes: vec![],
        element_list: vec![],
    });
    assert_eq!(render(&element), Err(RenderError::InvalidTagName));
}

#[test]
fn render_invalid_attribute_name_fails() {
    let element = Element::Tag(Tag {
        name: s("a"),
        attributes: vec![(s(" "), AttributeValue::Null)],
        element_list: vec![],
    });
    assert_eq!(render(&element), Err(RenderError::InvalidAttributeName));
}

#[test]
fn render_invalid_child_fails() {
    let element = Element::Tag(Tag {
        name: s("a"),
        attributes: vec![],
        element_list: vec![Element::Tag(Tag {
            name: s("b/c"),
            attributes: vec![],
            element_list: vec![],
        })],
    });
    assert_eq!(render(&element), Err(RenderError::InvalidTagName));
}

#[test]
fn render_scalar_attribute_values() {
    let null_attr = Element::Tag(Tag {
        name: s("a"),
        attributes: vec![(s("b"), AttributeValue::Null)],
        element_list: vec![],
    });
    assert_eq!(render(&null_attr), Ok(s(r#"<a b="null"></a>"#)));
    let false_attr = Element::Tag(Tag {
        name: s("a"),
        attributes: vec![(s("b"), AttributeValue::Bool(false))],
        element_list: vec![],
    });
    assert_eq!(render(&false_attr), Ok(s(r#"<a b="false"></a>"#)));
    let true_attr = Element::Tag(Tag {
        name: s("a"),
        attributes: vec![(s("b"), AttributeValue::Bool(true))],
        element_list: vec![],
    });
    assert_eq!(render(&true_attr), Ok(s(r#"<a b="true"></a>"#)));
    let number_attr = Element::Tag(Tag {
        name: s("a"),
        attributes: vec![(s("b"), AttributeValue::Number((3.5f32).to_string()))],
        element_list: vec![],
    });
    assert_eq!(render(&number_attr), Ok(s(r#"<a b="3.5"></a>"#)));
}

#[test]
fn render_escapes_attribute_text() {
    let element = Element::Tag(Tag {
        name: s("a"),
        attributes: vec![(s("b"), AttributeValue::String(s("x&y<z\"w caf\u{00E9}")))],
        element_list: vec![],
    });
    assert_eq!(
        render(&element),
        Ok(s("<a b=\"x&amp;y&lt;z&quot;w&#x20;caf\u{00E9}\"></a>"))
    );
}

#[test]
fn render_text_verbatim() {
    // Text leaves are emitted verbatim, with no escaping.
    let element = Element::String(s("a < b & c"));
    assert_eq!(render(&element), Ok(s("a < b & c")));
}

#[test]
fn end_to_end_bullet_item() {
    let wire = Value::Sequence(vec![
        Value::String(s("ul")),
        Value::Sequence(vec![
            Value::String(s("li")),
            Value::Mapping(vec![(s("style"), Value::String(s("color:red")))]),
            Value::String(s("First Item")),
        ]),
    ]);
    let element = decode(&wire).expect("decode wire tree");
    assert_eq!(
        element,
        Element::Tag(Tag {
            name: s("ul"),
            attributes: vec![],
            element_list: vec![Element::Tag(Tag {
                name: s("li"),
                attributes: vec![(s("style"), AttributeValue::String(s("color:red")))],
                element_list: vec![Element::String(s("First Item"))]
            })]
        })
    );
    assert_eq!(render(&element), Ok(s(r#"<ul><li style="color:red">First Item</li></ul>"#)));
}

#[test]
fn mixed_children_keep_order_through_all_transforms() {
    fn mixed() -> Element {
        Element::Tag(Tag {
            name: s("p"),
            attributes: vec![],
            element_list: vec![
                Element::String(s("one")),
                Element::Tag(Tag {
                    name: s("b"),
                    attributes: vec![],
                    element_list: vec![Element::String(s("two"))],
                }),
                Element::String(s("three")),
            ],
        })
    }
    let element = mixed();
    assert_eq!(decode(&encode(&element)), Ok(mixed()));
    assert_eq!(render(&element), Ok(s("<p>one<b>two</b>three</p>")));
}

#[test]
fn default_element_is_empty_text() {
    assert_eq!(Element::default(), Element::String(s("")));
    assert_eq!(render(&Element::default()), Ok(s("")));
}

fn suffix_tag_names(e: Element) -> Element {
    match e {
        Element::Tag(t) => Element::Tag(Tag {
            name: t.name + "x",
            attributes: t.attributes,
            element_list: t.element_list,
        }),
        other => other,
    }
}

#[test]
fn map_bottom_up_rebuilds_every_tag() {
    let element = Element::Tag(Tag {
        name: s("div"),
        attributes: vec![],
        element_list: vec![
            Element::String(s("t")),
            Element::Tag(Tag {
                name: s("span"),
                attributes: vec![],
                element_list: vec![],
            }),
        ],
    });
    let mapped = element.map_bottom_up(suffix_tag_names);
    assert_eq!(
        mapped,
        Element::Tag(Tag {
            name: s("divx"),
            attributes: vec![],
            element_list: vec![
                Element::String(s("t")),
                Element::Tag(Tag {
                    name: s("spanx"),
                    attributes: vec![],
                    element_list: vec![],
                }),
            ],
        })
    );
}
