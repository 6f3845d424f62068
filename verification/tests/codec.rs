use jsonml::{decode, encode, AttributeValue, DecodeError, Element, Tag, Value};

fn s(text: &str) -> String {
    text.to_string()
}

#[test]
fn test_element_tag() {
    let element = Element::Tag(Tag {
        name: s("li"),
        attributes: vec![(s("style"), AttributeValue::String(s("color:red")))],
        element_list: vec![Element::String(s("First Item"))],
    });
    let wire = Value::Sequence(vec![
        Value::String(s("li")),
        Value::Mapping(vec![(s("style"), Value::String(s("color:red")))]),
        Value::String(s("First Item")),
    ]);
    assert_eq!(encode(&element), wire);
    assert_eq!(decode(&wire), Ok(element));
}

#[test]
fn test_element_tag_name_only() {
    let element = Element::Tag(Tag {
        name: s("li"),
        attributes: vec![],
        element_list: vec![],
    });
    let wire = Value::Sequence(vec![Value::String(s("li"))]);
    assert_eq!(encode(&element), wire);
    assert_eq!(decode(&wire), Ok(element));
}

#[test]
fn test_element_tag_without_element_list() {
    let element = Element::Tag(Tag {
        name: s("li"),
        attributes: vec![(s("style"), AttributeValue::String(s("color:red")))],
        element_list: vec![],
    });
    let wire = Value::Sequence(vec![
        Value::String(s("li")),
        Value::Mapping(vec![(s("style"), Value::String(s("color:red")))]),
    ]);
    assert_eq!(encode(&element), wire);
    assert_eq!(decode(&wire), Ok(element));
}

#[test]
fn test_element_string() {
    let element = Element::String(s("First Item"));
    assert_eq!(decode(&Value::String(s("First Item"))), Ok(element));
}

#[test]
fn test_attribute_value_string() {
    let element = Element::Tag(Tag {
        name: s("a"),
        attributes: vec![(s("b"), AttributeValue::String(s("color:red")))],
        element_list: vec![],
    });
    let wire = Value::Sequence(vec![
        Value::String(s("a")),
        Value::Mapping(vec![(s("b"), Value::String(s("color:red")))]),
    ]);
    assert_eq!(encode(&element), wire);
    assert_eq!(decode(&wire), Ok(element));
}

#[test]
#[allow(clippy::approx_constant)]
fn test_attribute_value_number() {
    let text = (3.14f32).to_string();
    let element = Element::Tag(Tag {
        name: s("a"),
        attributes: vec![(s("b"), AttributeValue::Number(text.clone()))],
        element_list: vec![],
    });
    let wire = Value::Sequence(vec![
        Value::String(s("a")),
        Value::Mapping(vec![(s("b"), Value::Number(text))]),
    ]);
    assert_eq!(encode(&element), wire);
    assert_eq!(decode(&wire), Ok(element));
}

#[test]
fn test_attribute_value_bool() {
    let element = Element::Tag(Tag {
        name: s("a"),
        attributes: vec![(s("b"), AttributeValue::Bool(false))],
        element_list: vec![],
    });
    let wire = Value::Sequence(vec![
        Value::String(s("a")),
        Value::Mapping(vec![(s("b"), Value::Bool(false))]),
    ]);
    assert_eq!(encode(&element), wire);
    assert_eq!(decode(&wire), Ok(element));
}

#[test]
fn test_attribute_value_null() {
    let element = Element::Tag(Tag {
        name: s("a"),
        attributes: vec![(s("b"), AttributeValue::Null)],
        element_list: vec![],
    });
    let wire = Value::Sequence(vec![
        Value::String(s("a")),
        Value::Mapping(vec![(s("b"), Value::Null)]),
    ]);
    assert_eq!(encode(&element), wire);
    assert_eq!(decode(&wire), Ok(element));
}

#[test]
fn decode_empty_sequence_is_missing_name() {
    assert_eq!(decode(&Value::Sequence(vec![])), Err(DecodeError::MissingName));
}

#[test]
fn decode_non_string_scalar_is_underlying_error() {
    assert_eq!(decode(&Value::Bool(true)), Err(DecodeError::UnderlyingTokenError));
    assert_eq!(decode(&Value::Null), Err(DecodeError::UnderlyingTokenError));
    assert_eq!(
        decode(&Value::Sequence(vec![Value::Number(s("3"))])),
        Err(DecodeError::UnderlyingTokenError)
    );
}

#[test]
fn decode_bad_second_token_is_malformed_sequence() {
    // A boolean is neither an attributes mapping nor an element.
    assert_eq!(
        decode(&Value::Sequence(vec![Value::String(s("a")), Value::Bool(true)])),
        Err(DecodeError::MalformedSequence)
    );
    // A mapping whose value is not a scalar matches neither shape.
    assert_eq!(
        decode(&Value::Sequence(vec![
            Value::String(s("a")),
            Value::Mapping(vec![(s("b"), Value::Sequence(vec![]))]),
        ])),
        Err(DecodeError::MalformedSequence)
    );
    // A sequence that is not a valid element matches neither shape.
    assert_eq!(
        decode(&Value::Sequence(vec![Value::String(s("a")), Value::Sequence(vec![])])),
        Err(DecodeError::MalformedSequence)
    );
}

#[test]
fn decode_bad_later_child_propagates() {
    // Past the second position a bad child's own error comes through.
    assert_eq!(
        decode(&Value::Sequence(vec![
            Value::String(s("a")),
            Value::String(s("x")),
            Value::Sequence(vec![]),
        ])),
        Err(DecodeError::MissingName)
    );
    assert_eq!(
        decode(&Value::Sequence(vec![
            Value::String(s("a")),
            Value::String(s("x")),
            Value::Bool(true),
        ])),
        Err(DecodeError::UnderlyingTokenError)
    );
}

#[test]
fn decode_duplicate_keys_last_wins() {
    let wire = Value::Sequence(vec![
        Value::String(s("a")),
        Value::Mapping(vec![
            (s("b"), Value::String(s("1"))),
            (s("c"), Value::String(s("2"))),
            (s("b"), Value::String(s("3"))),
        ]),
    ]);
    let expected = Element::Tag(Tag {
        name: s("a"),
        attributes: vec![
            (s("b"), AttributeValue::String(s("3"))),
            (s("c"), AttributeValue::String(s("2"))),
        ],
        element_list: vec![],
    });
    assert_eq!(decode(&wire), Ok(expected));
}

#[test]
fn round_trip_mixed_children() {
    let element = Element::Tag(Tag {
        name: s("p"),
        attributes: vec![(s("id"), AttributeValue::String(s("x")))],
        element_list: vec![
            Element::String(s("one")),
            Element::Tag(Tag {
                name: s("b"),
                attributes: vec![],
                element_list: vec![Element::String(s("two"))],
            }),
            Element::String(s("three")),
        ],
    });
    let encoded = encode(&element);
    assert_eq!(decode(&encoded), Ok(element));
}

#[test]
fn encode_keeps_attribute_order() {
    let element = Element::Tag(Tag {
        name: s("li"),
        attributes: vec![
            (s("title"), AttributeValue::String(s("Some hover text."))),
            (s("style"), AttributeValue::String(s("color:green"))),
        ],
        element_list: vec![],
    });
    let wire = Value::Sequence(vec![
        Value::String(s("li")),
        Value::Mapping(vec![
            (s("title"), Value::String(s("Some hover text."))),
            (s("style"), Value::String(s("color:green"))),
        ]),
    ]);
    assert_eq!(encode(&element), wire);
    assert_eq!(decode(&wire), Ok(element));
}

#[test]
fn round_trip_empty_attributes_and_children() {
    let element = Element::Tag(Tag {
        name: s("hr"),
        attributes: vec![],
        element_list: vec![],
    });
    assert_eq!(decode(&encode(&element)), Ok(element));
}

#[test]
fn test_bullet_list_example() {
    let wire = Value::Sequence(vec![
        Value::String(s("ul")),
        Value::Sequence(vec![
            Value::String(s("li")),
            Value::Mapping(vec![(s("style"), Value::String(s("color:red")))]),
            Value::String(s("First Item")),
        ]),
        Value::Sequence(vec![
            Value::String(s("li")),
            Value::Mapping(vec![
                (s("title"), Value::String(s("Some hover text."))),
                (s("style"), Value::String(s("color:green"))),
            ]),
            Value::String(s("Second Item")),
        ]),
        Value::Sequence(vec![
            Value::String(s("li")),
            Value::Sequence(vec![
                Value::String(s("span")),
                Value::Mapping(vec![(s("class"), Value::String(s("code-example-third")))]),
                Value::String(s("Third")),
            ]),
            Value::String(s(" Item")),
        ]),
    ]);
    let element = decode(&wire).expect("decode wire tree");
    assert_eq!(
        element,
        Element::Tag(Tag {
            name: s("ul"),
            attributes: vec![],
            element_list: vec![
                Element::Tag(Tag {
                    name: s("li"),
                    attributes: vec![(s("style"), AttributeValue::String(s("color:red")))],
                    element_list: vec![Element::String(s("First Item"))]
                }),
                Element::Tag(Tag {
                    name: s("li"),
                    attributes: vec![
                        (s("title"), AttributeValue::String(s("Some hover text."))),
                        (s("style"), AttributeValue::String(s("color:green")))
                    ],
                    element_list: vec![Element::String(s("Second Item"))]
                }),
                Element::Tag(Tag {
                    name: s("li"),
                    attributes: vec![],
                    element_list: vec![
                        Element::Tag(Tag {
                            name: s("span"),
                            attributes: vec![(
                                s("class"),
                                AttributeValue::String(s("code-example-third"))
                            )],
                            element_list: vec![Element::String(s("Third"))]
                        }),
                        Element::String(s(" Item"))
                    ]
                })
            ]
        })
    );
}

fn td(class: &str, style: &str, content: Vec<Element>) -> Value {
    let mut items = vec![
        Value::String(s("td")),
        Value::Mapping(vec![
            (s("class"), Value::String(s(class))),
            (s("style"), Value::String(s(style))),
        ]),
    ];
    for c in &content {
        items.push(encode(c));
    }
    Value::Sequence(items)
}
fn td_tag(class: &str, style: &str, content: Vec<Element>) -> Element {
    Element::Tag(Tag {
        name: s("td"),
        attributes: vec![
            (s("class"), AttributeValue::String(s(class))),
            (s("style"), AttributeValue::String(s(style))),
        ],
        element_list: content,
    })
}
fn span_tag() -> Element {
    Element::Tag(Tag {
        name: s("span"),
        attributes: vec![(s("style"), AttributeValue::String(s("background-color:maroon")))],
        element_list: vec![Element::String(s("\u{00A9}"))],
    })
}

#[test]
fn test_colorful_table_example() {
    let wire = Value::Sequence(vec![
        Value::String(s("table")),
        Value::Mapping(vec![
            (s("class"), Value::String(s("MyTable"))),
            (s("style"), Value::String(s("background-color:yellow"))),
        ]),
        Value::Sequence(vec![
            Value::String(s("tr")),
            td("MyTD", "border:1px solid black", vec![Element::String(s("#550758"))]),
            td("MyTD", "background-color:red", vec![Element::String(s("Example text here"))]),
        ]),
        Value::Sequence(vec![
            Value::String(s("tr")),
            td("MyTD", "border:1px solid black", vec![Element::String(s("#993101"))]),
            td("MyTD", "background-color:green", vec![Element::String(s("127624015"))]),
        ]),
        Value::Sequence(vec![
            Value::String(s("tr")),
            td("MyTD", "border:1px solid black", vec![Element::String(s("#E33D87"))]),
            td(
                "MyTD",
                "background-color:blue",
                vec![
                    Element::String(s("\u{00A0}")),
                    span_tag(),
                    Element::String(s("\u{00A0}")),
                ],
            ),
        ]),
    ]);
    let element = decode(&wire).expect("decode wire tree");
    assert_eq!(
        element,
        Element::Tag(Tag {
            name: s("table"),
            attributes: vec![
                (s("class"), AttributeValue::String(s("MyTable"))),
                (s("style"), AttributeValue::String(s("background-color:yellow")))
            ],
            element_list: vec![
                Element::Tag(Tag {
                    name: s("tr"),
                    attributes: vec![],
                    element_list: vec![
                        td_tag(
                            "MyTD",
                            "border:1px solid black",
                            vec![Element::String(s("#550758"))]
                        ),
                        td_tag(
                            "MyTD",
                            "background-color:red",
                            vec![Element::String(s("Example text here"))]
                        ),
                    ]
                }),
                Element::Tag(Tag {
                    name: s("tr"),
                    attributes: vec![],
                    element_list: vec![
                        td_tag(
                            "MyTD",
                            "border:1px solid black",
                            vec![Element::String(s("#993101"))]
                        ),
                        td_tag(
                            "MyTD",
                            "background-color:green",
                            vec![Element::String(s("127624015"))]
                        ),
                    ]
                }),
                Element::Tag(Tag {
                    name: s("tr"),
                    attributes: vec![],
                    element_list: vec![
                        td_tag(
                            "MyTD",
                            "border:1px solid black",
                            vec![Element::String(s("#E33D87"))]
                        ),
                        td_tag(
                            "MyTD",
                            "background-color:blue",
                            vec![
                                Element::String(s("\u{00A0}")),
                                span_tag(),
                                Element::String(s("\u{00A0}")),
                            ]
                        ),
                    ]
                })
            ]
        })
    );
}
