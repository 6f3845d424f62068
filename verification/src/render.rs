//! The HTML renderer: walks a markup tree and produces HTML text.
//!
//! Tag names must be ASCII alphanumeric and attribute keys must avoid the
//! characters HTML excludes from attribute names; in attribute values the
//! characters unsafe in an unquoted-attribute context are entity-escaped.
//! Text leaves are emitted verbatim — the caller is responsible for
//! pre-escaping untrusted text. Numeric attribute text is emitted verbatim
//! as well.

use vstd::prelude::*;
use vstd::string::StrSliceExecFns;
use vstd::string::StringExecFns;

use crate::tree::{
    attr_value_view, element_view, lemma_attrs_view_len, lemma_elements_view_len, tag_view,
    AttrValueView, AttributeValue, Element, ElementView,
};

verus! {

/// Why rendering failed.
#[derive(Debug, Clone, Copy, PartialEq, Eq, Structural)]
pub enum RenderError {
    /// A tag name holds a character that is not ASCII alphanumeric.
    InvalidTagName,
    /// An attribute key holds a character HTML excludes from attribute
    /// names.
    InvalidAttributeName,
}

/// An ASCII alphanumeric character: a digit or a letter of either case.
pub open spec fn is_tag_name_char(c: char) -> bool {
    let u: u32 = c as u32;
    (48 <= u && u <= 57) || (65 <= u && u <= 90) || (97 <= u && u <= 122)
}

pub open spec fn valid_tag_name(s: Seq<char>) -> bool {
    forall|i: int| 0 <= i < s.len() ==> is_tag_name_char(#[trigger] s[i])
}

/// A character HTML accepts in an attribute name: not space, double or
/// single quote, `>`, `/` or `=`, and not a noncharacter code point
/// (U+FDD0 through U+FDEF, and the last two code points of each plane).
pub open spec fn is_attr_key_char(c: char) -> bool {
    let u: u32 = c as u32;
    &&& c != ' '
    &&& c != '"'
    &&& c != '\''
    &&& c != '>'
    &&& c != '/'
    &&& c != '='
    &&& !(0xFDD0 <= u && u <= 0xFDEF)
    &&& u % 0x10000 != 0xFFFE
    &&& u % 0x10000 != 0xFFFF
}

pub open spec fn valid_attr_key(s: Seq<char>) -> bool {
    forall|i: int| 0 <= i < s.len() ==> is_attr_key_char(#[trigger] s[i])
}

/// A character escaped in an attribute value: the characters unsafe in an
/// unquoted-attribute context — ASCII whitespace, `"`, `'`, `=`, `<`, `>`
/// and a backtick — and `&`, which would start an entity.
pub open spec fn needs_escape(c: char) -> bool {
    ||| c == '&'
    ||| c == '<'
    ||| c == '>'
    ||| c == '"'
    ||| c == '\''
    ||| c == '='
    ||| c == '`'
    ||| c == ' '
    ||| c == '\t'
    ||| c == '\n'
    ||| c == '\u{000C}'
    ||| c == '\r'
}

/// What a character becomes in attribute value text: `&`, `<`, `>` and `"`
/// become named entities, the other unsafe characters become `&#xHH;` with
/// upper-case hex digits, and every other character stays as it is.
pub open spec fn escape_char(c: char) -> Seq<char> {
    if c == '&' {
        seq!['&', 'a', 'm', 'p', ';']
    } else if c == '<' {
        seq!['&', 'l', 't', ';']
    } else if c == '>' {
        seq!['&', 'g', 't', ';']
    } else if c == '"' {
        seq!['&', 'q', 'u', 'o', 't', ';']
    } else if c == '\'' {
        seq!['&', '#', 'x', '2', '7', ';']
    } else if c == '=' {
        seq!['&', '#', 'x', '3', 'D', ';']
    } else if c == '`' {
        seq!['&', '#', 'x', '6', '0', ';']
    } else if c == ' ' {
        seq!['&', '#', 'x', '2', '0', ';']
    } else if c == '\t' {
        seq!['&', '#', 'x', '0', '9', ';']
    } else if c == '\n' {
        seq!['&', '#', 'x', '0', 'A', ';']
    } else if c == '\u{000C}' {
        seq!['&', '#', 'x', '0', 'C', ';']
    } else if c == '\r' {
        seq!['&', '#', 'x', '0', 'D', ';']
    } else {
        seq![c]
    }
}

pub open spec fn escape_text(s: Seq<char>) -> Seq<char>
    decreases s.len(),
{
    if s.len() == 0 {
        Seq::empty()
    } else {
        escape_char(s[0]) + escape_text(s.drop_first())
    }
}

pub open spec fn bool_text(b: bool) -> Seq<char> {
    if b {
        seq!['t', 'r', 'u', 'e']
    } else {
        seq!['f', 'a', 'l', 's', 'e']
    }
}

pub open spec fn null_text() -> Seq<char> {
    seq!['n', 'u', 'l', 'l']
}

/// The attribute value text: a string escaped, numeric text verbatim,
/// `true`/`false` for booleans, `null` for the null marker.
pub open spec fn attr_value_text(a: AttrValueView) -> Seq<char> {
    match a {
        AttrValueView::Str(s) => escape_text(s),
        AttrValueView::Num(t) => t,
        AttrValueView::Bool(b) => bool_text(b),
        AttrValueView::Null => null_text(),
    }
}

/// The text one attribute contributes: ` key="value"`.
pub open spec fn attr_text(p: (Seq<char>, AttrValueView)) -> Seq<char> {
    seq![' '] + p.0 + seq!['=', '"'] + attr_value_text(p.1) + seq!['"']
}

/// The text of an attribute sequence, or the error of its first invalid
/// key in order.
pub open spec fn render_attrs(attrs: Seq<(Seq<char>, AttrValueView)>) -> Result<
    Seq<char>,
    RenderError,
>
    decreases attrs.len(),
{
    if attrs.len() == 0 {
        Ok(Seq::empty())
    } else if !valid_attr_key(attrs[0].0) {
        Err(RenderError::InvalidAttributeName)
    } else {
        match render_attrs(attrs.drop_first()) {
            Ok(rest) => Ok(attr_text(attrs[0]) + rest),
            Err(e) => Err(e),
        }
    }
}

/// The HTML text of a markup tree: text leaves verbatim, a tag as
/// `<name attrs>children</name>`, never self-closing. The name is checked
/// first, then the attribute keys in order, then the children in order.
pub open spec fn render_element(e: ElementView) -> Result<Seq<char>, RenderError>
    decreases e,
{
    match e {
        ElementView::Text(s) => Ok(s),
        ElementView::Tag(t) => {
            if !valid_tag_name(t.name) {
                Err(RenderError::InvalidTagName)
            } else {
                match render_attrs(t.attributes) {
                    Ok(a) => match render_children(t.children) {
                        Ok(k) => Ok(
                            seq!['<'] + t.name + a + seq!['>'] + k + seq!['<', '/'] + t.name
                                + seq!['>'],
                        ),
                        Err(e2) => Err(e2),
                    },
                    Err(e2) => Err(e2),
                }
            }
        },
    }
}

pub open spec fn render_children(s: Seq<ElementView>) -> Result<Seq<char>, RenderError>
    decreases s,
{
    if s.len() == 0 {
        Ok(Seq::empty())
    } else {
        match render_element(s[0]) {
            Ok(h) => match render_children(s.drop_first()) {
                Ok(rest) => Ok(h + rest),
                Err(e) => Err(e),
            },
            Err(e) => Err(e),
        }
    }
}

/// The view of a rendering result.
pub open spec fn rendered_view(r: Result<String, RenderError>) -> Result<Seq<char>, RenderError> {
    match r {
        Ok(s) => Ok(s@),
        Err(e) => Err(e),
    }
}

/// Rendering a concatenation of attribute sequences renders each part; an
/// error in the left part hides the right part.
pub proof fn lemma_render_attrs_app(
    a: Seq<(Seq<char>, AttrValueView)>,
    b: Seq<(Seq<char>, AttrValueView)>,
)
    ensures
        render_attrs(a + b) == (match render_attrs(a) {
            Ok(ra) => match render_attrs(b) {
                Ok(rb) => Ok::<Seq<char>, RenderError>(ra + rb),
                Err(e) => Err(e),
            },
            Err(e) => Err::<Seq<char>, RenderError>(e),
        }),
    decreases a.len(),
{
    if a.len() == 0 {
        assert(a + b =~= b);
        if render_attrs(b) is Ok {
            assert(Seq::<char>::empty() + render_attrs(b)->Ok_0 =~= render_attrs(b)->Ok_0);
        }
    } else {
        assert((a + b)[0] == a[0]);
        assert((a + b).drop_first() =~= a.drop_first() + b);
        lemma_render_attrs_app(a.drop_first(), b);
        if valid_attr_key(a[0].0) && render_attrs(a.drop_first()) is Ok && render_attrs(b) is Ok {
            assert(attr_text(a[0]) + (render_attrs(a.drop_first())->Ok_0 + render_attrs(b)->Ok_0)
                =~= (attr_text(a[0]) + render_attrs(a.drop_first())->Ok_0) + render_attrs(
                b,
            )->Ok_0);
        }
    }
}

/// Rendering a concatenation of child sequences renders each part; an
/// error in the left part hides the right part.
pub proof fn lemma_render_children_app(a: Seq<ElementView>, b: Seq<ElementView>)
    ensures
        render_children(a + b) == (match render_children(a) {
            Ok(ra) => match render_children(b) {
                Ok(rb) => Ok::<Seq<char>, RenderError>(ra + rb),
                Err(e) => Err(e),
            },
            Err(e) => Err::<Seq<char>, RenderError>(e),
        }),
    decreases a,
{
    if a.len() == 0 {
        assert(a + b =~= b);
        if render_children(b) is Ok {
            assert(Seq::<char>::empty() + render_children(b)->Ok_0 =~= render_children(b)->Ok_0);
        }
    } else {
        assert((a + b)[0] == a[0]);
        assert((a + b).drop_first() =~= a.drop_first() + b);
        lemma_render_children_app(a.drop_first(), b);
        if render_element(a[0]) is Ok && render_children(a.drop_first()) is Ok && render_children(
            b,
        ) is Ok {
            assert(render_element(a[0])->Ok_0 + (render_children(a.drop_first())->Ok_0
                + render_children(b)->Ok_0) =~= (render_element(a[0])->Ok_0 + render_children(
                a.drop_first(),
            )->Ok_0) + render_children(b)->Ok_0);
        }
    }
}

/// Escaping splits over concatenation.
pub proof fn lemma_escape_text_app(a: Seq<char>, b: Seq<char>)
    ensures
        escape_text(a + b) == escape_text(a) + escape_text(b),
    decreases a.len(),
{
    if a.len() == 0 {
        assert(a + b =~= b);
        assert(escape_text(a) =~= Seq::<char>::empty());
        assert(Seq::<char>::empty() + escape_text(b) =~= escape_text(b));
    } else {
        assert((a + b)[0] == a[0]);
        assert((a + b).drop_first() =~= a.drop_first() + b);
        lemma_escape_text_app(a.drop_first(), b);
        assert(escape_char(a[0]) + (escape_text(a.drop_first()) + escape_text(b)) =~= (escape_char(
            a[0],
        ) + escape_text(a.drop_first())) + escape_text(b));
    }
}

/// Text without an unsafe character is its own escaping.
pub proof fn lemma_escape_text_plain(t: Seq<char>)
    requires
        forall|k: int| 0 <= k < t.len() ==> !needs_escape(#[trigger] t[k]),
    ensures
        escape_text(t) == t,
    decreases t.len(),
{
    if t.len() > 0 {
        assert(!needs_escape(t[0]));
        assert(escape_char(t[0]) =~= seq![t[0]]);
        assert forall|k: int| 0 <= k < t.drop_first().len() implies !needs_escape(
            #[trigger] t.drop_first()[k],
        ) by {
            assert(t.drop_first()[k] == t[k + 1]);
        }
        lemma_escape_text_plain(t.drop_first());
        assert(seq![t[0]] + t.drop_first() =~= t);
    }
}

fn char_needs_escape(c: char) -> (r: bool)
    ensures
        r == needs_escape(c),
{
    c == '&' || c == '<' || c == '>' || c == '"' || c == '\'' || c == '=' || c == '`' || c == ' '
        || c == '\t' || c == '\n' || c == '\u{000C}' || c == '\r'
}

fn entity_text(c: char) -> (r: &'static str)
    requires
        needs_escape(c),
    ensures
        r@ == escape_char(c),
{
    if c == '&' {
        let r = "&amp;";
        proof {
            reveal_strlit("&amp;");
            assert(r@ =~= escape_char(c));
        }
        r
    } else if c == '<' {
        let r = "&lt;";
        proof {
            reveal_strlit("&lt;");
            assert(r@ =~= escape_char(c));
        }
        r
    } else if c == '>' {
        let r = "&gt;";
        proof {
            reveal_strlit("&gt;");
            assert(r@ =~= escape_char(c));
        }
        r
    } else if c == '"' {
        let r = "&quot;";
        proof {
            reveal_strlit("&quot;");
            assert(r@ =~= escape_char(c));
        }
        r
    } else if c == '\'' {
        let r = "&#x27;";
        proof {
            reveal_strlit("&#x27;");
            assert(r@ =~= escape_char(c));
        }
        r
    } else if c == '=' {
        let r = "&#x3D;";
        proof {
            reveal_strlit("&#x3D;");
            assert(r@ =~= escape_char(c));
        }
        r
    } else if c == '`' {
        let r = "&#x60;";
        proof {
            reveal_strlit("&#x60;");
            assert(r@ =~= escape_char(c));
        }
        r
    } else if c == ' ' {
        let r = "&#x20;";
        proof {
            reveal_strlit("&#x20;");
            assert(r@ =~= escape_char(c));
        }
        r
    } else if c == '\t' {
        let r = "&#x09;";
        proof {
            reveal_strlit("&#x09;");
            assert(r@ =~= escape_char(c));
        }
        r
    } else if c == '\n' {
        let r = "&#x0A;";
        proof {
            reveal_strlit("&#x0A;");
            assert(r@ =~= escape_char(c));
        }
        r
    } else if c == '\u{000C}' {
        let r = "&#x0C;";
        proof {
            reveal_strlit("&#x0C;");
            assert(r@ =~= escape_char(c));
        }
        r
    } else {
        let r = "&#x0D;";
        proof {
            reveal_strlit("&#x0D;");
            assert(r@ =~= escape_char(c));
        }
        r
    }
}

/// Escape a string for use as attribute value text: unescaped runs are
/// copied whole, each unsafe character becomes its entity.
#[verifier::loop_isolation(false)]
fn escape_attribute_text(s: &String) -> (r: String)
    ensures
        r@ == escape_text(s@),
{
    let n = s.as_str().unicode_len();
    let mut out = String::new();
    let mut start: usize = 0;
    let mut i: usize = 0;
    proof {
        assert(escape_text(s@.take(0)) =~= Seq::<char>::empty());
    }
    while i < n
        invariant
            start <= i <= n,
            out@ == escape_text(s@.take(start as int)),
            forall|k: int| start <= k < i ==> !needs_escape(#[trigger] s@[k]),
        decreases n - i,
    {
        let c = s.as_str().get_char(i);
        if char_needs_escape(c) {
            let run = s.as_str().substring_char(start, i);
            out.append(run);
            proof {
                lemma_escape_text_app(s@.take(start as int), s@.subrange(start as int, i as int));
                lemma_escape_text_plain(s@.subrange(start as int, i as int));
                assert(s@.take(i as int) =~= s@.take(start as int) + s@.subrange(
                    start as int,
                    i as int,
                ));
                assert(out@ == escape_text(s@.take(i as int)));
            }
            let entity = entity_text(c);
            out.append(entity);
            proof {
                lemma_escape_text_app(s@.take(i as int), seq![s@[i as int]]);
                assert(seq![s@[i as int]].drop_first() =~= Seq::<char>::empty());
                assert(escape_text(Seq::<char>::empty()) =~= Seq::<char>::empty());
                assert(escape_char(s@[i as int]) + Seq::<char>::empty() =~= escape_char(
                    s@[i as int],
                ));
                assert(escape_text(seq![s@[i as int]]) =~= escape_char(s@[i as int]));
                assert(s@.take(i + 1) =~= s@.take(i as int) + seq![s@[i as int]]);
            }
            start = i + 1;
        }
        i += 1;
    }
    let run = s.as_str().substring_char(start, n);
    out.append(run);
    proof {
        lemma_escape_text_app(s@.take(start as int), s@.subrange(start as int, n as int));
        lemma_escape_text_plain(s@.subrange(start as int, n as int));
        assert(s@.take(start as int) + s@.subrange(start as int, n as int) =~= s@);
    }
    out
}

fn check_tag_name(name: &String) -> (r: bool)
    ensures
        r == valid_tag_name(name@),
{
    let n = name.as_str().unicode_len();
    let mut i: usize = 0;
    while i < n
        invariant
            i <= n,
            n == name@.len(),
            forall|j: int| 0 <= j < i ==> is_tag_name_char(#[trigger] name@[j]),
        decreases n - i,
    {
        let c = name.as_str().get_char(i);
        let u: u32 = c as u32;
        if !((48 <= u && u <= 57) || (65 <= u && u <= 90) || (97 <= u && u <= 122)) {
            return false;
        }
        i += 1;
    }
    true
}

fn check_attr_key(key: &String) -> (r: bool)
    ensures
        r == valid_attr_key(key@),
{
    let n = key.as_str().unicode_len();
    let mut i: usize = 0;
    while i < n
        invariant
            i <= n,
            n == key@.len(),
            forall|j: int| 0 <= j < i ==> is_attr_key_char(#[trigger] key@[j]),
        decreases n - i,
    {
        let c = key.as_str().get_char(i);
        let u: u32 = c as u32;
        if c == ' ' || c == '"' || c == '\'' || c == '>' || c == '/' || c == '=' || (0xFDD0 <= u
            && u <= 0xFDEF) || u % 0x10000 == 0xFFFE || u % 0x10000 == 0xFFFF {
            return false;
        }
        i += 1;
    }
    true
}

fn attr_value_string(a: &AttributeValue) -> (r: String)
    ensures
        r@ == attr_value_text(attr_value_view(*a)),
{
    match a {
        AttributeValue::String(s) => escape_attribute_text(s),
        AttributeValue::Number(t) => t.clone(),
        AttributeValue::Bool(b) => {
            if *b {
                let r = "true".to_owned();
                proof {
                    reveal_strlit("true");
                    assert(r@ =~= bool_text(true));
                }
                r
            } else {
                let r = "false".to_owned();
                proof {
                    reveal_strlit("false");
                    assert(r@ =~= bool_text(false));
                }
                r
            }
        },
        AttributeValue::Null => {
            let r = "null".to_owned();
            proof {
                reveal_strlit("null");
                assert(r@ =~= null_text());
            }
            r
        },
    }
}

/// Render a markup tree as HTML text.
///
/// A text leaf is emitted verbatim; a tag is emitted as
/// `<name attrs>children</name>` once its name and attribute keys pass
/// HTML's lexical rules, and the first violation in document order is the
/// error.
#[verifier::loop_isolation(false)]
pub fn render(e: &Element) -> (r: Result<String, RenderError>)
    ensures
        rendered_view(r) == render_element(element_view(*e)),
    decreases *e,
{
    match e {
        Element::String(s) => Ok(s.clone()),
        Element::Tag(t) => {
            let ghost tv = tag_view(*t);
            if !check_tag_name(&t.name) {
                return Err(RenderError::InvalidTagName);
            }
            let mut out = String::new();
            out.append("<");
            out.append(t.name.as_str());
            proof {
                reveal_strlit("<");
                assert(out@ =~= seq!['<'] + tv.name);
                lemma_attrs_view_len(t.attributes@);
            }
            let ghost open_head = seq!['<'] + tv.name;
            let mut i: usize = 0;
            proof {
                assert(tv.attributes.take(0) =~= Seq::<(Seq<char>, AttrValueView)>::empty());
                assert(out@ =~= open_head + render_attrs(tv.attributes.take(0))->Ok_0);
            }
            while i < t.attributes.len()
                invariant
                    i <= t.attributes.len(),
                    render_attrs(tv.attributes.take(i as int)) is Ok,
                    out@ == open_head + render_attrs(tv.attributes.take(i as int))->Ok_0,
                decreases t.attributes.len() - i,
            {
                let ghost done = tv.attributes.take(i as int);
                proof {
                    assert(tv.attributes =~= done + tv.attributes.subrange(
                        i as int,
                        tv.attributes.len() as int,
                    ));
                    lemma_render_attrs_app(
                        done,
                        tv.attributes.subrange(i as int, tv.attributes.len() as int),
                    );
                    assert(tv.attributes.subrange(i as int, tv.attributes.len() as int)[0]
                        == tv.attributes[i as int]);
                }
                if !check_attr_key(&t.attributes[i].0) {
                    return Err(RenderError::InvalidAttributeName);
                }
                let value = attr_value_string(&t.attributes[i].1);
                out.append(" ");
                out.append(t.attributes[i].0.as_str());
                out.append("=\"");
                out.append(value.as_str());
                out.append("\"");
                proof {
                    reveal_strlit(" ");
                    reveal_strlit("=\"");
                    reveal_strlit("\"");
                    lemma_render_attrs_app(done, seq![tv.attributes[i as int]]);
                    assert(seq![tv.attributes[i as int]].drop_first() =~= Seq::<
                        (Seq<char>, AttrValueView),
                    >::empty());
                    assert(tv.attributes.take(i + 1) =~= done + seq![tv.attributes[i as int]]);
                    assert(render_attrs(seq![tv.attributes[i as int]]) == Ok::<
                        Seq<char>,
                        RenderError,
                    >(attr_text(tv.attributes[i as int]) + Seq::<char>::empty()));
                    assert(out@ =~= open_head + render_attrs(tv.attributes.take(i + 1))->Ok_0);
                }
                i += 1;
            }
            proof {
                assert(tv.attributes.take(i as int) =~= tv.attributes);
            }
            out.append(">");
            proof {
                reveal_strlit(">");
                lemma_elements_view_len(t.element_list@);
                assert(tv.children.take(0) =~= Seq::<ElementView>::empty());
                assert(out@ =~= open_head + render_attrs(tv.attributes)->Ok_0 + seq!['>']
                    + render_children(tv.children.take(0))->Ok_0);
            }
            let ghost head = open_head + render_attrs(tv.attributes)->Ok_0 + seq!['>'];
            let mut j: usize = 0;
            while j < t.element_list.len()
                invariant
                    j <= t.element_list.len(),
                    render_children(tv.children.take(j as int)) is Ok,
                    out@ == head + render_children(tv.children.take(j as int))->Ok_0,
                decreases t.element_list.len() - j,
            {
                let ghost done = tv.children.take(j as int);
                proof {
                    assert(decreases_to!(*e => t.element_list@[j as int]));
                    assert(tv.children =~= done + tv.children.subrange(
                        j as int,
                        tv.children.len() as int,
                    ));
                    lemma_render_children_app(
                        done,
                        tv.children.subrange(j as int, tv.children.len() as int),
                    );
                    assert(tv.children.subrange(j as int, tv.children.len() as int)[0]
                        == tv.children[j as int]);
                }
                let piece = match render(&t.element_list[j]) {
                    Ok(p) => p,
                    Err(er) => {
                        return Err(er);
                    },
                };
                out.append(piece.as_str());
                proof {
                    lemma_render_children_app(done, seq![tv.children[j as int]]);
                    assert(seq![tv.children[j as int]].drop_first() =~= Seq::<
                        ElementView,
                    >::empty());
                    assert(tv.children.take(j + 1) =~= done + seq![tv.children[j as int]]);
                    assert(render_children(seq![tv.children[j as int]]) == Ok::<
                        Seq<char>,
                        RenderError,
                    >(render_element(tv.children[j as int])->Ok_0 + Seq::<char>::empty()));
                    assert(out@ =~= head + render_children(tv.children.take(j + 1))->Ok_0);
                }
                j += 1;
            }
            proof {
                assert(tv.children.take(j as int) =~= tv.children);
            }
            out.append("</");
            out.append(t.name.as_str());
            out.append(">");
            proof {
                reveal_strlit("</");
                reveal_strlit(">");
                assert(out@ =~= render_element(element_view(*e))->Ok_0);
            }
            Ok(out)
        },
    }
}

} // verus!
