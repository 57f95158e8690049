use html_parser::dom::{Dom, DomVariant};
use html_parser::element::{Attributes, Element, ElementVariant};
use html_parser::error::Error;
use html_parser::event::{Event, Rule, Span};
use html_parser::node::Node;

fn ev(rule: Rule, text: &str, inner: Vec<Event>) -> Event {
    Event { rule, span: Span { start: 0, end: text.len() }, text: text.to_string(), inner }
}

fn leaf(rule: Rule, text: &str) -> Event {
    ev(rule, text, vec![])
}

fn attr(key: &str, value: Option<&str>) -> Event {
    let mut inner = vec![leaf(Rule::AttrKey, key)];
    if let Some(v) = value {
        inner.push(leaf(Rule::AttrValue, v));
    }
    ev(Rule::Attr, key, inner)
}

fn element(name: &str, mut body: Vec<Event>, closed: bool) -> Event {
    let mut inner = vec![leaf(Rule::ElName, name)];
    inner.append(&mut body);
    if closed {
        inner.push(leaf(Rule::ElNormalEnd, name));
    }
    ev(Rule::NodeElement, name, inner)
}

fn eoi() -> Event {
    leaf(Rule::Eoi, "")
}

fn as_element(n: &Node) -> &Element {
    match n {
        Node::Element(e) => e,
        _ => panic!("not an element"),
    }
}

fn err_text(r: Result<Dom, Error>) -> String {
    match r {
        Err(e) => e.message(),
        Ok(_) => panic!("expected a failure"),
    }
}

#[test]
fn empty_input_is_empty() {
    let dom = Dom::parse(&vec![]).unwrap();
    assert_eq!(dom.tree_type, DomVariant::Empty);
    assert!(dom.children.is_empty());
    let dom = Dom::parse(&vec![eoi()]).unwrap();
    assert_eq!(dom.tree_type, DomVariant::Empty);
    assert!(dom.children.is_empty());
    assert!(dom.errors.is_empty());
}

#[test]
fn doctype_alone_is_empty() {
    let dom = Dom::parse(&vec![leaf(Rule::Doctype, "<!doctype html>"), eoi()]).unwrap();
    assert_eq!(dom.tree_type, DomVariant::Empty);
    assert!(dom.children.is_empty());
}

#[test]
fn uppercase_html_root_is_document() {
    let dom = Dom::parse(&vec![element("HTML", vec![], true), eoi()]).unwrap();
    assert_eq!(dom.tree_type, DomVariant::Document);
    assert_eq!(as_element(&dom.children[0]).name, "HTML");
}

#[test]
fn doctype_and_html_is_document() {
    let events = vec![leaf(Rule::Doctype, "<!DOCTYPE html>"), element("html", vec![], true), eoi()];
    let dom = Dom::parse(&events).unwrap();
    assert_eq!(dom.tree_type, DomVariant::Document);
}

#[test]
fn single_other_root_is_fragment() {
    let events = vec![leaf(Rule::Doctype, "<!DOCTYPE html>"), element("div", vec![], true), eoi()];
    let dom = Dom::parse(&events).unwrap();
    assert_eq!(dom.tree_type, DomVariant::DocumentFragment);
    let dom = Dom::parse(&vec![leaf(Rule::NodeText, "just text")]).unwrap();
    assert_eq!(dom.tree_type, DomVariant::DocumentFragment);
}

#[test]
fn two_plain_roots_are_fragment() {
    let events = vec![element("div", vec![], true), element("p", vec![], true), eoi()];
    let dom = Dom::parse(&events).unwrap();
    assert_eq!(dom.tree_type, DomVariant::DocumentFragment);
    assert_eq!(dom.children.len(), 2);
}

#[test]
fn body_among_roots_fails() {
    let events = vec![element("div", vec![], true), element("Body", vec![], true), eoi()];
    assert_eq!(err_text(Dom::parse(&events)), "A document fragment should not include body");
}

#[test]
fn head_and_html_among_roots_fail() {
    let events = vec![leaf(Rule::NodeText, "x"), element("HEAD", vec![], true)];
    assert_eq!(err_text(Dom::parse(&events)), "A document fragment should not include head");
    let events = vec![element("html", vec![], true), element("html", vec![], true)];
    assert_eq!(err_text(Dom::parse(&events)), "A document fragment should not include html");
}

#[test]
fn classes_accumulate_and_later_id_wins() {
    let body = vec![
        attr("class", Some("a  b")),
        attr("class", Some("c")),
        attr("id", Some("x")),
        attr("id", Some("y")),
    ];
    let dom = Dom::parse(&vec![element("div", body, true)]).unwrap();
    let el = as_element(&dom.children[0]);
    assert_eq!(el.classes, vec!["a".to_string(), "b".to_string(), "c".to_string()]);
    assert_eq!(el.id, Some("y".to_string()));
    assert!(el.attributes.is_empty());
}

#[test]
fn valueless_and_empty_class_add_nothing() {
    let body = vec![attr("class", None), attr("class", Some("")), attr("class", Some("   "))];
    let dom = Dom::parse(&vec![element("div", body, true)]).unwrap();
    assert!(as_element(&dom.children[0]).classes.is_empty());
}

#[test]
fn generic_attributes_overwrite() {
    let body = vec![attr("href", Some("a")), attr("disabled", None), attr("href", Some("b"))];
    let dom = Dom::parse(&vec![element("a", body, true)]).unwrap();
    let el = as_element(&dom.children[0]);
    assert_eq!(el.attributes.get("href"), Some(Some("b".to_string())));
    assert_eq!(el.attributes.get("disabled"), Some(None));
    assert_eq!(el.attributes.get("id"), None);
    assert!(!el.attributes.is_empty());
}

#[test]
fn void_elements_have_no_children() {
    let meta = ev(Rule::NodeElement, "<meta>", vec![leaf(Rule::ElVoidName, "meta")]);
    let meta_xml = ev(
        Rule::NodeElement,
        "<meta/>",
        vec![leaf(Rule::ElVoidName, "meta"), leaf(Rule::ElDangling, "/>")],
    );
    let events = vec![meta, leaf(Rule::NodeText, "after"), meta_xml, leaf(Rule::NodeText, "more"), eoi()];
    let dom = Dom::parse(&events).unwrap();
    assert_eq!(dom.children.len(), 4);
    for i in [0, 2] {
        let el = as_element(&dom.children[i]);
        assert_eq!(el.variant, ElementVariant::Void);
        assert!(el.children.is_empty());
    }
    assert!(matches!(&dom.children[1], Node::Text(t) if t == "after"));
}

#[test]
fn preorder_visits_parent_then_children() {
    let a = element("a", vec![element("b", vec![], true), element("c", vec![], true)], true);
    let dom = Dom::parse(&vec![a]).unwrap();
    let names: Vec<String> = dom.children[0]
        .preorder()
        .iter()
        .map(|n| as_element(n).name.clone())
        .collect();
    assert_eq!(names, vec!["a", "b", "c"]);
}

#[test]
fn preorder_of_a_leaf_is_the_leaf() {
    let leaf_node = Node::Text("hi".to_string());
    let walk = leaf_node.preorder();
    assert_eq!(walk.len(), 1);
    assert!(matches!(walk[0], Node::Text(t) if t == "hi"));
}

#[test]
fn iterator_walks_deep_trees_in_document_order() {
    let inner = element("i", vec![leaf(Rule::NodeText, "t")], true);
    let b = element("b", vec![inner], true);
    let a = element("a", vec![b, element("c", vec![], true)], true);
    let dom = Dom::parse(&vec![a]).unwrap();
    let mut it = dom.children[0].into_iter();
    let mut seen = vec![];
    while let Some(n) = it.next() {
        seen.push(match n {
            Node::Element(e) => e.name.clone(),
            Node::Text(t) => format!("text:{}", t),
            Node::Comment(c) => format!("comment:{}", c),
        });
    }
    assert_eq!(seen, vec!["a", "b", "i", "text:t", "c"]);
    assert!(it.next().is_none());
}

#[test]
fn div_round_trip() {
    let body = vec![attr("id", Some("x")), attr("class", Some("a b")), leaf(Rule::NodeText, "hi")];
    let dom = Dom::parse(&vec![element("div", body, true), eoi()]).unwrap();
    assert!(dom.errors.is_empty());
    assert_eq!(dom.children.len(), 1);
    let el = as_element(&dom.children[0]);
    assert_eq!(el.name, "div");
    assert_eq!(el.id, Some("x".to_string()));
    assert_eq!(el.classes, vec!["a".to_string(), "b".to_string()]);
    assert_eq!(el.variant, ElementVariant::Normal);
    assert_eq!(el.children.len(), 1);
    assert!(matches!(&el.children[0], Node::Text(t) if t == "hi"));
    assert!(el.attributes.is_empty());
}

#[test]
fn bad_attribute_is_dropped_and_reported() {
    let bad = ev(
        Rule::Attr,
        "title='x'",
        vec![leaf(Rule::AttrKey, "title"), leaf(Rule::AttrQuoted, "'x'")],
    );
    let body = vec![attr("href", Some("/")), bad, attr("rel", Some("me"))];
    let dom = Dom::parse(&vec![element("a", body, true)]).unwrap();
    assert_eq!(dom.errors, vec!["Failed to create attribute at rule: attr_quoted".to_string()]);
    let el = as_element(&dom.children[0]);
    assert_eq!(el.attributes.get("href"), Some(Some("/".to_string())));
    assert_eq!(el.attributes.get("rel"), Some(Some("me".to_string())));
    assert_eq!(el.attributes.get("title"), None);
}

#[test]
fn bad_nested_element_is_dropped_and_reported() {
    let bad = ev(Rule::NodeElement, "<x>", vec![leaf(Rule::ElName, "x"), leaf(Rule::Doctype, "!")]);
    let empty = ev(Rule::NodeElement, "", vec![]);
    let body = vec![bad, empty, element("ok", vec![], true)];
    let dom = Dom::parse(&vec![element("div", body, true)]).unwrap();
    assert_eq!(
        dom.errors,
        vec!["Failed to create element at rule: doctype".to_string(), "Failed to create element".to_string()]
    );
    let el = as_element(&dom.children[0]);
    assert_eq!(el.children.len(), 1);
    assert_eq!(as_element(&el.children[0]).name, "ok");
}

#[test]
fn nameless_element_is_dropped_silently() {
    let nameless = ev(Rule::NodeElement, "x", vec![leaf(Rule::NodeText, "x")]);
    let dom = Dom::parse(&vec![nameless, eoi()]).unwrap();
    assert_eq!(dom.tree_type, DomVariant::Empty);
    assert!(dom.errors.is_empty());
}

#[test]
fn events_after_close_are_ignored() {
    let mut e = element("p", vec![leaf(Rule::NodeText, "a")], true);
    e.inner.push(leaf(Rule::NodeText, "ignored"));
    e.inner.push(leaf(Rule::Doctype, "ignored too"));
    let dom = Dom::parse(&vec![e]).unwrap();
    assert!(dom.errors.is_empty());
    assert_eq!(as_element(&dom.children[0]).children.len(), 1);
}

#[test]
fn events_after_end_of_input_are_ignored() {
    let events = vec![element("p", vec![], true), eoi(), element("body", vec![], true)];
    let dom = Dom::parse(&events).unwrap();
    assert_eq!(dom.tree_type, DomVariant::DocumentFragment);
    assert_eq!(dom.children.len(), 1);
}

#[test]
fn raw_text_content_is_kept_verbatim() {
    let script = ev(
        Rule::ElRawText,
        "<script>",
        vec![
            leaf(Rule::ElRawTextName, "script"),
            leaf(Rule::ElRawTextContent, " if (a < b) {} "),
            leaf(Rule::ElRawTextEnd, "</script>"),
        ],
    );
    let dom = Dom::parse(&vec![element("body", vec![script], true)]).unwrap();
    let body = as_element(&dom.children[0]);
    let s = as_element(&body.children[0]);
    assert_eq!(s.name, "script");
    assert_eq!(s.variant, ElementVariant::Normal);
    assert!(matches!(&s.children[0], Node::Text(t) if t == " if (a < b) {} "));
}

#[test]
fn element_span_is_first_event_span() {
    let mut name = leaf(Rule::ElName, "div");
    name.span = Span { start: 3, end: 6 };
    let e = ev(Rule::NodeElement, "<div>", vec![name]);
    let dom = Dom::parse(&vec![e]).unwrap();
    assert_eq!(as_element(&dom.children[0]).span, Some(Span { start: 3, end: 6 }));
}

#[test]
fn element_default_is_empty_void() {
    let e = Element::default();
    assert_eq!(e.name, "");
    assert_eq!(e.variant, ElementVariant::Void);
    assert!(e.id.is_none() && e.classes.is_empty() && e.children.is_empty() && e.span.is_none());
    assert!(e.attributes.is_empty());
}

#[test]
fn attributes_insert_and_get() {
    let mut a = Attributes::new();
    assert!(a.is_empty());
    a.insert("k".to_string(), Some("1".to_string()));
    a.insert("k".to_string(), None);
    assert_eq!(a.get("k"), Some(None));
    assert!(a.contains_key("k"));
    assert!(!a.contains_key("j"));
}

#[test]
fn error_message_and_rule_names() {
    assert_eq!(Error::Parsing("p".to_string()).message(), "p");
    assert_eq!(Error::Cli("c".to_string()).message(), "c");
    assert_eq!(Rule::ElNormalEnd.name(), "el_normal_end");
    assert_eq!(Rule::Eoi.name(), "EOI");
}

#[test]
fn dom_default_is_empty() {
    let d = Dom::default();
    assert_eq!(d.tree_type, DomVariant::Empty);
    assert!(d.children.is_empty() && d.errors.is_empty());
}
