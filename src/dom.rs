use crate::element::{empty_element, opt_view, strings_view, Element, ElementV, ElementVariant};
use crate::error::Error;
use crate::event::{Event, Rule, Span};
use crate::node::{lemma_view_nodes_index, lemma_view_nodes_len, lemma_view_nodes_push, view_nodes, Node, NodeV};
use crate::text::{lower_of, lowercase, split_whitespace, split_whitespace_of};
use vstd::prelude::*;
use vstd::string::*;

verus! {

broadcast use vstd::std_specs::vec::group_vec_axioms;

/// Document, DocumentFragment or Empty.
#[derive(Debug, Clone, Copy, PartialEq, Eq, Structural)]
pub enum DomVariant {
    /// The input is an html document: one root node named `html`, with an
    /// optional doctype before it.
    Document,
    /// The input is a fragment: any root nodes but `html`, `body` or `head`.
    DocumentFragment,
    /// The input holds no node.
    Empty,
}

/// **The main struct** & the result of the parsed html.
#[derive(Debug)]
pub struct Dom {
    /// The type of the tree that was parsed.
    pub tree_type: DomVariant,
    /// All of the root children in the tree.
    pub children: Vec<Node>,
    /// A collection of all errors during parsing.
    pub errors: Vec<String>,
}

// ----- attributes -----

/// The message for an attribute that holds an unexpected event.
pub open spec fn attribute_error(r: Rule) -> Seq<char> {
    "Failed to create attribute at rule: "@ + r.spec_name()
}

/// The key and value read from the first `n` events of an attribute, or the
/// first rule that an attribute cannot hold.
pub open spec fn attribute_fold(evs: Seq<Event>, n: nat) -> Result<(Seq<char>, Option<Seq<char>>), Rule>
    decreases n,
{
    if n == 0 || n > evs.len() {
        Ok((Seq::empty(), None))
    } else {
        match attribute_fold(evs, (n - 1) as nat) {
            Err(r) => Err(r),
            Ok((k, v)) => {
                let ev = evs[n - 1];
                match ev.rule {
                    Rule::AttrKey => Ok((ev.text@, v)),
                    Rule::AttrValue | Rule::AttrNonQuoted => Ok((k, Some(ev.text@))),
                    _ => Err(ev.rule),
                }
            },
        }
    }
}

/// The key and value of an attribute, read from its events.
pub open spec fn attribute_spec(evs: Seq<Event>) -> Result<(Seq<char>, Option<Seq<char>>), Rule> {
    attribute_fold(evs, evs.len())
}

/// The element after one attribute: `id` sets the id, `class` adds the
/// whitespace-separated tokens of its value, any other key goes to the map.
pub open spec fn route_attribute(e: ElementV, k: Seq<char>, v: Option<Seq<char>>) -> ElementV {
    if k == "id"@ {
        ElementV { id: v, ..e }
    } else if k == "class"@ {
        match v {
            Some(c) => ElementV { classes: e.classes + split_whitespace_of(c), ..e },
            None => e,
        }
    } else {
        ElementV { attributes: e.attributes.insert(k, v), ..e }
    }
}

// ----- elements -----

/// The state of an element's assembly after some of its events.
pub struct ElementBuild {
    /// The element, once an event has made it exist.
    pub element: Option<ElementV>,
    /// The errors recorded so far.
    pub errors: Seq<Seq<char>>,
    /// A closing marker was seen: the remaining events are ignored.
    pub closed: bool,
    /// The first event that an element cannot hold.
    pub failed: Option<Rule>,
}

/// The message for an element that holds an unexpected event.
pub open spec fn element_error(r: Rule) -> Seq<char> {
    "Failed to create element at rule: "@ + r.spec_name()
}

/// The message for events that never made an element exist.
pub open spec fn no_element_error() -> Seq<char> {
    "Failed to create element"@
}

/// What an element's assembly yields: an element, nothing (the element never
/// got a name), or the message of its failure.
pub open spec fn element_outcome(b: ElementBuild) -> Result<Option<ElementV>, Seq<char>> {
    match b.failed {
        Some(r) => Err(element_error(r)),
        None => match b.element {
            None => Err(no_element_error()),
            Some(e) => if e.name.len() == 0 {
                Ok(None)
            } else {
                Ok(Some(e))
            },
        },
    }
}

/// The errors that one nested element adds: those of its own assembly, then
/// its failure.
pub open spec fn nested_errors(b: ElementBuild) -> Seq<Seq<char>> {
    match element_outcome(b) {
        Err(m) => b.errors.push(m),
        Ok(_) => b.errors,
    }
}

/// A list of child models with a built element appended, where there is one.
pub open spec fn push_outcome(children: Seq<NodeV>, o: Result<Option<ElementV>, Seq<char>>) -> Seq<NodeV> {
    match o {
        Ok(Some(c)) => children.push(NodeV::Element(c)),
        _ => children,
    }
}

/// The assembly of an element after its first `n` events.
pub open spec fn element_fold(evs: Seq<Event>, n: nat) -> ElementBuild
    decreases evs, n,
{
    if n == 0 || n > evs.len() {
        ElementBuild { element: None, errors: Seq::empty(), closed: false, failed: None }
    } else {
        let prev = element_fold(evs, (n - 1) as nat);
        let ev = evs[n - 1];
        let cur = match prev.element {
            Some(e) => e,
            None => empty_element(Some(ev.span)),
        };
        if prev.closed || prev.failed is Some {
            prev
        } else {
            match ev.rule {
                Rule::NodeElement | Rule::ElRawText => {
                    let sub = element_fold(ev.inner@, ev.inner@.len());
                    ElementBuild {
                        element: Some(
                            ElementV {
                                children: push_outcome(cur.children, element_outcome(sub)),
                                ..cur
                            },
                        ),
                        errors: prev.errors + nested_errors(sub),
                        ..prev
                    }
                },
                Rule::NodeText | Rule::ElRawTextContent => ElementBuild {
                    element: Some(
                        ElementV { children: cur.children.push(NodeV::Text(ev.text@)), ..cur },
                    ),
                    ..prev
                },
                Rule::ElName | Rule::ElVoidName | Rule::ElRawTextName => ElementBuild {
                    element: Some(ElementV { name: ev.text@, ..cur }),
                    ..prev
                },
                Rule::Attr => match attribute_spec(ev.inner@) {
                    Ok((k, v)) => ElementBuild { element: Some(route_attribute(cur, k, v)), ..prev },
                    Err(r) => ElementBuild {
                        element: Some(cur),
                        errors: prev.errors.push(attribute_error(r)),
                        ..prev
                    },
                },
                Rule::ElNormalEnd | Rule::ElRawTextEnd => ElementBuild {
                    element: Some(ElementV { variant: ElementVariant::Normal, ..cur }),
                    closed: true,
                    ..prev
                },
                Rule::ElDangling | Rule::Eoi => prev,
                _ => ElementBuild { failed: Some(ev.rule), ..prev },
            }
        }
    }
}

/// The assembly of an element from all of its events.
pub open spec fn element_spec(evs: Seq<Event>) -> ElementBuild {
    element_fold(evs, evs.len())
}

/// A built node agrees with an element's outcome.
pub open spec fn outcome_matches(r: Result<Option<Node>, Error>, o: Result<Option<ElementV>, Seq<char>>) -> bool {
    match o {
        Ok(Some(e)) => r matches Ok(Some(n)) && n@ == NodeV::Element(e),
        Ok(None) => r matches Ok(None),
        Err(m) => r matches Err(Error::Parsing(msg)) && msg@ == m,
    }
}

proof fn lemma_element_halted(evs: Seq<Event>, i: nat, j: nat)
    requires
        i <= j <= evs.len(),
        element_fold(evs, i).closed || element_fold(evs, i).failed is Some,
    ensures
        element_fold(evs, j) == element_fold(evs, i),
    decreases j,
{
    if j > i {
        lemma_element_halted(evs, i, (j - 1) as nat);
    }
}

/// A message made of a fixed text and the name of a rule.
fn rule_message(prefix: &str, rule: Rule) -> (r: String)
    ensures
        r@ == prefix@ + rule.spec_name(),
{
    let mut m = String::from_str(prefix);
    m.append(rule.name());
    m
}

/// Reads the key and the value of an attribute from its events; any other
/// event fails the attribute.
fn build_attribute(evs: &Vec<Event>) -> (r: Result<(String, Option<String>), Error>)
    ensures
        match attribute_spec(evs@) {
            Ok((k, v)) => r matches Ok((rk, rv)) && rk@ == k && opt_view(rv) == v,
            Err(rule) => r matches Err(Error::Parsing(m)) && m@ == attribute_error(rule),
        },
{
    let mut key = String::new();
    let mut value: Option<String> = None;
    let mut i: usize = 0;
    while i < evs.len()
        invariant
            i <= evs@.len(),
            attribute_fold(evs@, i as nat) == Ok::<(Seq<char>, Option<Seq<char>>), Rule>((key@, opt_view(value))),
        decreases evs@.len() - i,
    {
        let ev = &evs[i];
        match ev.rule {
            Rule::AttrKey => {
                key = ev.text.clone();
            },
            Rule::AttrValue | Rule::AttrNonQuoted => {
                value = Some(ev.text.clone());
            },
            _ => {
                proof {
                    lemma_attribute_failed(evs@, (i + 1) as nat, evs@.len());
                }
                return Err(Error::Parsing(rule_message("Failed to create attribute at rule: ", ev.rule)));
            },
        }
        i += 1;
    }
    Ok((key, value))
}

proof fn lemma_attribute_failed(evs: Seq<Event>, i: nat, j: nat)
    requires
        i <= j <= evs.len(),
        attribute_fold(evs, i) is Err,
    ensures
        attribute_fold(evs, j) == attribute_fold(evs, i),
    decreases j,
{
    if j > i {
        lemma_attribute_failed(evs, i, (j - 1) as nat);
    }
}

/// Routes one attribute: `id` sets the id, `class` adds the tokens of its
/// value, any other key is stored in the map.
fn add_attribute(el: &mut Element, key: String, value: Option<String>)
    ensures
        final(el)@ == route_attribute(old(el)@, key@, opt_view(value)),
{
    if key.eq(&String::from_str("id")) {
        el.id = value;
    } else if key.eq(&String::from_str("class")) {
        if let Some(v) = value {
            let tokens = split_whitespace(v.as_str());
            let ghost start = *el;
            let mut j: usize = 0;
            while j < tokens.len()
                invariant
                    j <= tokens@.len(),
                    el@ == (ElementV { classes: start@.classes + strings_view(tokens@.take(j as int)), ..start@ }),
                decreases tokens@.len() - j,
            {
                let ghost before = el.classes@;
                let t = tokens[j].clone();
                el.classes.push(t);
                proof {
                    assert(tokens@.take(j + 1) =~= tokens@.take(j as int).push(tokens@[j as int]));
                    assert(strings_view(before.push(t)) =~= strings_view(before).push(t@));
                    assert(strings_view(tokens@.take(j + 1)) =~= strings_view(tokens@.take(j as int)).push(t@));
                    assert(start@.classes + strings_view(tokens@.take(j + 1)) =~= (start@.classes + strings_view(tokens@.take(j as int))).push(t@));
                }
                j += 1;
            }
            proof {
                assert(tokens@.take(j as int) =~= tokens@);
            }
        }
    } else {
        el.attributes.insert(key, value);
    }
}

/// Takes the element under construction out of its slot, or makes a new
/// empty one that starts at `span`.
fn take_element(slot: &mut Option<Element>, span: Span) -> (r: Element)
    ensures
        r@ == match *old(slot) {
            Some(e) => e@,
            None => empty_element(Some(span)),
        },
{
    match slot.take() {
        Some(e) => e,
        None => Element::with_span(Some(span)),
    }
}

/// Assembles one element from the events between its opening and its
/// closing tag. Errors of nested elements and attributes are appended to
/// `errors` and the offending part is left out; an unexpected event fails the
/// element itself.
fn build_node_element(evs: &Vec<Event>, errors: &mut Vec<String>) -> (r: Result<Option<Node>, Error>)
    ensures
        outcome_matches(r, element_outcome(element_spec(evs@))),
        strings_view(final(errors)@) == strings_view(old(errors)@) + element_spec(evs@).errors,
    decreases evs@,
{
    let mut element: Option<Element> = None;
    let mut closed = false;
    let mut i: usize = 0;
    while i < evs.len() && !closed
        invariant
            i <= evs@.len(),
            element_fold(evs@, i as nat).failed is None,
            element_fold(evs@, i as nat).closed == closed,
            element_fold(evs@, i as nat).element == match element {
                Some(e) => Some(e@),
                None => None::<ElementV>,
            },
            strings_view(errors@) == strings_view(old(errors)@) + element_fold(evs@, i as nat).errors,
        decreases evs@.len() - i,
    {
        let ev = &evs[i];
        let ghost prev_errors = errors@;
        match ev.rule {
            Rule::NodeElement | Rule::ElRawText => {
                let mut el = take_element(&mut element, ev.span);
                let ghost sub = element_spec(ev.inner@);
                assert(decreases_to!(evs@ => evs@[i as int]));
                match build_node_element(&ev.inner, errors) {
                    Ok(Some(child)) => {
                        proof {
                            lemma_view_nodes_push(el.children@, child);
                        }
                        el.children.push(child);
                    },
                    Ok(None) => {},
                    Err(e) => {
                        let ghost mid = errors@;
                        errors.push(e.message());
                        proof {
                            assert(strings_view(errors@) =~= strings_view(mid).push(e.spec_message()));
                        }
                    },
                }
                proof {
                    assert(strings_view(errors@) =~= strings_view(prev_errors) + nested_errors(sub));
                }
                element = Some(el);
            },
            Rule::NodeText | Rule::ElRawTextContent => {
                let mut el = take_element(&mut element, ev.span);
                let t = Node::Text(ev.text.clone());
                proof {
                    lemma_view_nodes_push(el.children@, t);
                }
                el.children.push(t);
                element = Some(el);
            },
            Rule::ElName | Rule::ElVoidName | Rule::ElRawTextName => {
                let mut el = take_element(&mut element, ev.span);
                el.name = ev.text.clone();
                element = Some(el);
            },
            Rule::Attr => {
                let mut el = take_element(&mut element, ev.span);
                match build_attribute(&ev.inner) {
                    Ok((key, value)) => {
                        add_attribute(&mut el, key, value);
                    },
                    Err(e) => {
                        errors.push(e.message());
                        proof {
                            assert(strings_view(errors@) =~= strings_view(prev_errors).push(e.spec_message()));
                        }
                    },
                }
                element = Some(el);
            },
            Rule::ElNormalEnd | Rule::ElRawTextEnd => {
                let mut el = take_element(&mut element, ev.span);
                el.variant = ElementVariant::Normal;
                element = Some(el);
                closed = true;
            },
            Rule::ElDangling | Rule::Eoi => {},
            _ => {
                proof {
                    lemma_element_halted(evs@, (i + 1) as nat, evs@.len());
                }
                return Err(Error::Parsing(rule_message("Failed to create element at rule: ", ev.rule)));
            },
        }
        i += 1;
    }
    proof {
        if closed {
            lemma_element_halted(evs@, i as nat, evs@.len());
        }
    }
    match element {
        None => Err(Error::Parsing(String::from_str("Failed to create element"))),
        Some(el) => {
            if el.name.as_str().is_empty() {
                Ok(None)
            } else {
                Ok(Some(Node::Element(el)))
            }
        },
    }
}

// ----- classification -----

/// A lowercase name that a fragment may not hold at its root.
pub open spec fn forbidden_in_fragment(l: Seq<char>) -> bool {
    l == "html"@ || l == "body"@ || l == "head"@
}

/// The lowercase name of the first element among the first `n` roots whose
/// name a fragment may not hold.
pub open spec fn first_forbidden(cs: Seq<NodeV>, n: nat) -> Option<Seq<char>>
    decreases n,
{
    if n == 0 || n > cs.len() {
        None
    } else {
        match first_forbidden(cs, (n - 1) as nat) {
            Some(l) => Some(l),
            None => match cs[n - 1] {
                NodeV::Element(e) => if forbidden_in_fragment(lower_of(e.name)) {
                    Some(lower_of(e.name))
                } else {
                    None
                },
                _ => None,
            },
        }
    }
}

/// The message for a document whose single root is not `html`.
pub open spec fn document_root_error() -> Seq<char> {
    "A document can only have html as root"@
}

/// The message for a fragment that holds a root named `l`.
pub open spec fn fragment_error(l: Seq<char>) -> Seq<char> {
    "A document fragment should not include "@ + l
}

/// The kind of a tree, from the kind assumed while reading it and its root
/// nodes, or the message of why the roots cannot form a tree.
pub open spec fn classify(tentative: DomVariant, cs: Seq<NodeV>) -> Result<DomVariant, Seq<char>> {
    if cs.len() == 0 {
        Ok(DomVariant::Empty)
    } else if cs.len() == 1 {
        match cs[0] {
            NodeV::Element(e) => if lower_of(e.name) == "html"@ {
                Ok(DomVariant::Document)
            } else if tentative == DomVariant::Document {
                Err(document_root_error())
            } else {
                Ok(DomVariant::DocumentFragment)
            },
            _ => Ok(DomVariant::DocumentFragment),
        }
    } else {
        match first_forbidden(cs, cs.len()) {
            Some(l) => Err(fragment_error(l)),
            None => Ok(DomVariant::DocumentFragment),
        }
    }
}

/// Whether a text equals a literal.
fn text_is(s: &String, lit: &str) -> (r: bool)
    ensures
        r == (s@ == lit@),
{
    s.eq(&String::from_str(lit))
}

/// Decides the kind of a tree from its root nodes.
fn classify_roots(tentative: DomVariant, children: &Vec<Node>) -> (r: Result<DomVariant, Error>)
    ensures
        match classify(tentative, view_nodes(children@)) {
            Ok(t) => r == Ok::<DomVariant, Error>(t),
            Err(m) => r matches Err(Error::Parsing(msg)) && msg@ == m,
        },
{
    let ghost cs = view_nodes(children@);
    proof {
        lemma_view_nodes_len(children@);
    }
    if children.len() == 0 {
        Ok(DomVariant::Empty)
    } else if children.len() == 1 {
        proof {
            lemma_view_nodes_index(children@, 0);
        }
        match &children[0] {
            Node::Element(el) => {
                let name = lowercase(el.name.as_str());
                if text_is(&name, "html") {
                    Ok(DomVariant::Document)
                } else if tentative == DomVariant::Document {
                    Err(Error::Parsing(String::from_str("A document can only have html as root")))
                } else {
                    Ok(DomVariant::DocumentFragment)
                }
            },
            _ => Ok(DomVariant::DocumentFragment),
        }
    } else {
        let mut i: usize = 0;
        while i < children.len()
            invariant
                i <= children@.len(),
                cs == view_nodes(children@),
                cs.len() == children@.len(),
                children@.len() >= 2,
                first_forbidden(cs, i as nat) is None,
            decreases children@.len() - i,
        {
            proof {
                lemma_view_nodes_index(children@, i as int);
            }
            if let Node::Element(el) = &children[i] {
                let name = lowercase(el.name.as_str());
                if text_is(&name, "html") || text_is(&name, "body") || text_is(&name, "head") {
                    proof {
                        assert(cs[i as int] == children@[i as int]@);
                        assert(first_forbidden(cs, (i + 1) as nat) == Some(name@));
                        lemma_forbidden_found(cs, (i + 1) as nat, cs.len());
                    }
                    let mut m = String::from_str("A document fragment should not include ");
                    m.append(name.as_str());
                    return Err(Error::Parsing(m));
                }
            }
            i += 1;
        }
        Ok(DomVariant::DocumentFragment)
    }
}

proof fn lemma_forbidden_found(cs: Seq<NodeV>, i: nat, j: nat)
    requires
        i <= j <= cs.len(),
        first_forbidden(cs, i) is Some,
    ensures
        first_forbidden(cs, j) == first_forbidden(cs, i),
    decreases j,
{
    if j > i {
        lemma_forbidden_found(cs, i, (j - 1) as nat);
    }
}

// ----- the tree -----

/// The rules that may stand at the root of the events.
pub open spec fn is_root_rule(r: Rule) -> bool {
    r == Rule::Doctype || r == Rule::NodeElement || r == Rule::NodeText || r == Rule::Eoi
}

/// The state of a tree's assembly after some of its root events.
pub struct RootBuild {
    /// The root nodes built so far.
    pub children: Seq<NodeV>,
    /// The errors recorded so far.
    pub errors: Seq<Seq<char>>,
    /// The kind assumed before classification.
    pub tentative: DomVariant,
    /// The end of input was seen: the remaining events are ignored.
    pub ended: bool,
}

/// The assembly of a tree after its first `n` root events.
pub open spec fn root_fold(evs: Seq<Event>, n: nat) -> RootBuild
    decreases n,
{
    if n == 0 || n > evs.len() {
        RootBuild { children: Seq::empty(), errors: Seq::empty(), tentative: DomVariant::Empty, ended: false }
    } else {
        let prev = root_fold(evs, (n - 1) as nat);
        let ev = evs[n - 1];
        if prev.ended {
            prev
        } else {
            match ev.rule {
                Rule::Doctype => RootBuild { tentative: DomVariant::DocumentFragment, ..prev },
                Rule::NodeElement => {
                    let sub = element_spec(ev.inner@);
                    RootBuild {
                        children: push_outcome(prev.children, element_outcome(sub)),
                        errors: prev.errors + nested_errors(sub),
                        ..prev
                    }
                },
                Rule::NodeText => RootBuild { children: prev.children.push(NodeV::Text(ev.text@)), ..prev },
                Rule::Eoi => RootBuild { ended: true, ..prev },
                _ => prev,
            }
        }
    }
}

/// The assembly of a tree from all of its root events.
pub open spec fn root_spec(evs: Seq<Event>) -> RootBuild {
    root_fold(evs, evs.len())
}

/// The outcome of a whole build: the tree's kind, roots and errors, or the
/// message of why the events form no tree.
pub open spec fn dom_matches(r: Result<Dom, Error>, evs: Seq<Event>) -> bool {
    let b = root_spec(evs);
    match classify(b.tentative, b.children) {
        Ok(t) => r matches Ok(d) && d.tree_type == t && view_nodes(d.children@) == b.children
            && strings_view(d.errors@) == b.errors,
        Err(m) => r matches Err(Error::Parsing(msg)) && msg@ == m,
    }
}

proof fn lemma_root_ended(evs: Seq<Event>, i: nat, j: nat)
    requires
        i <= j <= evs.len(),
        root_fold(evs, i).ended,
    ensures
        root_fold(evs, j) == root_fold(evs, i),
    decreases j,
{
    if j > i {
        lemma_root_ended(evs, i, (j - 1) as nat);
    }
}

impl Dom {
    /// Builds the tree from the root events of a document or fragment, then
    /// classifies it. Malformed elements and attributes are left out and
    /// reported in `errors`; a tree of a forbidden shape fails the build.
    pub fn parse(events: &Vec<Event>) -> (r: Result<Dom, Error>)
        requires
            forall|i: int| 0 <= i < events@.len() ==> is_root_rule(#[trigger] events@[i].rule),
        ensures
            dom_matches(r, events@),
    {
        Self::build_dom(events)
    }

    fn build_dom(events: &Vec<Event>) -> (r: Result<Dom, Error>)
        requires
            forall|i: int| 0 <= i < events@.len() ==> is_root_rule(#[trigger] events@[i].rule),
        ensures
            dom_matches(r, events@),
    {
        let mut dom = Dom::default();
        let mut ended = false;
        let mut i: usize = 0;
        proof {
            assert(strings_view(dom.errors@) =~= Seq::<Seq<char>>::empty());
        }
        while i < events.len() && !ended
            invariant
                i <= events@.len(),
                forall|j: int| 0 <= j < events@.len() ==> is_root_rule(#[trigger] events@[j].rule),
                root_fold(events@, i as nat).ended == ended,
                root_fold(events@, i as nat).tentative == dom.tree_type,
                root_fold(events@, i as nat).children == view_nodes(dom.children@),
                root_fold(events@, i as nat).errors == strings_view(dom.errors@),
            decreases events@.len() - i,
        {
            let ev = &events[i];
            let ghost prev_errors = dom.errors@;
            match ev.rule {
                Rule::Doctype => {
                    dom.tree_type = DomVariant::DocumentFragment;
                },
                Rule::NodeElement => {
                    let ghost sub = element_spec(ev.inner@);
                    match build_node_element(&ev.inner, &mut dom.errors) {
                        Ok(Some(node)) => {
                            proof {
                                lemma_view_nodes_push(dom.children@, node);
                            }
                            dom.children.push(node);
                        },
                        Ok(None) => {},
                        Err(e) => {
                            let ghost mid = dom.errors@;
                            dom.errors.push(e.message());
                            proof {
                                assert(strings_view(dom.errors@) =~= strings_view(mid).push(e.spec_message()));
                            }
                        },
                    }
                    proof {
                        assert(strings_view(dom.errors@) =~= strings_view(prev_errors) + nested_errors(sub));
                    }
                },
                Rule::NodeText => {
                    let t = Node::Text(ev.text.clone());
                    proof {
                        lemma_view_nodes_push(dom.children@, t);
                    }
                    dom.children.push(t);
                },
                _ => {
                    ended = true;
                },
            }
            i += 1;
        }
        proof {
            if ended {
                lemma_root_ended(events@, i as nat, events@.len());
            }
        }
        match classify_roots(dom.tree_type, &dom.children) {
            Ok(t) => {
                dom.tree_type = t;
                Ok(dom)
            },
            Err(e) => Err(e),
        }
    }
}

impl Default for Dom {
    fn default() -> (r: Dom)
        ensures
            r.tree_type == DomVariant::Empty,
            r.children@.len() == 0,
            r.errors@.len() == 0,
    {
        Dom { tree_type: DomVariant::Empty, children: Vec::new(), errors: Vec::new() }
    }
}

// ----- properties of the build -----

/// Events that yield no root node give an empty tree with no children.
pub proof fn lemma_no_roots_is_empty(evs: Seq<Event>, r: Result<Dom, Error>)
    requires
        dom_matches(r, evs),
        root_spec(evs).children.len() == 0,
    ensures
        r matches Ok(d) && d.tree_type == DomVariant::Empty && d.children@.len() == 0,
{
    if let Ok(d) = r {
        lemma_view_nodes_len(d.children@);
    }
}

/// A single root element whose name is `html` in any case makes a document.
pub proof fn lemma_html_root_is_document(evs: Seq<Event>, r: Result<Dom, Error>)
    requires
        dom_matches(r, evs),
        root_spec(evs).children.len() == 1,
        root_spec(evs).children[0] matches NodeV::Element(e) && lower_of(e.name) == "html"@,
    ensures
        r matches Ok(d) && d.tree_type == DomVariant::Document,
{
}

proof fn lemma_first_forbidden_none(cs: Seq<NodeV>, n: nat)
    requires
        n <= cs.len(),
        forall|i: int| 0 <= i < cs.len() ==> !(#[trigger] cs[i] matches NodeV::Element(e) && forbidden_in_fragment(lower_of(e.name))),
    ensures
        first_forbidden(cs, n) is None,
    decreases n,
{
    if n > 0 {
        lemma_first_forbidden_none(cs, (n - 1) as nat);
        assert(!(cs[n - 1] matches NodeV::Element(e) && forbidden_in_fragment(lower_of(e.name))));
    }
}

proof fn lemma_first_forbidden_some(cs: Seq<NodeV>, n: nat, i: int)
    requires
        0 <= i < n <= cs.len(),
        cs[i] matches NodeV::Element(e) && forbidden_in_fragment(lower_of(e.name)),
    ensures
        first_forbidden(cs, n) is Some,
    decreases n,
{
    if i < n - 1 {
        lemma_first_forbidden_some(cs, (n - 1) as nat, i);
    }
}

/// Two or more roots, none an element named `html`, `body` or `head` in any
/// case, make a fragment.
pub proof fn lemma_plain_roots_are_fragment(evs: Seq<Event>, r: Result<Dom, Error>)
    requires
        dom_matches(r, evs),
        root_spec(evs).children.len() >= 2,
        forall|i: int|
            0 <= i < root_spec(evs).children.len() ==> !(#[trigger] root_spec(evs).children[i] matches NodeV::Element(e)
                && forbidden_in_fragment(lower_of(e.name))),
    ensures
        r matches Ok(d) && d.tree_type == DomVariant::DocumentFragment,
{
    let cs = root_spec(evs).children;
    lemma_first_forbidden_none(cs, cs.len());
}

/// Two or more roots of which one is an element named `body` in any case fail
/// the build.
pub proof fn lemma_body_among_roots_fails(evs: Seq<Event>, r: Result<Dom, Error>, i: int)
    requires
        dom_matches(r, evs),
        root_spec(evs).children.len() >= 2,
        0 <= i < root_spec(evs).children.len(),
        root_spec(evs).children[i] matches NodeV::Element(e) && lower_of(e.name) == "body"@,
    ensures
        r matches Err(Error::Parsing(_)),
{
    let cs = root_spec(evs).children;
    lemma_first_forbidden_some(cs, cs.len(), i);
}

/// Of two `id` attributes on one element the later one is kept, and nothing
/// else changes.
pub proof fn lemma_later_id_wins(e: ElementV, x: Option<Seq<char>>, y: Option<Seq<char>>)
    ensures
        route_attribute(route_attribute(e, "id"@, x), "id"@, y) == (ElementV { id: y, ..e }),
{
}

/// The tokens of successive `class` attributes are all kept, in order.
pub proof fn lemma_classes_accumulate(e: ElementV, a: Seq<char>, c: Seq<char>)
    ensures
        route_attribute(route_attribute(e, "class"@, Some(a)), "class"@, Some(c)).classes
            == e.classes + split_whitespace_of(a) + split_whitespace_of(c),
{
    reveal_strlit("id");
    reveal_strlit("class");
    assert("id"@.len() != "class"@.len());
}

/// An attribute that holds an unexpected event is dropped and reported: the
/// element stays as it was, one message is appended.
pub proof fn lemma_bad_attribute_dropped(evs: Seq<Event>, n: nat, rule: Rule)
    requires
        n < evs.len(),
        !element_fold(evs, n).closed,
        element_fold(evs, n).failed is None,
        evs[n as int].rule == Rule::Attr,
        attribute_spec(evs[n as int].inner@) == Err::<(Seq<char>, Option<Seq<char>>), Rule>(rule),
    ensures
        element_fold(evs, n + 1).errors == element_fold(evs, n).errors.push(attribute_error(rule)),
        element_fold(evs, n + 1).element == Some(
            match element_fold(evs, n).element {
                Some(e) => e,
                None => empty_element(Some(evs[n as int].span)),
            },
        ),
{
}

// ----- the shape of a finished tree -----

/// An element keeps `id` and `class` out of its attribute map.
pub open spec fn attributes_sound(e: ElementV) -> bool {
    !e.attributes.contains_key("id"@) && !e.attributes.contains_key("class"@)
}

/// The first `k` trees of a forest are sound: every element in them has a
/// name and keeps `id` and `class` out of its attribute map.
pub open spec fn nodes_sound(cs: Seq<NodeV>, k: nat) -> bool
    decreases cs, k,
{
    if k == 0 || k > cs.len() {
        true
    } else {
        nodes_sound(cs, (k - 1) as nat) && match cs[k - 1] {
            NodeV::Element(e) => e.name.len() > 0 && attributes_sound(e) && nodes_sound(e.children, e.children.len()),
            _ => true,
        }
    }
}

/// Every tree of a forest is sound.
pub open spec fn forest_sound(cs: Seq<NodeV>) -> bool {
    nodes_sound(cs, cs.len())
}

/// An element under construction is sound but for its name.
pub open spec fn fields_sound(e: ElementV) -> bool {
    attributes_sound(e) && forest_sound(e.children)
}

proof fn lemma_nodes_sound_push(cs: Seq<NodeV>, x: NodeV, k: nat)
    requires
        k <= cs.len(),
    ensures
        nodes_sound(cs.push(x), k) == nodes_sound(cs, k),
    decreases k,
{
    if k > 0 {
        lemma_nodes_sound_push(cs, x, (k - 1) as nat);
        assert(cs.push(x)[k - 1] == cs[k - 1]);
    }
}

proof fn lemma_forest_sound_push(cs: Seq<NodeV>, x: NodeV)
    requires
        forest_sound(cs),
        x matches NodeV::Element(e) ==> e.name.len() > 0 && fields_sound(e),
    ensures
        forest_sound(cs.push(x)),
{
    lemma_nodes_sound_push(cs, x, cs.len());
    assert(cs.push(x)[cs.len() as int] == x);
}

proof fn lemma_push_outcome_sound(cs: Seq<NodeV>, b: ElementBuild)
    requires
        forest_sound(cs),
        b.element matches Some(e) ==> fields_sound(e),
    ensures
        forest_sound(push_outcome(cs, element_outcome(b))),
{
    if let Ok(Some(c)) = element_outcome(b) {
        lemma_forest_sound_push(cs, NodeV::Element(c));
    }
}

proof fn lemma_element_fold_sound(evs: Seq<Event>, n: nat)
    ensures
        element_fold(evs, n).element matches Some(e) ==> fields_sound(e),
    decreases evs, n,
{
    if n > 0 && n <= evs.len() {
        lemma_element_fold_sound(evs, (n - 1) as nat);
        let prev = element_fold(evs, (n - 1) as nat);
        let ev = evs[n - 1];
        let cur = match prev.element {
            Some(e) => e,
            None => empty_element(Some(ev.span)),
        };
        assert(fields_sound(cur));
        if !(prev.closed || prev.failed is Some) {
            match ev.rule {
                Rule::NodeElement | Rule::ElRawText => {
                    lemma_element_fold_sound(ev.inner@, ev.inner@.len());
                    lemma_push_outcome_sound(cur.children, element_fold(ev.inner@, ev.inner@.len()));
                },
                Rule::NodeText | Rule::ElRawTextContent => {
                    lemma_forest_sound_push(cur.children, NodeV::Text(ev.text@));
                },
                _ => {},
            }
        }
    }
}

proof fn lemma_root_fold_sound(evs: Seq<Event>, n: nat)
    ensures
        forest_sound(root_fold(evs, n).children),
    decreases n,
{
    if n > 0 && n <= evs.len() {
        lemma_root_fold_sound(evs, (n - 1) as nat);
        let prev = root_fold(evs, (n - 1) as nat);
        let ev = evs[n - 1];
        if !prev.ended {
            if ev.rule == Rule::NodeElement {
                lemma_element_fold_sound(ev.inner@, ev.inner@.len());
                lemma_push_outcome_sound(prev.children, element_spec(ev.inner@));
            } else if ev.rule == Rule::NodeText {
                lemma_forest_sound_push(prev.children, NodeV::Text(ev.text@));
            }
        }
    }
}

/// Every tree that a build returns is sound: each element in it has a name,
/// and `id` and `class` are never stored among its generic attributes.
pub proof fn lemma_built_tree_sound(evs: Seq<Event>, r: Result<Dom, Error>)
    requires
        dom_matches(r, evs),
    ensures
        r matches Ok(d) ==> forest_sound(view_nodes(d.children@)),
{
    lemma_root_fold_sound(evs, evs.len());
}

} // verus!
