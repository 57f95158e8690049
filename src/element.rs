use crate::event::Span;
use crate::node::{view_nodes, Node, NodeV};
use vstd::prelude::*;
use vstd::string::*;

verus! {

/// Normal: `<div></div>` or Void: `<meta/>` and `<meta>`.
#[derive(Debug, Clone, Copy, PartialEq, Eq, Structural)]
pub enum ElementVariant {
    /// A normal element can have children, ex: `<div></div>`.
    Normal,
    /// A void element can't have children, ex: `<meta />` and `<meta>`.
    Void,
}

/// The texts of a list of strings.
pub open spec fn strings_view(s: Seq<String>) -> Seq<Seq<char>> {
    s.map_values(|x: String| x@)
}

/// The text an optional string holds.
pub open spec fn opt_view(o: Option<String>) -> Option<Seq<char>> {
    match o {
        Some(s) => Some(s@),
        None => None,
    }
}

/// The map that a list of key/value entries stands for: a later entry for a
/// key overwrites an earlier one.
pub open spec fn entries_map(s: Seq<(String, Option<String>)>) -> Map<Seq<char>, Option<Seq<char>>>
    decreases s.len(),
{
    if s.len() == 0 {
        Map::empty()
    } else {
        entries_map(s.drop_last()).insert(s.last().0@, opt_view(s.last().1))
    }
}

/// The attributes of an element other than `id` and `class`: a map from key
/// to optional value, where a later value for a key overwrites an earlier one.
#[derive(Debug)]
pub struct Attributes {
    entries: Vec<(String, Option<String>)>,
}

impl Attributes {
    /// The attributes as a map from key to value.
    pub closed spec fn view(self) -> Map<Seq<char>, Option<Seq<char>>> {
        entries_map(self.entries@)
    }

    /// An empty set of attributes.
    pub fn new() -> (r: Attributes)
        ensures
            r.view() == Map::<Seq<char>, Option<Seq<char>>>::empty(),
    {
        Attributes { entries: Vec::new() }
    }

    /// Whether there is no attribute.
    pub fn is_empty(&self) -> (r: bool)
        ensures
            r == (self.view().dom() == Set::<Seq<char>>::empty()),
    {
        let r = self.entries.len() == 0;
        proof {
            let s = self.entries@;
            if s.len() > 0 {
                assert(entries_map(s).contains_key(s.last().0@));
            } else {
                assert(entries_map(s).dom() =~= Set::<Seq<char>>::empty());
            }
        }
        r
    }

    proof fn lemma_prefix(s: Seq<(String, Option<String>)>, i: int, k: Seq<char>)
        requires
            0 <= i <= s.len(),
            forall|j: int| i <= j < s.len() ==> s[j].0@ != k,
        ensures
            entries_map(s).contains_key(k) == entries_map(s.take(i)).contains_key(k),
            entries_map(s)[k] == entries_map(s.take(i))[k],
        decreases s.len(),
    {
        if i < s.len() {
            Self::lemma_prefix(s.drop_last(), i, k);
            assert(s.drop_last().take(i) =~= s.take(i));
        } else {
            assert(s.take(i) =~= s);
        }
    }

    /// The value stored under a key: `None` where the key is absent, else the
    /// key's optional value.
    pub fn get(&self, key: &str) -> (r: Option<Option<String>>)
        ensures
            match r {
                Some(v) => self.view().contains_key(key@) && opt_view(v) == self.view()[key@],
                None => !self.view().contains_key(key@),
            },
    {
        let wanted = <String as StringExecFns>::from_str(key);
        let mut i: usize = self.entries.len();
        while i > 0
            invariant
                wanted@ == key@,
                i <= self.entries@.len(),
                forall|j: int| i <= j < self.entries@.len() ==> self.entries@[j].0@ != key@,
            decreases i,
        {
            if self.entries[i - 1].0.eq(&wanted) {
                proof {
                    Self::lemma_prefix(self.entries@, i as int, key@);
                    let t = self.entries@.take(i as int);
                    assert(t.last() == self.entries@[i - 1]);
                    assert(entries_map(t) == entries_map(t.drop_last()).insert(
                        t.last().0@,
                        opt_view(t.last().1),
                    ));
                }
                let r = match &self.entries[i - 1].1 {
                    Some(v) => Some(Some(v.clone())),
                    None => Some(None),
                };
                return r;
            }
            i -= 1;
        }
        proof {
            Self::lemma_prefix(self.entries@, 0, key@);
        }
        None
    }

    /// Whether the key is present.
    pub fn contains_key(&self, key: &str) -> (r: bool)
        ensures
            r == self.view().contains_key(key@),
    {
        self.get(key).is_some()
    }

    /// Sets the value of a key; a later value for the same key overwrites the
    /// earlier one.
    pub fn insert(&mut self, key: String, value: Option<String>)
        ensures
            final(self).view() == old(self).view().insert(key@, opt_view(value)),
    {
        let ghost pre = self.entries@;
        self.entries.push((key, value));
        assert(self.entries@.drop_last() =~= pre);
    }
}

/// Most of the parsed html nodes are elements, except for text.
#[derive(Debug)]
pub struct Element {
    /// The id of the element.
    pub id: Option<String>,
    /// The name / tag of the element.
    pub name: String,
    /// Whether the element is void or not.
    pub variant: ElementVariant,
    /// All of the element's attributes, except id and class.
    pub attributes: Attributes,
    /// All of the element's classes.
    pub classes: Vec<String>,
    /// All of the element's child nodes.
    pub children: Vec<Node>,
    /// The source range where the element starts.
    pub span: Option<Span>,
}

/// The model of an element: its texts as character sequences, its attributes
/// as a map and its children as models.
pub struct ElementV {
    pub id: Option<Seq<char>>,
    pub name: Seq<char>,
    pub variant: ElementVariant,
    pub attributes: Map<Seq<char>, Option<Seq<char>>>,
    pub classes: Seq<Seq<char>>,
    pub children: Seq<NodeV>,
    pub span: Option<Span>,
}

/// The element's model, given the models of its children.
pub open spec fn element_with_children(e: Element, children: Seq<NodeV>) -> ElementV {
    ElementV {
        id: opt_view(e.id),
        name: e.name@,
        variant: e.variant,
        attributes: e.attributes.view(),
        classes: strings_view(e.classes@),
        children,
        span: e.span,
    }
}

/// The model of an element that holds nothing yet.
pub open spec fn empty_element(span: Option<Span>) -> ElementV {
    ElementV {
        id: None,
        name: Seq::empty(),
        variant: ElementVariant::Void,
        attributes: Map::empty(),
        classes: Seq::empty(),
        children: Seq::empty(),
        span,
    }
}

impl View for Element {
    type V = ElementV;

    open spec fn view(&self) -> ElementV {
        element_with_children(*self, view_nodes(self.children@))
    }
}

impl Element {
    /// An element that holds nothing yet: no name, no attributes, no children,
    /// void until a closing marker is seen.
    pub fn with_span(span: Option<Span>) -> (r: Element)
        ensures
            r@ == empty_element(span),
    {
        let r = Element {
            id: None,
            name: String::new(),
            variant: ElementVariant::Void,
            attributes: Attributes::new(),
            classes: Vec::new(),
            children: Vec::new(),
            span,
        };
        proof {
            assert(strings_view(r.classes@) =~= Seq::<Seq<char>>::empty());
            assert(view_nodes(r.children@) =~= Seq::<NodeV>::empty());
        }
        r
    }
}

impl Default for Element {
    fn default() -> (r: Element)
        ensures
            r@ == empty_element(None),
    {
        Element::with_span(None)
    }
}

} // verus!
