use crate::element::{element_with_children, Element, ElementV};
use vstd::prelude::*;

verus! {

broadcast use vstd::std_specs::vec::group_vec_axioms;

/// A node of the tree.
#[derive(Debug)]
pub enum Node {
    Text(String),
    Element(Element),
    Comment(String),
}

/// The model of a node.
pub enum NodeV {
    Text(Seq<char>),
    Element(ElementV),
    Comment(Seq<char>),
}

/// The model of one node, given the models of its children.
pub open spec fn node_with_children(n: Node, children: Seq<NodeV>) -> NodeV {
    match n {
        Node::Text(t) => NodeV::Text(t@),
        Node::Comment(t) => NodeV::Comment(t@),
        Node::Element(e) => NodeV::Element(element_with_children(e, children)),
    }
}

/// The models of the first `k` nodes of `ns`.
pub open spec fn nodes_prefix_view(ns: Seq<Node>, k: nat) -> Seq<NodeV>
    decreases ns, k,
{
    if k == 0 || k > ns.len() {
        Seq::empty()
    } else {
        let n = ns[k - 1];
        let kids = match n {
            Node::Element(e) => nodes_prefix_view(e.children@, e.children@.len()),
            _ => Seq::empty(),
        };
        nodes_prefix_view(ns, (k - 1) as nat).push(node_with_children(n, kids))
    }
}

/// The models of a sequence of nodes.
pub open spec fn view_nodes(ns: Seq<Node>) -> Seq<NodeV> {
    nodes_prefix_view(ns, ns.len())
}

proof fn lemma_prefix_push(ns: Seq<Node>, n: Node, k: nat)
    requires
        k <= ns.len(),
    ensures
        nodes_prefix_view(ns.push(n), k) == nodes_prefix_view(ns, k),
    decreases k,
{
    if k > 0 {
        lemma_prefix_push(ns, n, (k - 1) as nat);
        assert(ns.push(n)[k - 1] == ns[k - 1]);
    }
}

/// Appending a node appends its model.
pub proof fn lemma_view_nodes_push(ns: Seq<Node>, n: Node)
    ensures
        view_nodes(ns.push(n)) == view_nodes(ns).push(n@),
{
    lemma_prefix_push(ns, n, ns.len());
    assert(ns.push(n)[ns.len() as int] == n);
}

/// The number of models is the number of nodes.
pub proof fn lemma_view_nodes_len(ns: Seq<Node>)
    ensures
        view_nodes(ns).len() == ns.len(),
{
    lemma_prefix_len(ns, ns.len());
}

proof fn lemma_prefix_len(ns: Seq<Node>, k: nat)
    requires
        k <= ns.len(),
    ensures
        nodes_prefix_view(ns, k).len() == k,
        forall|i: int| 0 <= i < k ==> #[trigger] nodes_prefix_view(ns, k)[i] == ns[i]@,
    decreases k,
{
    if k > 0 {
        lemma_prefix_len(ns, (k - 1) as nat);
    }
}

/// The model at each position is the model of the node there.
pub proof fn lemma_view_nodes_index(ns: Seq<Node>, i: int)
    requires
        0 <= i < ns.len(),
    ensures
        view_nodes(ns)[i] == ns[i]@,
{
    lemma_prefix_len(ns, ns.len());
}

impl View for Node {
    type V = NodeV;

    open spec fn view(&self) -> NodeV {
        node_with_children(
            *self,
            match *self {
                Node::Element(e) => view_nodes(e.children@),
                _ => Seq::empty(),
            },
        )
    }
}

/// The children of a node's model: none unless it is an element.
pub open spec fn kids(n: NodeV) -> Seq<NodeV> {
    match n {
        NodeV::Element(e) => e.children,
        _ => Seq::empty(),
    }
}

/// The pre-order walk of the first `k` trees of a forest.
pub open spec fn preorder_prefix(cs: Seq<NodeV>, k: nat) -> Seq<NodeV>
    decreases cs, k,
{
    if k == 0 || k > cs.len() {
        Seq::empty()
    } else {
        let n = cs[k - 1];
        let below = match n {
            NodeV::Element(e) => preorder_prefix(e.children, e.children.len()),
            _ => Seq::empty(),
        };
        preorder_prefix(cs, (k - 1) as nat) + seq![n] + below
    }
}

/// The pre-order walk of a forest: each tree in turn, a node before its
/// children.
pub open spec fn forest(cs: Seq<NodeV>) -> Seq<NodeV> {
    preorder_prefix(cs, cs.len())
}

/// The pre-order walk of the tree under a node, the node first.
pub open spec fn preorder(n: NodeV) -> Seq<NodeV> {
    forest(seq![n])
}

proof fn lemma_preorder_prefix_take(cs: Seq<NodeV>, k: nat)
    requires
        k <= cs.len(),
    ensures
        preorder_prefix(cs, k) == forest(cs.take(k as int)),
    decreases k,
{
    if k > 0 {
        lemma_preorder_prefix_take(cs, (k - 1) as nat);
        let t = cs.take(k as int);
        lemma_preorder_prefix_take(t, (k - 1) as nat);
        assert(t.take(k - 1) =~= cs.take(k - 1));
        assert(t[k - 1] == cs[k - 1]);
    }
}

/// The walk of a node: the node, then the walk of its children.
pub proof fn lemma_preorder_unfold(n: NodeV)
    ensures
        preorder(n) == seq![n] + forest(kids(n)),
{
    assert(preorder_prefix(seq![n], 0) == Seq::<NodeV>::empty());
    assert(Seq::<NodeV>::empty() + seq![n] =~= seq![n]);
}

/// The walk of two forests side by side is the walk of one, then the other.
pub proof fn lemma_forest_concat(a: Seq<NodeV>, b: Seq<NodeV>)
    ensures
        forest(a + b) == forest(a) + forest(b),
    decreases b.len(),
{
    if b.len() == 0 {
        assert(a + b =~= a);
        assert(forest(a) + forest(b) =~= forest(a));
    } else {
        let ab = a + b;
        let bl = b.drop_last();
        lemma_preorder_prefix_take(ab, (ab.len() - 1) as nat);
        assert(ab.take(ab.len() - 1) =~= a + bl);
        lemma_forest_concat(a, bl);
        lemma_preorder_prefix_take(b, (b.len() - 1) as nat);
        assert(b.take(b.len() - 1) =~= bl);
        assert(ab[ab.len() - 1] == b[b.len() - 1]);
        assert(forest(ab) =~= forest(a) + forest(b));
    }
}

/// The walk of a non-empty forest: the first tree, then the rest.
pub proof fn lemma_forest_first(cs: Seq<NodeV>)
    requires
        cs.len() > 0,
    ensures
        forest(cs) == seq![cs[0]] + forest(kids(cs[0])) + forest(cs.skip(1)),
{
    assert(cs =~= seq![cs[0]] + cs.skip(1));
    lemma_forest_concat(seq![cs[0]], cs.skip(1));
    lemma_preorder_unfold(cs[0]);
}

/// The walk still owed by a stack of `(index, parent)` frames, top first: for
/// each frame, the children of the parent after the index.
pub open spec fn frames_rest(st: Seq<(usize, &Node)>) -> Seq<NodeV>
    decreases st.len(),
{
    if st.len() == 0 {
        Seq::empty()
    } else {
        let (i, p) = st.last();
        forest(kids(p@).skip(i + 1)) + frames_rest(st.drop_last())
    }
}

/// A pre-order walk over the nodes under a node, the node first, that keeps
/// its path in a stack instead of recursing.
pub struct NodeIntoIterator<'a> {
    root: &'a Node,
    started: bool,
    node: &'a Node,
    index: Vec<(usize, &'a Node)>,
}

impl<'a> NodeIntoIterator<'a> {
    /// Every frame points at a child of its parent.
    pub closed spec fn wf(&self) -> bool {
        (!self.started ==> self.index@.len() == 0 && self.node == self.root)
        && forall|j: int|
            0 <= j < self.index@.len() ==> #[trigger] self.index@[j].0 < kids(self.index@[j].1@).len()
                <= usize::MAX
    }

    /// The nodes that the walk has still to yield, in order.
    pub closed spec fn remaining(&self) -> Seq<NodeV> {
        if !self.started {
            preorder(self.root@)
        } else {
            forest(kids(self.node@)) + frames_rest(self.index@)
        }
    }

    /// The next node of the walk, or `None` once every node was yielded.
    pub fn next(&mut self) -> (r: Option<&'a Node>)
        requires
            old(self).wf(),
        ensures
            final(self).wf(),
            old(self).remaining().len() == 0 ==> r is None && final(self).remaining().len() == 0,
            old(self).remaining().len() > 0 ==> (r matches Some(n) && n@ == old(self).remaining()[0]
                && final(self).remaining() == old(self).remaining().skip(1)),
    {
        let ghost rem = self.remaining();
        if !self.started {
            self.started = true;
            proof {
                lemma_preorder_unfold(self.root@);
                assert(self.remaining() =~= rem.skip(1));
            }
            return Some(self.root);
        }
        if let Some(child) = child_at(self.node, 0) {
            proof {
                lemma_forest_first(kids(self.node@));
            }
            let ghost old_index = self.index@;
            let ghost old_node = self.node;
            self.index.push((0, self.node));
            self.node = child;
            proof {
                assert(forall|j: int| 0 <= j < old_index.len() ==> self.index@[j] == old_index[j]);
                assert(self.index@.drop_last() =~= old_index);
                assert(self.index@.last() == (0usize, old_node));
                assert(frames_rest(self.index@) == forest(kids(old_node@).skip(1)) + frames_rest(old_index));
                assert(self.remaining() =~= rem.skip(1));
            }
            return Some(child);
        }
        assert(kids(self.node@).len() == 0);
        assert(forest(kids(self.node@)) =~= Seq::<NodeV>::empty());
        assert(rem =~= frames_rest(self.index@));
        while self.index.len() > 0
            invariant
                self.started,
                self.wf(),
                rem == old(self).remaining(),
                rem == frames_rest(self.index@),
                kids(self.node@).len() == 0,
            decreases self.index@.len(),
        {
            let ghost old_stack = self.index@;
            let (i, parent) = self.index.pop().unwrap();
            let ghost below = self.index@;
            proof {
                assert(old_stack.drop_last() =~= below);
                assert(old_stack.last() == (i, parent));
                assert(rem == forest(kids(parent@).skip(i + 1)) + frames_rest(below));
            }
            if let Some(sibling) = child_at(parent, i + 1) {
                proof {
                    lemma_forest_first(kids(parent@).skip(i + 1));
                    assert(kids(parent@).skip(i + 1).skip(1) =~= kids(parent@).skip(i + 2));
                    assert(kids(parent@).skip(i + 1)[0] == kids(parent@)[i + 1]);
                }
                self.index.push((i + 1, parent));
                self.node = sibling;
                proof {
                    assert(forall|j: int| 0 <= j < below.len() ==> self.index@[j] == below[j]);
                    assert(self.index@.drop_last() =~= below);
                    assert(self.index@.last() == ((i + 1) as usize, parent));
                    assert(frames_rest(self.index@) == forest(kids(parent@).skip(i + 2)) + frames_rest(below));
                    assert(forest(kids(self.node@)) + frames_rest(self.index@) =~= rem.skip(1));
                }
                return Some(sibling);
            }
            proof {
                assert(kids(parent@).skip(i + 1) =~= Seq::<NodeV>::empty());
                assert(forest(Seq::<NodeV>::empty()) =~= Seq::<NodeV>::empty());
                assert(rem =~= frames_rest(self.index@));
            }
        }
        None
    }

    /// All the nodes still owed, in the order of the walk.
    pub fn collect_rest(&mut self) -> (r: Vec<&'a Node>)
        requires
            old(self).wf(),
        ensures
            nodes_of_refs(r@) == old(self).remaining(),
            final(self).remaining().len() == 0,
    {
        let mut out: Vec<&'a Node> = Vec::new();
        let ghost start = self.remaining();
        loop
            invariant
                self.wf(),
                start == old(self).remaining(),
                nodes_of_refs(out@) + self.remaining() == start,
            decreases self.remaining().len(),
        {
            let ghost before = self.remaining();
            match self.next() {
                Some(n) => {
                    let ghost prev = out@;
                    out.push(n);
                    proof {
                        assert(nodes_of_refs(out@) =~= nodes_of_refs(prev).push(n@));
                        assert(before =~= seq![before[0]] + before.skip(1));
                        assert(nodes_of_refs(out@) + self.remaining() =~= nodes_of_refs(prev) + before);
                    }
                },
                None => {
                    proof {
                        assert(before.len() == 0);
                        assert(nodes_of_refs(out@) + before =~= nodes_of_refs(out@));
                    }
                    return out;
                },
            }
        }
    }
}

/// The models of the nodes a list of references points at.
pub open spec fn nodes_of_refs(s: Seq<&Node>) -> Seq<NodeV> {
    s.map_values(|n: &Node| n@)
}

/// The child of a node at a position, if the node is an element that has one.
fn child_at<'a>(n: &'a Node, i: usize) -> (r: Option<&'a Node>)
    ensures
        i < kids(n@).len() ==> (r matches Some(c) && c@ == kids(n@)[i as int]),
        i >= kids(n@).len() ==> r is None,
        r is Some ==> kids(n@).len() <= usize::MAX,
{
    match n {
        Node::Element(e) => {
            proof {
                lemma_view_nodes_len(e.children@);
            }
            if i < e.children.len() {
                proof {
                    lemma_view_nodes_index(e.children@, i as int);
                }
                Some(&e.children[i])
            } else {
                None
            }
        },
        _ => None,
    }
}

impl Node {
    /// A walk over the nodes under this one, in pre-order: this node first,
    /// then each child's subtree in turn.
    pub fn into_iter(&self) -> (r: NodeIntoIterator<'_>)
        ensures
            r.wf(),
            r.remaining() == preorder(self@),
    {
        NodeIntoIterator { root: self, started: false, node: self, index: Vec::new() }
    }

    /// Every node under this one, in pre-order.
    pub fn preorder(&self) -> (r: Vec<&Node>)
        ensures
            nodes_of_refs(r@) == preorder(self@),
    {
        let mut it = self.into_iter();
        it.collect_rest()
    }
}

/// The walk of a node without children yields that node alone.
pub proof fn lemma_leaf_walk(n: NodeV)
    requires
        kids(n).len() == 0,
    ensures
        preorder(n) == seq![n],
{
    lemma_preorder_unfold(n);
    assert(forest(kids(n)) =~= Seq::<NodeV>::empty());
    assert(seq![n] + Seq::<NodeV>::empty() =~= seq![n]);
}

} // verus!
