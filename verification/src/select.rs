//! Finding nodes: the elements of a tag, in document order, and the node
//! at the end of a path.

use vstd::prelude::*;
use crate::dom::{addressable, node_views, Document, Node, NodeView};
use crate::text::{same_tag, tags_match};

verus! {

/// Each of `paths` with `at` put in front of it.
pub open spec fn prefixed(at: Seq<usize>, paths: Seq<Seq<usize>>) -> Seq<Seq<usize>> {
    Seq::new(paths.len(), |j: int| at + paths[j])
}

/// The paths of the elements at or below `node` whose tag is `tag`, in
/// document order: a node comes before its descendants, and these before
/// its later siblings. A path gives, from `node` down, the position of
/// each node among the children of the one before; the path of `node`
/// itself is empty.
pub open spec fn select_spec(node: NodeView, tag: Seq<char>) -> Seq<Seq<usize>>
    decreases node, 0nat,
{
    match node {
        NodeView::Element { name, children, .. } => {
            let own = if same_tag(name, tag) {
                seq![Seq::<usize>::empty()]
            } else {
                Seq::empty()
            };
            own + select_among(children, tag, children.len())
        },
        NodeView::Other { children } => select_among(children, tag, children.len()),
        _ => Seq::empty(),
    }
}

/// The paths selected at and below the first `upto` of the siblings
/// `nodes`, counted from their parent.
pub open spec fn select_among(nodes: Seq<NodeView>, tag: Seq<char>, upto: nat) -> Seq<Seq<usize>>
    decreases nodes, upto,
{
    if upto == 0 || upto > nodes.len() {
        Seq::empty()
    } else {
        select_among(nodes, tag, (upto - 1) as nat) + prefixed(
            seq![(upto - 1) as usize],
            select_spec(nodes[upto - 1], tag),
        )
    }
}

/// The node that `path` leads to from `node`, if there is one.
pub open spec fn node_at(node: NodeView, path: Seq<usize>) -> Option<NodeView>
    decreases path.len(),
{
    if path.len() == 0 {
        Some(node)
    } else if (path[0] as int) < node.children().len() {
        node_at(node.children()[path[0] as int], path.drop_first())
    } else {
        None
    }
}

/// The paths that a vector of paths holds.
pub open spec fn path_views(paths: Seq<Vec<usize>>) -> Seq<Seq<usize>> {
    Seq::new(paths.len(), |i: int| paths[i]@)
}

/// Appends to `out` the paths selected at and below `node`, each counted
/// from the root, from which `at` leads to `node`.
fn collect_matches(node: &Node, tag: &str, at: &mut Vec<usize>, out: &mut Vec<Vec<usize>>)
    ensures
        final(at)@ == old(at)@,
        path_views(final(out)@) == path_views(old(out)@) + prefixed(
            old(at)@,
            select_spec(node@, tag@),
        ),
    decreases node,
{
    match node {
        Node::Element { name, children, .. } => {
            let ghost own: Seq<Seq<usize>> = if same_tag(name@, tag@) {
                seq![Seq::<usize>::empty()]
            } else {
                Seq::empty()
            };
            if tags_match(name.as_str(), tag) {
                out.push(at.clone());
                assert(path_views(out@) == path_views(old(out)@) + prefixed(old(at)@, own));
            }
            let ghost start = path_views(out@);
            let ghost kids = node_views(children@);
            let mut i: usize = 0;
            while i < children.len()
                invariant
                    i <= children.len(),
                    node matches Node::Element { children: c, .. } && c == children,
                    kids == node_views(children@),
                    at@ == old(at)@,
                    path_views(out@) == start + prefixed(at@, select_among(kids, tag@, i as nat)),
                decreases children.len() - i,
            {
                let ghost sofar = select_among(kids, tag@, i as nat);
                let ghost below = select_spec(kids[i as int], tag@);
                let ghost here = at@;
                at.push(i);
                collect_matches(&children[i], tag, at, out);
                at.pop();
                proof {
                    assert(at@ == here);
                    assert forall|j: int| 0 <= j < below.len() implies at@.push(i) + below[j]
                        == at@ + (seq![i] + below[j]) by {}
                    assert(prefixed(at@.push(i), below) == prefixed(at@, prefixed(seq![i], below)));
                    assert(prefixed(at@, sofar + prefixed(seq![i], below)) == prefixed(at@, sofar)
                        + prefixed(at@, prefixed(seq![i], below)));
                    assert(select_among(kids, tag@, (i + 1) as nat) == sofar + prefixed(
                        seq![i],
                        below,
                    ));
                    assert(start + prefixed(at@, sofar) + prefixed(at@, prefixed(seq![i], below))
                        == start + (prefixed(at@, sofar) + prefixed(
                        at@,
                        prefixed(seq![i], below),
                    )));
                }
                i = i + 1;
            }
            proof {
                assert(prefixed(at@, own + select_among(kids, tag@, kids.len())) == prefixed(
                    at@,
                    own,
                ) + prefixed(at@, select_among(kids, tag@, kids.len())));
            }
        },
        _ => {},
    }
}

impl Document {
    /// Every element of the document whose tag is `tag`, compared without
    /// regard to the case of ASCII letters: their paths from the root, in
    /// document order. Empty when there is none.
    pub fn select(&self, tag: &str) -> (paths: Vec<Vec<usize>>)
        ensures
            path_views(paths@) == select_spec(self@, tag@),
    {
        let mut at: Vec<usize> = Vec::new();
        let mut paths: Vec<Vec<usize>> = Vec::new();
        collect_matches(&self.root, tag, &mut at, &mut paths);
        proof {
            let found = select_spec(self@, tag@);
            assert forall|j: int| 0 <= j < found.len() implies Seq::<usize>::empty() + found[j]
                == found[j] by {}
        }
        paths
    }

    /// The node that `path` leads to from the root, if there is one.
    pub fn node_at(&self, path: &Vec<usize>) -> (found: Option<&Node>)
        ensures
            match found {
                Some(node) => node_at(self@, path@) == Some(node@),
                None => node_at(self@, path@) is None,
            },
    {
        let mut cur: &Node = &self.root;
        let mut depth: usize = 0;
        assert(path@.skip(0) == path@);
        while depth < path.len()
            invariant
                depth <= path.len(),
                node_at(self@, path@) == node_at(cur@, path@.skip(depth as int)),
            decreases path.len() - depth,
        {
            let ghost rest = path@.skip(depth as int);
            assert(rest.drop_first() == path@.skip(depth + 1));
            match cur {
                Node::Element { children, .. } => {
                    let i: usize = path[depth];
                    assert(node_views(children@).len() == children@.len());
                    if i < children.len() {
                        cur = &children[i];
                    } else {
                        return None;
                    }
                },
                _ => {
                    return None;
                },
            }
            depth = depth + 1;
        }
        Some(cur)
    }
}

/// Every path that is selected leads to an element of the tag asked for.
pub proof fn lemma_select_valid(node: NodeView, tag: Seq<char>, j: int)
    requires
        addressable(node),
        0 <= j < select_spec(node, tag).len(),
    ensures
        node_at(node, select_spec(node, tag)[j]) matches Some(NodeView::Element { name, .. })
            && same_tag(name, tag),
    decreases node, node.children().len() + 1,
{
    match node {
        NodeView::Element { name, children, .. } => {
            if same_tag(name, tag) {
                if j > 0 {
                    lemma_select_among_valid(node, tag, children.len(), j - 1);
                }
            } else {
                assert(Seq::<Seq<usize>>::empty() + select_among(children, tag, children.len())
                    =~= select_among(children, tag, children.len()));
                lemma_select_among_valid(node, tag, children.len(), j);
            }
        },
        NodeView::Other { children } => {
            lemma_select_among_valid(node, tag, children.len(), j);
        },
        _ => {},
    }
}

proof fn lemma_select_among_valid(parent: NodeView, tag: Seq<char>, upto: nat, j: int)
    requires
        addressable(parent),
        parent is Element || parent is Other,
        upto <= parent.children().len(),
        0 <= j < select_among(parent.children(), tag, upto).len(),
    ensures
        node_at(parent, select_among(parent.children(), tag, upto)[j]) matches Some(
            NodeView::Element { name, .. },
        ) && same_tag(name, tag),
    decreases parent, upto,
{
    let nodes = parent.children();
    let earlier = select_among(nodes, tag, (upto - 1) as nat);
    if j < earlier.len() {
        lemma_select_among_valid(parent, tag, (upto - 1) as nat, j);
    } else {
        let i = upto - 1;
        let below = select_spec(nodes[i], tag);
        let path = seq![i as usize] + below[j - earlier.len()];
        assert(path.drop_first() =~= below[j - earlier.len()]);
        lemma_select_valid(nodes[i], tag, j - earlier.len());
    }
}

/// What stands in a well-formed tree is well formed.
pub proof fn lemma_well_formed_at(node: NodeView, path: Seq<usize>)
    requires
        node.well_formed(),
        node_at(node, path) is Some,
    ensures
        node_at(node, path)->Some_0.well_formed(),
    decreases path.len(),
{
    if path.len() > 0 {
        lemma_well_formed_at(node.children()[path[0] as int], path.drop_first());
    }
}

} // verus!
