//! What the transform is: the case mapping, and the trees that it gives.

use vstd::prelude::*;
use crate::dom::{all_well_formed, NodeView};
use crate::select::{node_at, select_among, select_spec};
use crate::text::{lower_of, same_tag, upper_of};

verus! {

/// The case that paragraph text is rewritten to.
#[derive(Debug, Clone, Copy, PartialEq, Eq, Structural)]
pub enum TransformType {
    Uppercase,
    Lowercase,
}

/// The tag of a paragraph element.
pub open spec fn paragraph_tag() -> Seq<char> {
    seq!['p']
}

/// Whether an element of this name is a paragraph.
pub open spec fn is_paragraph(name: Seq<char>) -> bool {
    same_tag(name, paragraph_tag())
}

/// The text `s` in the case that `case` asks for.
pub open spec fn case_of(case: TransformType, s: Seq<char>) -> Seq<char> {
    match case {
        TransformType::Uppercase => upper_of(s),
        TransformType::Lowercase => lower_of(s),
    }
}

/// Whether the case mapping maps its own results to themselves: mapping a
/// text twice is mapping it once.
pub open spec fn idempotent(case: TransformType) -> bool {
    forall|t: Seq<char>| #[trigger] case_of(case, case_of(case, t)) == case_of(case, t)
}

/// The text `s` after the case mapping has been applied `times` times.
pub open spec fn case_times(case: TransformType, s: Seq<char>, times: nat) -> Seq<char>
    decreases times,
{
    if times == 0 {
        s
    } else {
        case_of(case, case_times(case, s, (times - 1) as nat))
    }
}

/// `node` with every text node at or below it rewritten once.
pub open spec fn recased(node: NodeView, case: TransformType) -> NodeView
    decreases node,
{
    match node {
        NodeView::Element { namespace, name, attributes, children } => NodeView::Element {
            namespace,
            name,
            attributes,
            children: recased_all(children, case),
        },
        NodeView::Text { content } => NodeView::Text { content: case_of(case, content) },
        NodeView::Comment { content } => NodeView::Comment { content },
        NodeView::Other { children } => NodeView::Other { children: recased_all(children, case) },
    }
}

/// Each node of the sequence with every text node at or below it rewritten
/// once.
pub open spec fn recased_all(nodes: Seq<NodeView>, case: TransformType) -> Seq<NodeView>
    decreases nodes,
{
    Seq::new(
        nodes.len(),
        |i: int|
            if 0 <= i < nodes.len() {
                recased(nodes[i], case)
            } else {
                arbitrary()
            },
    )
}

/// `node` with every text node strictly below it rewritten once. The node
/// itself stays as it is: only the children of an element are visited.
pub open spec fn rewritten(node: NodeView, case: TransformType) -> NodeView {
    match node {
        NodeView::Text { .. } => node,
        _ => recased(node, case),
    }
}

/// `node` after the transform, where `depth` paragraph elements enclose it:
/// a text node is rewritten once for each paragraph element that it lies
/// in, and nothing else changes.
pub open spec fn cased(node: NodeView, case: TransformType, depth: nat) -> NodeView
    decreases node,
{
    match node {
        NodeView::Element { namespace, name, attributes, children } => NodeView::Element {
            namespace,
            name,
            attributes,
            children: cased_all(
                children,
                case,
                if is_paragraph(name) {
                    depth + 1
                } else {
                    depth
                },
            ),
        },
        NodeView::Text { content } => NodeView::Text { content: case_times(case, content, depth) },
        NodeView::Comment { content } => NodeView::Comment { content },
        NodeView::Other { children } => NodeView::Other {
            children: cased_all(children, case, depth),
        },
    }
}

/// Each node of the sequence after the transform, where `depth` paragraph
/// elements enclose the sequence.
pub open spec fn cased_all(nodes: Seq<NodeView>, case: TransformType, depth: nat) -> Seq<NodeView>
    decreases nodes,
{
    Seq::new(
        nodes.len(),
        |i: int|
            if 0 <= i < nodes.len() {
                cased(nodes[i], case, depth)
            } else {
                arbitrary()
            },
    )
}

/// Rewriting the text of a tree keeps it well formed, and makes no tree
/// well formed that was not.
pub proof fn lemma_recased_well_formed(node: NodeView, case: TransformType)
    ensures
        recased(node, case).well_formed() == node.well_formed(),
        rewritten(node, case).well_formed() == node.well_formed(),
    decreases node,
{
    match node {
        NodeView::Element { children, .. } => {
            assert forall|i: int| 0 <= i < children.len() implies (#[trigger] recased_all(
                children,
                case,
            )[i]).well_formed() == children[i].well_formed() by {
                lemma_recased_well_formed(children[i], case);
            }
            if all_well_formed(children) {
                assert(all_well_formed(recased_all(children, case)));
            } else {
                let i = choose|i: int|
                    0 <= i < children.len() && !(#[trigger] children[i]).well_formed();
                assert(!recased_all(children, case)[i].well_formed());
            }
        },
        _ => {},
    }
}

/// The transform keeps a tree well formed, and makes no tree well formed
/// that was not.
pub proof fn lemma_cased_well_formed(node: NodeView, case: TransformType, depth: nat)
    ensures
        cased(node, case, depth).well_formed() == node.well_formed(),
    decreases node,
{
    match node {
        NodeView::Element { name, children, .. } => {
            let below: nat = if is_paragraph(name) {
                depth + 1
            } else {
                depth
            };
            assert forall|i: int| 0 <= i < children.len() implies (#[trigger] cased_all(
                children,
                case,
                below,
            )[i]).well_formed() == children[i].well_formed() by {
                lemma_cased_well_formed(children[i], case, below);
            }
            if all_well_formed(children) {
                assert(all_well_formed(cased_all(children, case, below)));
            } else {
                let i = choose|i: int|
                    0 <= i < children.len() && !(#[trigger] children[i]).well_formed();
                assert(!cased_all(children, case, below)[i].well_formed());
            }
        },
        _ => {},
    }
}

/// The number of paragraph elements that enclose the node at `path`,
/// counted from `node` down and without the node at `path` itself.
pub open spec fn paragraphs_above(node: NodeView, path: Seq<usize>) -> nat
    decreases path.len(),
{
    if path.len() == 0 {
        0
    } else if (path[0] as int) < node.children().len() {
        let own: nat = if node matches NodeView::Element { name, .. } && is_paragraph(name) {
            1
        } else {
            0
        };
        own + paragraphs_above(node.children()[path[0] as int], path.drop_first())
    } else {
        0
    }
}

/// The transform changes no path: what stands at a path afterwards is the
/// transform of what stood there, taken with the number of paragraph
/// elements around it.
pub proof fn lemma_cased_at(node: NodeView, path: Seq<usize>, case: TransformType, depth: nat)
    ensures
        node_at(cased(node, case, depth), path) == match node_at(node, path) {
            Some(found) => Some(cased(found, case, depth + paragraphs_above(node, path))),
            None => None,
        },
    decreases path.len(),
{
    if path.len() > 0 {
        let i = path[0] as int;
        match node {
            NodeView::Element { name, children, .. } => {
                let below: nat = if is_paragraph(name) {
                    depth + 1
                } else {
                    depth
                };
                if i < children.len() {
                    assert(cased(node, case, depth).children()[i] == cased(
                        children[i],
                        case,
                        below,
                    ));
                    lemma_cased_at(children[i], path.drop_first(), case, below);
                }
            },
            NodeView::Other { children } => {
                if i < children.len() {
                    assert(cased(node, case, depth).children()[i] == cased(
                        children[i],
                        case,
                        depth,
                    ));
                    lemma_cased_at(children[i], path.drop_first(), case, depth);
                }
            },
            _ => {},
        }
    }
}

/// The transform selects as the tree did: it moves no element and changes
/// no tag.
pub proof fn lemma_select_kept(node: NodeView, tag: Seq<char>, case: TransformType, depth: nat)
    ensures
        select_spec(cased(node, case, depth), tag) == select_spec(node, tag),
    decreases node, 0nat,
{
    match node {
        NodeView::Element { name, children, .. } => {
            let below: nat = if is_paragraph(name) {
                depth + 1
            } else {
                depth
            };
            lemma_select_among_kept(children, tag, children.len(), case, below);
        },
        NodeView::Other { children } => {
            lemma_select_among_kept(children, tag, children.len(), case, depth);
        },
        _ => {},
    }
}

proof fn lemma_select_among_kept(
    nodes: Seq<NodeView>,
    tag: Seq<char>,
    upto: nat,
    case: TransformType,
    depth: nat,
)
    requires
        upto <= nodes.len(),
    ensures
        select_among(cased_all(nodes, case, depth), tag, upto) == select_among(nodes, tag, upto),
    decreases nodes, upto,
{
    if upto > 0 {
        lemma_select_among_kept(nodes, tag, (upto - 1) as nat, case, depth);
        lemma_select_kept(nodes[upto - 1], tag, case, depth);
    }
}

} // verus!
