//! The transform as a run of passes: one pass for each paragraph element,
//! in document order, each rewriting the text below that element. This
//! module states what a pass does and proves that the passes together give
//! the transform.

use vstd::prelude::*;
use crate::case::{
    case_times, cased, cased_all, is_paragraph, paragraph_tag, recased, recased_all, rewritten,
    TransformType,
};
use crate::dom::{addressable, NodeView};
use crate::select::{prefixed, select_among, select_spec};

verus! {

/// `node` with the child at position `i` replaced by `child`.
pub open spec fn with_child_at(node: NodeView, i: int, child: NodeView) -> NodeView {
    match node {
        NodeView::Element { namespace, name, attributes, children } => NodeView::Element {
            namespace,
            name,
            attributes,
            children: children.update(i, child),
        },
        NodeView::Other { children } => NodeView::Other { children: children.update(i, child) },
        _ => node,
    }
}

/// `node` after one pass: the text below the node that `path` leads to has
/// been rewritten once. A path that leads nowhere changes nothing.
pub open spec fn rewritten_at(node: NodeView, path: Seq<usize>, case: TransformType) -> NodeView
    decreases path.len(),
{
    if path.len() == 0 {
        rewritten(node, case)
    } else if (path[0] as int) < node.children().len() {
        with_child_at(
            node,
            path[0] as int,
            rewritten_at(node.children()[path[0] as int], path.drop_first(), case),
        )
    } else {
        node
    }
}

/// `node` after the passes for the first `count` of `paths`, in their
/// order.
pub open spec fn rewritten_through(
    node: NodeView,
    paths: Seq<Seq<usize>>,
    count: nat,
    case: TransformType,
) -> NodeView
    decreases count,
{
    if count == 0 || count > paths.len() {
        node
    } else {
        rewritten_at(
            rewritten_through(node, paths, (count - 1) as nat, case),
            paths[count - 1],
            case,
        )
    }
}

/// `node` with every text node at or below it rewritten `times` times.
spec fn recased_times(node: NodeView, case: TransformType, times: nat) -> NodeView
    decreases node,
{
    match node {
        NodeView::Element { namespace, name, attributes, children } => NodeView::Element {
            namespace,
            name,
            attributes,
            children: recased_times_all(children, case, times),
        },
        NodeView::Text { content } => NodeView::Text { content: case_times(case, content, times) },
        NodeView::Comment { content } => NodeView::Comment { content },
        NodeView::Other { children } => NodeView::Other {
            children: recased_times_all(children, case, times),
        },
    }
}

spec fn recased_times_all(nodes: Seq<NodeView>, case: TransformType, times: nat) -> Seq<NodeView>
    decreases nodes,
{
    Seq::new(
        nodes.len(),
        |i: int|
            if 0 <= i < nodes.len() {
                recased_times(nodes[i], case, times)
            } else {
                arbitrary()
            },
    )
}

proof fn lemma_recased_times_zero(node: NodeView, case: TransformType)
    ensures
        recased_times(node, case, 0) == node,
    decreases node,
{
    match node {
        NodeView::Element { children, .. } => {
            assert forall|i: int| 0 <= i < children.len() implies recased_times_all(
                children,
                case,
                0,
            )[i] == children[i] by {
                lemma_recased_times_zero(children[i], case);
            }
            assert(recased_times_all(children, case, 0) =~= children);
        },
        NodeView::Other { children } => {
            assert forall|i: int| 0 <= i < children.len() implies recased_times_all(
                children,
                case,
                0,
            )[i] == children[i] by {
                lemma_recased_times_zero(children[i], case);
            }
            assert(recased_times_all(children, case, 0) =~= children);
        },
        _ => {},
    }
}

/// One more rewrite of what was rewritten `times` times.
proof fn lemma_recased_once_more(node: NodeView, case: TransformType, times: nat)
    ensures
        recased(recased_times(node, case, times), case) == recased_times(node, case, times + 1),
    decreases node,
{
    match node {
        NodeView::Element { children, .. } => {
            assert forall|i: int| 0 <= i < children.len() implies recased_all(
                recased_times_all(children, case, times),
                case,
            )[i] == recased_times_all(children, case, times + 1)[i] by {
                lemma_recased_once_more(children[i], case, times);
            }
            assert(recased_all(recased_times_all(children, case, times), case)
                =~= recased_times_all(children, case, times + 1));
        },
        NodeView::Other { children } => {
            assert forall|i: int| 0 <= i < children.len() implies recased_all(
                recased_times_all(children, case, times),
                case,
            )[i] == recased_times_all(children, case, times + 1)[i] by {
                lemma_recased_once_more(children[i], case, times);
            }
            assert(recased_all(recased_times_all(children, case, times), case)
                =~= recased_times_all(children, case, times + 1));
        },
        _ => {},
    }
}

/// The passes for the first `count` paths depend on those paths only.
proof fn lemma_through_same_paths(
    node: NodeView,
    paths: Seq<Seq<usize>>,
    others: Seq<Seq<usize>>,
    count: nat,
    case: TransformType,
)
    requires
        count <= paths.len(),
        count <= others.len(),
        forall|j: int| 0 <= j < count ==> paths[j] == others[j],
    ensures
        rewritten_through(node, paths, count, case) == rewritten_through(
            node,
            others,
            count,
            case,
        ),
    decreases count,
{
    if count > 0 {
        lemma_through_same_paths(node, paths, others, (count - 1) as nat, case);
    }
}

/// The passes for two runs of paths, one after the other, are the passes
/// for the first run followed by those for the second.
proof fn lemma_through_concat(
    node: NodeView,
    first: Seq<Seq<usize>>,
    second: Seq<Seq<usize>>,
    count: nat,
    case: TransformType,
)
    requires
        count <= second.len(),
    ensures
        rewritten_through(node, first + second, first.len() + count, case) == rewritten_through(
            rewritten_through(node, first, first.len(), case),
            second,
            count,
            case,
        ),
    decreases count,
{
    if count == 0 {
        lemma_through_same_paths(node, first + second, first, first.len(), case);
    } else {
        lemma_through_concat(node, first, second, (count - 1) as nat, case);
        assert((first + second)[first.len() + count - 1] == second[count - 1]);
    }
}

/// Passes for paths that all lead through the child at position `i` change
/// that child only, and change it as the passes for the rest of each path
/// change it on its own.
proof fn lemma_through_child(
    node: NodeView,
    i: int,
    paths: Seq<Seq<usize>>,
    count: nat,
    case: TransformType,
)
    requires
        node is Element || node is Other,
        0 <= i < node.children().len(),
        i <= usize::MAX,
        count <= paths.len(),
    ensures
        rewritten_through(node, prefixed(seq![i as usize], paths), count, case) == with_child_at(
            node,
            i,
            rewritten_through(node.children()[i], paths, count, case),
        ),
    decreases count,
{
    if count == 0 {
        assert(node.children().update(i, node.children()[i]) =~= node.children());
    } else {
        let before = (count - 1) as nat;
        lemma_through_child(node, i, paths, before, case);
        let child = rewritten_through(node.children()[i], paths, before, case);
        let held = with_child_at(node, i, child);
        let path = seq![i as usize] + paths[count - 1];
        assert(prefixed(seq![i as usize], paths)[count - 1] == path);
        assert(path[0] as int == i);
        assert(path.drop_first() =~= paths[count - 1]);
        assert(held.children() == node.children().update(i, child));
        let next = rewritten_at(child, paths[count - 1], case);
        assert(rewritten_at(held, path, case) == with_child_at(held, i, next));
        assert(node.children().update(i, child).update(i, next) =~= node.children().update(
            i,
            next,
        ));
    }
}

/// `node` with other children.
spec fn with_children(node: NodeView, children: Seq<NodeView>) -> NodeView {
    match node {
        NodeView::Element { namespace, name, attributes, .. } => NodeView::Element {
            namespace,
            name,
            attributes,
            children,
        },
        NodeView::Other { .. } => NodeView::Other { children },
        _ => node,
    }
}

/// The children of `node` after all the passes below its first `upto`
/// children: each of these has had the passes for what is selected in the
/// node of `sources` at its position, and the others are as they were.
spec fn swept(
    node: NodeView,
    sources: Seq<NodeView>,
    tag: Seq<char>,
    upto: nat,
    case: TransformType,
) -> Seq<NodeView> {
    Seq::new(
        node.children().len(),
        |j: int|
            if 0 <= j < upto {
                rewritten_through(
                    node.children()[j],
                    select_spec(sources[j], tag),
                    select_spec(sources[j], tag).len(),
                    case,
                )
            } else {
                node.children()[j]
            },
    )
}

/// The passes for what is selected among the children of a node change
/// each child on its own.
proof fn lemma_through_children(
    node: NodeView,
    sources: Seq<NodeView>,
    tag: Seq<char>,
    upto: nat,
    case: TransformType,
)
    requires
        node is Element || node is Other,
        sources.len() == node.children().len(),
        sources.len() <= usize::MAX,
        upto <= sources.len(),
    ensures
        rewritten_through(
            node,
            select_among(sources, tag, upto),
            select_among(sources, tag, upto).len(),
            case,
        ) == with_children(node, swept(node, sources, tag, upto, case)),
    decreases upto,
{
    if upto == 0 {
        assert(swept(node, sources, tag, 0, case) =~= node.children());
    } else {
        let i = (upto - 1) as int;
        let earlier = select_among(sources, tag, i as nat);
        let below = select_spec(sources[i], tag);
        let here = prefixed(seq![i as usize], below);
        lemma_through_children(node, sources, tag, i as nat, case);
        let held = with_children(node, swept(node, sources, tag, i as nat, case));
        lemma_through_concat(node, earlier, here, here.len(), case);
        assert(held.children()[i] == node.children()[i]);
        lemma_through_child(held, i, below, below.len(), case);
        assert(held.children().update(
            i,
            rewritten_through(node.children()[i], below, below.len(), case),
        ) =~= swept(node, sources, tag, upto, case));
    }
}

/// With the text of a tree already rewritten `times` times, the passes for
/// its paragraph elements give the transform of the tree below `times`
/// paragraph elements.
proof fn lemma_passes(node: NodeView, case: TransformType, times: nat)
    requires
        addressable(node),
    ensures
        rewritten_through(
            recased_times(node, case, times),
            select_spec(node, paragraph_tag()),
            select_spec(node, paragraph_tag()).len(),
            case,
        ) == cased(node, case, times),
    decreases node,
{
    let tag = paragraph_tag();
    let start = recased_times(node, case, times);
    match node {
        NodeView::Element { name, children, .. } => {
            let among = select_among(children, tag, children.len());
            if is_paragraph(name) {
                let own = seq![Seq::<usize>::empty()];
                lemma_through_concat(start, own, among, among.len(), case);
                let held = rewritten_through(start, own, 1, case);
                assert(rewritten_through(start, own, 0, case) == start);
                assert(held == recased(start, case));
                lemma_through_children(held, children, tag, children.len(), case);
                assert forall|j: int| 0 <= j < children.len() implies swept(
                    held,
                    children,
                    tag,
                    children.len(),
                    case,
                )[j] == cased_all(children, case, times + 1)[j] by {
                    lemma_recased_once_more(children[j], case, times);
                    lemma_passes(children[j], case, times + 1);
                }
                assert(swept(held, children, tag, children.len(), case) =~= cased_all(
                    children,
                    case,
                    times + 1,
                ));
            } else {
                assert(Seq::<Seq<usize>>::empty() + among =~= among);
                lemma_through_children(start, children, tag, children.len(), case);
                assert forall|j: int| 0 <= j < children.len() implies swept(
                    start,
                    children,
                    tag,
                    children.len(),
                    case,
                )[j] == cased_all(children, case, times)[j] by {
                    lemma_passes(children[j], case, times);
                }
                assert(swept(start, children, tag, children.len(), case) =~= cased_all(
                    children,
                    case,
                    times,
                ));
            }
        },
        NodeView::Other { children } => {
            lemma_through_children(start, children, tag, children.len(), case);
            assert forall|j: int| 0 <= j < children.len() implies swept(
                start,
                children,
                tag,
                children.len(),
                case,
            )[j] == cased_all(children, case, times)[j] by {
                lemma_passes(children[j], case, times);
            }
            assert(swept(start, children, tag, children.len(), case) =~= cased_all(
                children,
                case,
                times,
            ));
        },
        _ => {},
    }
}

/// Selecting the paragraph elements and then rewriting, one after the
/// other and in document order, the text below each of them gives the
/// transform: every text node has then been rewritten once for each
/// paragraph element that it lies in.
pub proof fn lemma_select_then_rewrite(node: NodeView, case: TransformType)
    requires
        addressable(node),
    ensures
        rewritten_through(
            node,
            select_spec(node, paragraph_tag()),
            select_spec(node, paragraph_tag()).len(),
            case,
        ) == cased(node, case, 0),
{
    lemma_recased_times_zero(node, case);
    lemma_passes(node, case, 0);
}

} // verus!
