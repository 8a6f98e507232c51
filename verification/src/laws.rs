//! What holds of the transform, for every tree and every text.

use vstd::prelude::*;
use crate::case::{
    case_of, case_times, cased, cased_all, idempotent, is_paragraph, lemma_cased_at,
    paragraph_tag, paragraphs_above, recased, recased_all, rewritten, TransformType,
};
use crate::dom::{addressable, AttributeView, NodeView};
use crate::error::TransformError;
use crate::markup::parsed_document;
use crate::select::{node_at, select_among, select_spec};
use crate::text::is_blank;
use crate::transform::{
    body_children, body_markup, body_tag, lemma_body_of_transform, lemma_transform_of_body,
    transform_spec, update_spec,
};

verus! {

/// A paragraph that holds one run of text and no element comes out with
/// that text in the case asked for, and is otherwise as it was.
pub proof fn lemma_plain_paragraph(
    namespace: Seq<char>,
    name: Seq<char>,
    attributes: Seq<AttributeView>,
    text: Seq<char>,
    case: TransformType,
)
    requires
        is_paragraph(name),
    ensures
        cased(
            NodeView::Element {
                namespace,
                name,
                attributes,
                children: seq![NodeView::Text { content: text }],
            },
            case,
            0,
        ) == (NodeView::Element {
            namespace,
            name,
            attributes,
            children: seq![NodeView::Text { content: case_of(case, text) }],
        }),
{
    reveal_with_fuel(case_times, 2);
    let before = seq![NodeView::Text { content: text }];
    let after = seq![NodeView::Text { content: case_of(case, text) }];
    assert(cased_all(before, case, 1) =~= after);
}

/// Siblings are transformed each on its own and stay in their order: the
/// transform of a sequence of nodes holds, at each position, the transform
/// of the node that was there.
pub proof fn lemma_siblings_independent(
    nodes: Seq<NodeView>,
    i: int,
    case: TransformType,
    depth: nat,
)
    requires
        0 <= i < nodes.len(),
    ensures
        cased_all(nodes, case, depth).len() == nodes.len(),
        cased_all(nodes, case, depth)[i] == cased(nodes[i], case, depth),
{
}

/// Where the case mapping maps its own results to themselves, mapping a
/// text any number of times, at least once, is mapping it once.
proof fn lemma_case_times_once(case: TransformType, s: Seq<char>, times: nat)
    requires
        idempotent(case),
        times >= 1,
    ensures
        case_times(case, s, times) == case_of(case, s),
    decreases times,
{
    reveal_with_fuel(case_times, 2);
    if times > 1 {
        lemma_case_times_once(case, s, (times - 1) as nat);
    }
}

/// Where the case mapping maps its own results to themselves, the
/// transform changes nothing in a tree that has been transformed below at
/// least as many paragraph elements.
pub proof fn lemma_cased_again(node: NodeView, case: TransformType, first: nat, second: nat)
    requires
        idempotent(case),
        second <= first,
    ensures
        cased(cased(node, case, first), case, second) == cased(node, case, first),
    decreases node,
{
    match node {
        NodeView::Element { name, children, .. } => {
            let own: nat = if is_paragraph(name) {
                1
            } else {
                0
            };
            lemma_cased_all_again(children, case, first + own, second + own);
        },
        NodeView::Other { children } => {
            lemma_cased_all_again(children, case, first, second);
        },
        NodeView::Text { content } => {
            if second >= 1 {
                lemma_case_times_once(case, content, first);
                lemma_case_times_once(case, case_of(case, content), second);
            }
        },
        NodeView::Comment { .. } => {},
    }
}

/// The same of a sequence of nodes.
pub proof fn lemma_cased_all_again(
    nodes: Seq<NodeView>,
    case: TransformType,
    first: nat,
    second: nat,
)
    requires
        idempotent(case),
        second <= first,
    ensures
        cased_all(cased_all(nodes, case, first), case, second) == cased_all(nodes, case, first),
    decreases nodes,
{
    assert forall|i: int| 0 <= i < nodes.len() implies cased_all(
        cased_all(nodes, case, first),
        case,
        second,
    )[i] == cased_all(nodes, case, first)[i] by {
        lemma_cased_again(nodes[i], case, first, second);
    }
    assert(cased_all(cased_all(nodes, case, first), case, second) =~= cased_all(
        nodes,
        case,
        first,
    ));
}

/// Transforming twice is transforming once, where the case mapping maps
/// its own results to themselves.
pub proof fn lemma_cased_idempotent(node: NodeView, case: TransformType, depth: nat)
    requires
        idempotent(case),
    ensures
        cased(cased(node, case, depth), case, depth) == cased(node, case, depth),
{
    lemma_cased_again(node, case, depth, depth);
}

/// Rewriting twice the text of a tree is rewriting it once, where the case
/// mapping maps its own results to themselves.
pub proof fn lemma_recased_idempotent(node: NodeView, case: TransformType)
    requires
        idempotent(case),
    ensures
        recased(recased(node, case), case) == recased(node, case),
        rewritten(rewritten(node, case), case) == rewritten(node, case),
    decreases node,
{
    match node {
        NodeView::Element { children, .. } => {
            assert forall|i: int| 0 <= i < children.len() implies recased_all(
                recased_all(children, case),
                case,
            )[i] == recased_all(children, case)[i] by {
                lemma_recased_idempotent(children[i], case);
            }
            assert(recased_all(recased_all(children, case), case) =~= recased_all(
                children,
                case,
            ));
        },
        NodeView::Other { children } => {
            assert forall|i: int| 0 <= i < children.len() implies recased_all(
                recased_all(children, case),
                case,
            )[i] == recased_all(children, case)[i] by {
                lemma_recased_idempotent(children[i], case);
            }
            assert(recased_all(recased_all(children, case), case) =~= recased_all(
                children,
                case,
            ));
        },
        _ => {},
    }
}

/// Text outside every paragraph is never altered: a text node that no
/// paragraph element encloses stands after the transform as it stood.
pub proof fn lemma_text_outside_paragraphs(
    node: NodeView,
    path: Seq<usize>,
    text: Seq<char>,
    case: TransformType,
)
    requires
        node_at(node, path) == Some(NodeView::Text { content: text }),
        paragraphs_above(node, path) == 0,
    ensures
        node_at(cased(node, case, 0), path) == Some(NodeView::Text { content: text }),
{
    lemma_cased_at(node, path, case, 0);
}

/// Text inside a paragraph is rewritten, at whatever depth it lies below
/// the paragraph element: after the transform a text node holds its old
/// content, mapped once for each paragraph element that encloses it.
pub proof fn lemma_text_inside_paragraphs(
    node: NodeView,
    path: Seq<usize>,
    text: Seq<char>,
    case: TransformType,
)
    requires
        node_at(node, path) == Some(NodeView::Text { content: text }),
    ensures
        node_at(cased(node, case, 0), path) == Some(
            NodeView::Text { content: case_times(case, text, paragraphs_above(node, path)) },
        ),
{
    lemma_cased_at(node, path, case, 0);
}

/// An element keeps its tag, its attributes and the number of its
/// children, wherever it stands and whatever is rewritten below it.
pub proof fn lemma_element_kept(node: NodeView, path: Seq<usize>, case: TransformType)
    requires
        node_at(node, path) matches Some(NodeView::Element { .. }),
    ensures
        node_at(cased(node, case, 0), path) matches Some(
            NodeView::Element { namespace, name, attributes, children },
        ) && {
            let before = node_at(node, path)->Some_0;
            &&& namespace == before->Element_namespace
            &&& name == before->Element_name
            &&& attributes == before->Element_attributes
            &&& children.len() == before->Element_children.len()
        },
{
    lemma_cased_at(node, path, case, 0);
}

/// Where nothing is selected below the first `upto` siblings, nothing is
/// selected below any one of them.
proof fn lemma_select_among_empty(nodes: Seq<NodeView>, tag: Seq<char>, upto: nat, i: int)
    requires
        upto <= nodes.len(),
        select_among(nodes, tag, upto).len() == 0,
        0 <= i < upto,
    ensures
        select_spec(nodes[i], tag).len() == 0,
    decreases upto,
{
    if i < upto - 1 {
        lemma_select_among_empty(nodes, tag, (upto - 1) as nat, i);
    }
}

/// A tree without a paragraph element is left as it is.
pub proof fn lemma_no_paragraph_unchanged(node: NodeView, case: TransformType)
    requires
        select_spec(node, paragraph_tag()).len() == 0,
    ensures
        cased(node, case, 0) == node,
    decreases node,
{
    match node {
        NodeView::Element { name, children, .. } => {
            assert forall|i: int| 0 <= i < children.len() implies cased_all(children, case, 0)[i]
                == children[i] by {
                lemma_select_among_empty(children, paragraph_tag(), children.len(), i);
                lemma_no_paragraph_unchanged(children[i], case);
            }
            assert(cased_all(children, case, 0) =~= children);
        },
        NodeView::Other { children } => {
            assert forall|i: int| 0 <= i < children.len() implies cased_all(children, case, 0)[i]
                == children[i] by {
                lemma_select_among_empty(children, paragraph_tag(), children.len(), i);
                lemma_no_paragraph_unchanged(children[i], case);
            }
            assert(cased_all(children, case, 0) =~= children);
        },
        _ => {},
    }
}

/// An input without a paragraph element comes back as the markup of its
/// body as it was parsed, whichever case is asked for.
pub proof fn lemma_no_paragraphs(html: Seq<char>, case: TransformType)
    requires
        parsed_document(html) matches Some(doc) && select_spec(doc, paragraph_tag()).len()
            == 0,
    ensures
        update_spec(html, case) == body_markup(parsed_document(html)->Some_0),
{
    lemma_no_paragraph_unchanged(parsed_document(html)->Some_0, case);
}

/// A blank input is refused with `EmptyInput`, whichever case is asked
/// for, and no other input is.
pub proof fn lemma_blank_refused(html: Seq<char>, case: TransformType)
    ensures
        is_blank(html) <==> transform_spec(html, case) == Err::<Seq<char>, TransformError>(
            TransformError::EmptyInput,
        ),
{
}

/// Whether parsing `text` gives back `nodes`: a document whose body holds
/// exactly these nodes, and lies in no paragraph element.
pub open spec fn reparses_to(text: Seq<char>, nodes: Seq<NodeView>) -> bool {
    parsed_document(text) matches Some(doc) && addressable(doc) && body_children(doc) == Some(
        nodes,
    ) && paragraphs_above(doc, select_spec(doc, body_tag())[0]) == 0
}

/// Writing a transformed document and transforming what was written once
/// more, to the same case, gives what was written. This holds where
/// parsing the output gives back the nodes that it was written from, and
/// where the case mapping maps its own results to themselves.
pub proof fn lemma_update_idempotent(html: Seq<char>, out: Seq<char>, case: TransformType)
    requires
        update_spec(html, case) == Ok::<Seq<char>, TransformError>(out),
        addressable(parsed_document(html)->Some_0),
        reparses_to(out, body_children(cased(parsed_document(html)->Some_0, case, 0))->Some_0),
        idempotent(case),
    ensures
        update_spec(out, case) == Ok::<Seq<char>, TransformError>(out),
{
    let doc = parsed_document(html)->Some_0;
    let again = parsed_document(out)->Some_0;
    lemma_body_of_transform(doc, case);
    lemma_transform_of_body(again, case);
    let below = paragraphs_above(doc, select_spec(doc, body_tag())[0]);
    lemma_cased_all_again(body_children(doc)->Some_0, case, below, 0);
}

/// The same of the whole way from markup to markup, where the output is
/// not blank: a blank output is refused when it is handed in again.
pub proof fn lemma_transform_idempotent(html: Seq<char>, out: Seq<char>, case: TransformType)
    requires
        transform_spec(html, case) == Ok::<Seq<char>, TransformError>(out),
        !is_blank(out),
        addressable(parsed_document(html)->Some_0),
        reparses_to(out, body_children(cased(parsed_document(html)->Some_0, case, 0))->Some_0),
        idempotent(case),
    ensures
        transform_spec(out, case) == Ok::<Seq<char>, TransformError>(out),
{
    lemma_update_idempotent(html, out, case);
}

} // verus!
