//! The transform engine: the functions that rewrite a tree in place, and
//! the whole way from markup to markup.

use vstd::prelude::*;
use crate::case::{
    case_of, cased, cased_all, lemma_cased_at, lemma_cased_well_formed,
    lemma_recased_well_formed, lemma_select_kept, paragraph_tag, paragraphs_above, recased,
    recased_all, rewritten, TransformType,
};
use crate::dom::{
    addressable, all_well_formed, lemma_view_addressable, node_views, Document, Node, NodeView,
};
use crate::error::TransformError;
use crate::markup::{markup_all, parse, parsed_document, serialize_children};
use crate::passes::{lemma_select_then_rewrite, rewritten_at, rewritten_through};
use crate::select::{lemma_select_valid, lemma_well_formed_at, node_at, path_views, select_spec};
use crate::text::{blank, is_blank, to_lowercase, to_uppercase};

verus! {

/// The text `s` in the case that `case` asks for.
pub fn convert_case(s: &str, case: &TransformType) -> (out: String)
    ensures
        out@ == case_of(*case, s@),
{
    match case {
        TransformType::Uppercase => to_uppercase(s),
        TransformType::Lowercase => to_lowercase(s),
    }
}

/// Rewrites, in place, every text node below `node` to the given case: each
/// child that is text gets its content replaced, and each other child is
/// entered in turn, however deep. Tags, attributes and comments stay as
/// they are, and so does `node` itself.
pub fn set_case_text_nodes(node: &mut Node, case: &TransformType)
    ensures
        final(node)@ == rewritten(old(node)@, *case),
        final(node)@.well_formed() == old(node)@.well_formed(),
    decreases *old(node),
{
    let ghost before = *node;
    proof {
        lemma_recased_well_formed(before@, *case);
    }
    match node {
        Node::Element { children, .. } => {
            let ghost kids = children@;
            let mut i: usize = 0;
            while i < children.len()
                invariant
                    i <= children.len(),
                    before == *old(node),
                    before matches Node::Element { children: c, .. } && c@ == kids,
                    children@.len() == kids.len(),
                    forall|j: int|
                        0 <= j < i ==> (#[trigger] children@[j])@ == recased(kids[j]@, *case),
                    forall|j: int| i <= j < kids.len() ==> #[trigger] children@[j] == kids[j],
                decreases children.len() - i,
            {
                let child = &mut children[i];
                match child {
                    Node::Text { content } => {
                        let fresh = convert_case(content.as_str(), case);
                        *content = fresh;
                    },
                    _ => {
                        set_case_text_nodes(child, case);
                    },
                }
                i = i + 1;
            }
        },
        _ => {},
    }
    proof {
        if before is Element {
            let kids = before->children@;
            let after = node->children@;
            assert forall|j: int| 0 <= j < kids.len() implies node_views(after)[j] == recased_all(
                node_views(kids),
                *case,
            )[j] by {}
            assert(node_views(after) =~= recased_all(node_views(kids), *case));
        }
    }
}

/// One pass: rewrites, in place, the text below the node that `path` leads
/// to from `node`, where `path` is read from position `from` on. A path
/// that leads nowhere changes nothing.
fn rewrite_at(node: &mut Node, path: &Vec<usize>, from: usize, case: &TransformType)
    requires
        from <= path.len(),
    ensures
        final(node)@ == rewritten_at(old(node)@, path@.skip(from as int), *case),
    decreases path.len() - from,
{
    if from == path.len() {
        set_case_text_nodes(node, case);
        return;
    }
    let ghost before = *node;
    let ghost rest = path@.skip(from as int);
    let i: usize = path[from];
    proof {
        assert(rest.drop_first() == path@.skip(from + 1));
    }
    match node {
        Node::Element { children, .. } => {
            if i < children.len() {
                rewrite_at(&mut children[i], path, from + 1, case);
            }
        },
        _ => {},
    }
    proof {
        if before is Element {
            let kids = before->children@;
            let after = node->children@;
            assert(node@.children() == node_views(after));
            if i < kids.len() {
                assert(node_views(after) =~= node_views(kids).update(i as int, after[i as int]@));
            }
        }
    }
}

/// Rewrites, in place, the text of every paragraph of the document. The
/// paragraph elements are selected first; then, for each of them in
/// document order, the text below it is rewritten, however deep it lies.
/// So every text node ends up rewritten once for each paragraph element
/// that it lies in, and no other node changes.
pub fn apply_case(doc: &mut Document, case: &TransformType)
    ensures
        final(doc)@ == cased(old(doc)@, *case, 0),
        final(doc)@.well_formed() == old(doc)@.well_formed(),
{
    let targets = doc.select("p");
    proof {
        reveal_strlit("p");
        assert("p"@ =~= paragraph_tag());
    }
    let ghost paths = select_spec(doc@, paragraph_tag());
    let mut i: usize = 0;
    while i < targets.len()
        invariant
            i <= targets.len(),
            paths == path_views(targets@),
            doc@ == rewritten_through(old(doc)@, paths, i as nat, *case),
        decreases targets.len() - i,
    {
        assert(targets@[i as int]@.skip(0) == targets@[i as int]@);
        rewrite_at(&mut doc.root, &targets[i], 0, case);
        i = i + 1;
    }
    proof {
        lemma_view_addressable(old(doc).root);
        lemma_select_then_rewrite(old(doc)@, *case);
        lemma_cased_well_formed(old(doc)@, *case, 0);
    }
}

/// The tag of the body element.
pub open spec fn body_tag() -> Seq<char> {
    seq!['b', 'o', 'd', 'y']
}

/// The children of the body of a document: of the first element, in
/// document order, whose tag is `body`. `None` when there is no such
/// element.
pub open spec fn body_children(doc: NodeView) -> Option<Seq<NodeView>> {
    let bodies = select_spec(doc, body_tag());
    if bodies.len() == 0 {
        None
    } else {
        match node_at(doc, bodies[0]) {
            Some(body) => Some(body.children()),
            None => None,
        }
    }
}

/// Whether the document has a body element.
pub open spec fn has_body(doc: NodeView) -> bool {
    select_spec(doc, body_tag()).len() > 0
}

/// A document has a body element exactly when its body has children to
/// give, be they none.
pub proof fn lemma_body_found(doc: NodeView)
    requires
        addressable(doc),
    ensures
        body_children(doc) is Some <==> has_body(doc),
{
    if has_body(doc) {
        lemma_select_valid(doc, body_tag(), 0);
    }
}

/// The markup of what the body of a document holds. It is owed whenever
/// the document has a body and is well formed there.
pub open spec fn body_markup(doc: NodeView) -> Result<Seq<char>, TransformError> {
    match body_children(doc) {
        None => Err(TransformError::BodyNotFound),
        Some(nodes) => if all_well_formed(nodes) {
            Ok(markup_all(nodes))
        } else {
            Err(TransformError::SerializationError)
        },
    }
}

/// The transform leaves the body where it was, and what the body holds
/// afterwards is the transform of what it held.
pub proof fn lemma_body_of_transform(doc: NodeView, case: TransformType)
    requires
        addressable(doc),
    ensures
        body_children(cased(doc, case, 0)) == match body_children(doc) {
            None => None::<Seq<NodeView>>,
            Some(nodes) => Some(
                cased_all(nodes, case, paragraphs_above(doc, select_spec(doc, body_tag())[0])),
            ),
        },
{
    lemma_select_kept(doc, body_tag(), case, 0);
    if has_body(doc) {
        lemma_select_valid(doc, body_tag(), 0);
        lemma_cased_at(doc, select_spec(doc, body_tag())[0], case, 0);
    }
}

/// For a well-formed document, the transform fails only where there is no
/// body, and where there is one it gives the markup of the transformed
/// children of the body: a document that has been parsed is always
/// written.
pub proof fn lemma_transform_of_body(doc: NodeView, case: TransformType)
    requires
        addressable(doc),
        doc.well_formed(),
    ensures
        match body_children(doc) {
            None => body_markup(cased(doc, case, 0)) == Err::<Seq<char>, TransformError>(
                TransformError::BodyNotFound,
            ),
            Some(nodes) => body_markup(cased(doc, case, 0)) == Ok::<Seq<char>, TransformError>(
                markup_all(
                    cased_all(
                        nodes,
                        case,
                        paragraphs_above(doc, select_spec(doc, body_tag())[0]),
                    ),
                ),
            ),
        },
{
    lemma_body_of_transform(doc, case);
    if has_body(doc) {
        let path = select_spec(doc, body_tag())[0];
        lemma_select_valid(doc, body_tag(), 0);
        lemma_cased_at(doc, path, case, 0);
        lemma_cased_well_formed(doc, case, 0);
        lemma_well_formed_at(cased(doc, case, 0), path);
    }
}

/// What [`update_p_elements`] returns for the text `html`: the markup of
/// the body, after the transform of the document that `html` parses to.
pub open spec fn update_spec(html: Seq<char>, case: TransformType) -> Result<
    Seq<char>,
    TransformError,
> {
    match parsed_document(html) {
        None => Err(TransformError::ParseError),
        Some(doc) => body_markup(cased(doc, case, 0)),
    }
}

/// What [`transform`] returns for the text `html`.
pub open spec fn transform_spec(html: Seq<char>, case: TransformType) -> Result<
    Seq<char>,
    TransformError,
> {
    if is_blank(html) {
        Err(TransformError::EmptyInput)
    } else {
        update_spec(html, case)
    }
}

/// Whether the result `r` is the one that `expected` describes.
pub open spec fn result_is(
    r: Result<String, TransformError>,
    expected: Result<Seq<char>, TransformError>,
) -> bool {
    match (r, expected) {
        (Ok(out), Ok(text)) => out@ == text,
        (Err(e), Err(f)) => e == f,
        _ => false,
    }
}

/// A request: the fragment to rewrite, and the case to rewrite it to.
#[derive(Debug, PartialEq, Eq)]
pub struct TransformRequest {
    pub transform: TransformType,
    pub html: String,
}

impl TransformRequest {
    /// Accepts the request unless its HTML is blank: empty, or white space
    /// only.
    pub fn validate(&self) -> (r: Result<(), TransformError>)
        ensures
            is_blank(self.html@) ==> r == Err::<(), TransformError>(TransformError::EmptyInput),
            !is_blank(self.html@) ==> r == Ok::<(), TransformError>(()),
    {
        if blank(self.html.as_str()) {
            Err(TransformError::EmptyInput)
        } else {
            Ok(())
        }
    }
}

/// Writes what the body of the document holds as markup. The body is the
/// first element, in document order, whose tag is `body`; without one the
/// error is `BodyNotFound`. See [`serialize_children`] for the other error.
pub fn render_body(doc: &Document) -> (r: Result<String, TransformError>)
    ensures
        result_is(r, body_markup(doc@)),
        r == Err::<String, TransformError>(TransformError::BodyNotFound) <==> !has_body(doc@),
{
    let bodies = doc.select("body");
    proof {
        reveal_strlit("body");
        assert("body"@ =~= body_tag());
        lemma_view_addressable(doc.root);
        lemma_body_found(doc@);
    }
    if bodies.len() == 0 {
        return Err(TransformError::BodyNotFound);
    }
    match doc.node_at(&bodies[0]) {
        Some(Node::Element { children, .. }) => serialize_children(children),
        Some(_) => {
            let nothing: Vec<Node> = Vec::new();
            serialize_children(&nothing)
        },
        None => Err(TransformError::BodyNotFound),
    }
}

/// Parses `html`, rewrites the text of its paragraphs to the given case,
/// and returns the markup of what the body then holds. There is a result
/// whenever `html` parses to a document and the document has a body; the
/// two errors are `ParseError` and `BodyNotFound`, for the one and for the
/// other missing.
pub fn update_p_elements(html: &str, case: &TransformType) -> (r: Result<String, TransformError>)
    ensures
        result_is(r, update_spec(html@, *case)),
        match parsed_document(html@) {
            None => r == Err::<String, TransformError>(TransformError::ParseError),
            Some(doc) => if has_body(doc) {
                r is Ok
            } else {
                r == Err::<String, TransformError>(TransformError::BodyNotFound)
            },
        },
{
    let mut doc = match parse(html) {
        Ok(doc) => doc,
        Err(e) => {
            return Err(e);
        },
    };
    proof {
        lemma_view_addressable(doc.root);
        lemma_body_found(doc@);
        lemma_transform_of_body(doc@, *case);
    }
    apply_case(&mut doc, case);
    render_body(&doc)
}

/// Rewrites the text of every paragraph of an HTML fragment to the given
/// case, and returns the fragment as markup. Markup, attributes and the
/// text outside paragraphs stay as they are, up to the normal form in
/// which the parser and the writer put them. A blank input is refused
/// with `EmptyInput`, whatever the case asked for; for any other input the
/// outcome is that of [`update_p_elements`].
pub fn transform(html: &str, case: &TransformType) -> (r: Result<String, TransformError>)
    ensures
        result_is(r, transform_spec(html@, *case)),
        is_blank(html@) <==> r == Err::<String, TransformError>(TransformError::EmptyInput),
        !is_blank(html@) ==> match parsed_document(html@) {
            None => r == Err::<String, TransformError>(TransformError::ParseError),
            Some(doc) => if has_body(doc) {
                r is Ok
            } else {
                r == Err::<String, TransformError>(TransformError::BodyNotFound)
            },
        },
{
    if blank(html) {
        Err(TransformError::EmptyInput)
    } else {
        update_p_elements(html, case)
    }
}

} // verus!
