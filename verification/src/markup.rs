//! Reading and writing markup. Both are the work of kuchikiki; this module
//! moves trees between its nodes and the document model.

use vstd::prelude::*;
use vstd::string::*;
use vstd::utf8::encode_utf8;
use kuchikiki::traits::TendrilSink;
use crate::dom::{
    all_well_formed, attribute_views, distinct_keys, node_views, Attribute, Document, Node,
    NodeView,
};
use crate::error::TransformError;

verus! {

/// kuchikiki's handle on a node of its own tree. Nothing inside it is
/// visible here: what it stands for is [`tree_of`].
#[verifier::external_type_specification]
#[verifier::external_body]
pub struct ExNodeRef(kuchikiki::NodeRef);

/// The tree that a kuchikiki node is the root of. The kind is that of the
/// node's data; an element has the namespace and the local name of its
/// name, and the entries of its attribute map in the order of the map,
/// each as namespace, local name and value; text and comments have their
/// content; the children are the trees of the node's children, in order.
/// A node of a kind other than element, text and comment is `Other`.
pub uninterp spec fn tree_of(node: kuchikiki::NodeRef) -> NodeView;

/// Whether a kuchikiki node stands in no tree: it has no parent. It is
/// known of the nodes that this module makes, and of no other.
pub uninterp spec fn detached(node: kuchikiki::NodeRef) -> bool;

/// The tree that kuchikiki's HTML parser builds for the text `html`, from
/// the document node down.
pub uninterp spec fn parsed_tree(html: Seq<char>) -> NodeView;

/// The longest text, counted in bytes, that is handed to the parser. The
/// parser collects what it reads in buffers that cannot grow beyond 2^31
/// bytes, and may write three bytes for one that it reads, U+FFFD for a NUL
/// character. A third of 2^31 bytes is therefore the most that it takes
/// whatever they hold.
pub const MAX_INPUT_BYTES: usize = 715827882;

/// Whether the text `html` is short enough for the parser.
pub open spec fn parseable(html: Seq<char>) -> bool {
    encode_utf8(html).len() <= MAX_INPUT_BYTES
}

/// The markup that kuchikiki writes for the node at the root of `tree`.
pub uninterp spec fn markup_of(tree: NodeView) -> Seq<char>;

/// `tree` without its attributes and its children.
pub open spec fn shell_of(tree: NodeView) -> NodeView {
    match tree {
        NodeView::Element { namespace, name, .. } => NodeView::Element {
            namespace,
            name,
            attributes: Seq::empty(),
            children: Seq::empty(),
        },
        _ => tree,
    }
}

/// `tree`, an element, with one more child at the end.
pub open spec fn with_child(tree: NodeView, child: NodeView) -> NodeView {
    match tree {
        NodeView::Element { namespace, name, attributes, children } => NodeView::Element {
            namespace,
            name,
            attributes,
            children: children.push(child),
        },
        _ => tree,
    }
}

/// Calls `kuchikiki::parse_html().one(html)`, which parses a whole document
/// and gives a tree for every text: what cannot be read as markup becomes
/// text. The call copies `html` into a tendril and collects names, values
/// and comments in others; a tendril panics where it is to hold more than
/// a 32-bit length counts, or to grow beyond 2^31 bytes. A text that could
/// lead there is left out. Trusted: the tree of the node returned is the
/// one that [`parsed_tree`] names.
#[verifier::external_body]
fn parse_document(html: &str) -> (root: kuchikiki::NodeRef)
    requires
        parseable(html@),
    ensures
        tree_of(root) == parsed_tree(html@),
{
    kuchikiki::parse_html().one(html)
}

/// Reads `Node::data` of a kuchikiki node. Trusted: an element, a text node
/// or a comment comes back as the same kind of node of the document model,
/// with the namespace and name or the text that kuchikiki holds, and
/// without attributes and children. A node of any other kind gives `None`.
#[verifier::external_body]
fn node_shell(node: &kuchikiki::NodeRef) -> (shell: Option<Node>)
    ensures
        match shell {
            Some(s) => s@ == shell_of(tree_of(*node)) && !(tree_of(*node) is Other),
            None => tree_of(*node) is Other,
        },
{
    match node.data() {
        kuchikiki::NodeData::Element(e) => Some(Node::Element {
            namespace: e.name.ns.to_string(),
            name: e.name.local.to_string(),
            attributes: Vec::new(),
            children: Vec::new(),
        }),
        kuchikiki::NodeData::Text(t) => Some(Node::Text { content: t.borrow().clone() }),
        kuchikiki::NodeData::Comment(t) => Some(Node::Comment { content: t.borrow().clone() }),
        _ => None,
    }
}

/// Reads the attributes of a kuchikiki element through `Node::as_element`.
/// Trusted: they come with their namespaces, names and values, in the
/// order of kuchikiki's map, whose keys are unique. A node that is no
/// element gives an empty vector.
#[verifier::external_body]
fn node_attributes(node: &kuchikiki::NodeRef) -> (attributes: Vec<Attribute>)
    ensures
        tree_of(*node) matches NodeView::Element { attributes: held, .. } ==> attribute_views(
            attributes@,
        ) == held,
        distinct_keys(attribute_views(attributes@)),
{
    match node.as_element() {
        Some(e) => e.attributes.borrow().map.iter().map(|(k, a)| Attribute {
            namespace: k.ns.to_string(),
            name: k.local.to_string(),
            value: a.value.clone(),
        }).collect(),
        None => Vec::new(),
    }
}

/// Calls `NodeRef::children`. Trusted: for an element or a document node,
/// the nodes come in order and stand for the children of the node's tree.
/// They stand in that tree, so nothing says that they are detached: they
/// can be read, and neither appended nor appended to.
#[verifier::external_body]
fn node_children(node: &kuchikiki::NodeRef) -> (children: Vec<kuchikiki::NodeRef>)
    ensures
        tree_of(*node) is Element || tree_of(*node) is Other ==> {
            &&& children@.len() == tree_of(*node).children().len()
            &&& forall|i: int|
                0 <= i < children@.len() ==> tree_of(#[trigger] children@[i]) == tree_of(
                    *node,
                ).children()[i]
        },
{
    node.children().collect()
}

/// Calls `NodeRef::new_text`. Trusted: the new node is a text node with
/// this content, and stands in no tree.
#[verifier::external_body]
fn new_text(content: &str) -> (node: kuchikiki::NodeRef)
    ensures
        tree_of(node) == (NodeView::Text { content: content@ }),
        detached(node),
{
    kuchikiki::NodeRef::new_text(content)
}

/// Calls `NodeRef::new_comment`. Trusted: the new node is a comment with
/// this content, and stands in no tree.
#[verifier::external_body]
fn new_comment(content: &str) -> (node: kuchikiki::NodeRef)
    ensures
        tree_of(node) == (NodeView::Comment { content: content@ }),
        detached(node),
{
    kuchikiki::NodeRef::new_comment(content)
}

/// Calls `NodeRef::new_element`. Trusted: the new node is an element
/// without children that has this namespace, name and attributes, and
/// stands in no tree. kuchikiki collects the attributes into an `IndexMap`,
/// so their keys must be unique for all of them to arrive, in this order.
#[verifier::external_body]
fn new_element(namespace: &str, name: &str, attributes: &Vec<Attribute>) -> (node:
    kuchikiki::NodeRef)
    requires
        distinct_keys(attribute_views(attributes@)),
    ensures
        tree_of(node) == (NodeView::Element {
            namespace: namespace@,
            name: name@,
            attributes: attribute_views(attributes@),
            children: Seq::empty(),
        }),
        detached(node),
{
    kuchikiki::NodeRef::new_element(
        html5ever::QualName::new(None, namespace.into(), name.into()),
        attributes.iter().map(|a| (
            kuchikiki::ExpandedName::new(a.namespace.as_str(), a.name.as_str()),
            kuchikiki::Attribute { prefix: None, value: a.value.clone() },
        )),
    )
}

/// Calls `NodeRef::append`, which takes `child` out of the tree it stands
/// in, if any, and makes it the last child of `parent`. Only nodes that
/// stand in no tree are let in, as those that were just made do: for them
/// nothing is taken out anywhere, and neither node lies below the other.
/// This module holds one handle on each node that it makes, so that the
/// two are different nodes. Trusted: the tree of `parent` then gains the
/// tree of `child` at the end of its children, and `parent` still stands
/// in no tree.
#[verifier::external_body]
fn append_child(parent: &mut kuchikiki::NodeRef, child: kuchikiki::NodeRef)
    requires
        tree_of(*old(parent)) is Element,
        detached(*old(parent)),
        detached(child),
    ensures
        tree_of(*final(parent)) == with_child(tree_of(*old(parent)), tree_of(child)),
        detached(*final(parent)),
{
    parent.append(child)
}

/// Calls `to_string` on a kuchikiki node, which writes the node and what
/// is below it as HTML. Trusted: for a tree of elements, text and comments
/// the markup depends on that tree alone, and is what [`markup_of`] names.
#[verifier::external_body]
fn node_to_string(node: &kuchikiki::NodeRef) -> (out: String)
    requires
        tree_of(*node).well_formed(),
    ensures
        out@ == markup_of(tree_of(*node)),
{
    node.to_string()
}

/// Copies the tree below a kuchikiki node into the document model. There
/// is a copy exactly when the tree is well formed; of what kuchikiki holds,
/// that is a tree of elements, text and comments only.
fn import_node(node: &kuchikiki::NodeRef) -> (copy: Option<Node>)
    ensures
        match copy {
            Some(n) => n@ == tree_of(*node) && n@.well_formed(),
            None => !tree_of(*node).well_formed(),
        },
    decreases tree_of(*node),
{
    match node_shell(node) {
        None => None,
        Some(Node::Element { namespace, name, .. }) => {
            let ghost tree = tree_of(*node);
            let attributes = node_attributes(node);
            let kids = node_children(node);
            let mut children: Vec<Node> = Vec::new();
            let mut i: usize = 0;
            while i < kids.len()
                invariant
                    i <= kids.len(),
                    tree == tree_of(*node),
                    tree is Element,
                    kids@.len() == tree.children().len(),
                    forall|j: int|
                        0 <= j < kids@.len() ==> tree_of(#[trigger] kids@[j]) == tree.children()[j],
                    children@.len() == i,
                    forall|j: int|
                        0 <= j < i ==> (#[trigger] children@[j])@ == tree.children()[j]
                            && tree.children()[j].well_formed(),
                decreases kids.len() - i,
            {
                match import_node(&kids[i]) {
                    Some(child) => {
                        children.push(child);
                    },
                    None => {
                        return None;
                    },
                }
                i = i + 1;
            }
            proof {
                assert(node_views(children@) =~= tree.children());
            }
            Some(Node::Element { namespace, name, attributes, children })
        },
        Some(leaf) => Some(leaf),
    }
}

/// Builds the kuchikiki tree of a node of the document model, out of
/// nodes made for it.
fn export_node(node: &Node) -> (copy: kuchikiki::NodeRef)
    requires
        node@.well_formed(),
    ensures
        tree_of(copy) == node@,
        detached(copy),
    decreases node,
{
    match node {
        Node::Element { namespace, name, attributes, children } => {
            let mut element = new_element(namespace.as_str(), name.as_str(), attributes);
            let mut i: usize = 0;
            assert(node_views(children@).take(0) =~= Seq::empty());
            while i < children.len()
                invariant
                    i <= children.len(),
                    node matches Node::Element { children: c, .. } && c == children,
                    all_well_formed(node_views(children@)),
                    detached(element),
                    tree_of(element) == (NodeView::Element {
                        namespace: namespace@,
                        name: name@,
                        attributes: attribute_views(attributes@),
                        children: node_views(children@).take(i as int),
                    }),
                decreases children.len() - i,
            {
                proof {
                    assert(node_views(children@)[i as int] == children@[i as int]@);
                    assert(node_views(children@).take(i as int).push(children@[i as int]@)
                        =~= node_views(children@).take(i + 1));
                }
                let child = export_node(&children[i]);
                append_child(&mut element, child);
                i = i + 1;
            }
            proof {
                assert(node_views(children@).take(i as int) =~= node_views(children@));
            }
            element
        },
        Node::Text { content } => new_text(content.as_str()),
        Node::Comment { content } => new_comment(content.as_str()),
    }
}

/// The first element among `nodes`, from position `from` on.
pub open spec fn first_element(nodes: Seq<NodeView>, from: nat) -> Option<NodeView>
    decreases nodes.len() - from,
{
    if from >= nodes.len() {
        None
    } else if nodes[from as int] is Element {
        Some(nodes[from as int])
    } else {
        first_element(nodes, from + 1)
    }
}

/// The document that a parsed tree holds: its document element, the first
/// element below the root, provided that this element is well formed.
pub open spec fn document_of(tree: NodeView) -> Option<NodeView> {
    match first_element(tree.children(), 0) {
        Some(element) => if element.well_formed() {
            Some(element)
        } else {
            None
        },
        None => None,
    }
}

/// The document that the text `html` parses to, if there is one: there is
/// none for a text too long for the parser, nor for one whose tree holds
/// no document.
pub open spec fn parsed_document(html: Seq<char>) -> Option<NodeView> {
    if parseable(html) {
        document_of(parsed_tree(html))
    } else {
        None
    }
}

/// The markup of a sequence of nodes: that of each node, in order, with
/// nothing between them.
pub open spec fn markup_all(nodes: Seq<NodeView>) -> Seq<char>
    decreases nodes.len(),
{
    if nodes.len() == 0 {
        Seq::empty()
    } else {
        markup_all(nodes.drop_last()) + markup_of(nodes.last())
    }
}

/// Copies a tree that kuchikiki holds into a document: the document
/// element, which is the first element below `root`, with all that is
/// below it. The one error is `ParseError`, for a tree without a document
/// element or with a node below it that the document model has no variant
/// for.
pub fn import_document(root: &kuchikiki::NodeRef) -> (r: Result<Document, TransformError>)
    ensures
        match r {
            Ok(doc) => document_of(tree_of(*root)) == Some(doc@) && doc@.well_formed(),
            Err(e) => e == TransformError::ParseError && document_of(tree_of(*root)) is None,
        },
{
    match node_shell(root) {
        Some(Node::Text { .. }) => {
            return Err(TransformError::ParseError);
        },
        Some(Node::Comment { .. }) => {
            return Err(TransformError::ParseError);
        },
        _ => {},
    }
    let kids = node_children(root);
    let ghost tops = tree_of(*root).children();
    let mut i: usize = 0;
    while i < kids.len()
        invariant
            i <= kids.len(),
            tops == tree_of(*root).children(),
            kids@.len() == tops.len(),
            forall|j: int| 0 <= j < kids@.len() ==> tree_of(#[trigger] kids@[j]) == tops[j],
            first_element(tops, 0) == first_element(tops, i as nat),
        decreases kids.len() - i,
    {
        match node_shell(&kids[i]) {
            Some(Node::Element { .. }) => {
                return match import_node(&kids[i]) {
                    Some(element) => Ok(Document { root: element }),
                    None => Err(TransformError::ParseError),
                };
            },
            _ => {},
        }
        i = i + 1;
    }
    Err(TransformError::ParseError)
}

/// Parses an HTML fragment, or a whole document, into a document. The
/// parser is forgiving: tags left open are closed, stray closing tags are
/// passed over, and a bare fragment is put into the body of a document
/// made for it. The result is the document element of the tree that
/// kuchikiki builds for `html`. The one error is `ParseError`: for a text
/// of more than [`MAX_INPUT_BYTES`] bytes, which is not handed to the
/// parser, and for a tree that [`import_document`] refuses.
pub fn parse(html: &str) -> (r: Result<Document, TransformError>)
    ensures
        match r {
            Ok(doc) => parsed_document(html@) == Some(doc@) && doc@.well_formed(),
            Err(e) => e == TransformError::ParseError && parsed_document(html@) is None,
        },
{
    if html.as_bytes().len() > MAX_INPUT_BYTES {
        return Err(TransformError::ParseError);
    }
    let root = parse_document(html);
    import_document(&root)
}

/// Writes a sequence of nodes as markup, one after the other. An element
/// is written as its start tag with its attributes, its children, and its
/// end tag, which a void element such as `br` or `img` does not have; text
/// and attribute values are escaped as their place requires. The one error
/// is `SerializationError`, for a tree in which some element has two
/// attributes with one key.
pub fn serialize_children(nodes: &Vec<Node>) -> (r: Result<String, TransformError>)
    ensures
        match r {
            Ok(out) => all_well_formed(node_views(nodes@)) && out@ == markup_all(
                node_views(nodes@),
            ),
            Err(e) => e == TransformError::SerializationError && !all_well_formed(
                node_views(nodes@),
            ),
        },
{
    let mut out = String::new();
    let mut i: usize = 0;
    while i < nodes.len()
        invariant
            i <= nodes.len(),
            all_well_formed(node_views(nodes@).take(i as int)),
            out@ == markup_all(node_views(nodes@).take(i as int)),
        decreases nodes.len() - i,
    {
        proof {
            let done = node_views(nodes@).take(i + 1);
            assert(done.drop_last() =~= node_views(nodes@).take(i as int));
            assert(done.last() == nodes@[i as int]@);
        }
        if !nodes[i].is_well_formed() {
            return Err(TransformError::SerializationError);
        }
        let copy = export_node(&nodes[i]);
        let piece = node_to_string(&copy);
        out.append(piece.as_str());
        i = i + 1;
    }
    proof {
        assert(node_views(nodes@).take(i as int) =~= node_views(nodes@));
    }
    Ok(out)
}

} // verus!
