//! The document model: an owned tree of elements, text runs and comments.

use vstd::prelude::*;

verus! {

/// One attribute of an element. Its key is the pair of namespace and name;
/// the namespace is the empty string for an ordinary HTML attribute.
#[derive(Debug, PartialEq, Eq)]
pub struct Attribute {
    pub namespace: String,
    pub name: String,
    pub value: String,
}

/// The mathematical value of an [`Attribute`].
pub struct AttributeView {
    pub namespace: Seq<char>,
    pub name: Seq<char>,
    pub value: Seq<char>,
}

impl View for Attribute {
    type V = AttributeView;

    open spec fn view(&self) -> AttributeView {
        AttributeView { namespace: self.namespace@, name: self.name@, value: self.value@ }
    }
}

/// A node of the tree. A node lives in the child sequence of exactly one
/// parent, and the order of that sequence is the order of the markup.
#[derive(Debug, PartialEq, Eq)]
pub enum Node {
    /// A tag with its attributes, in the order they were written, and its
    /// children.
    Element { namespace: String, name: String, attributes: Vec<Attribute>, children: Vec<Node> },
    /// A run of character data, unescaped.
    Text { content: String },
    /// A comment, carried through unchanged.
    Comment { content: String },
}

/// The mathematical value of a tree.
///
/// `Other` stands for a node of a kind that [`Node`] has no variant for (a
/// document root, a doctype); no `Node` has such a view.
pub enum NodeView {
    Element {
        namespace: Seq<char>,
        name: Seq<char>,
        attributes: Seq<AttributeView>,
        children: Seq<NodeView>,
    },
    Text { content: Seq<char> },
    Comment { content: Seq<char> },
    Other { children: Seq<NodeView> },
}

/// The views of a sequence of attributes, in order.
pub open spec fn attribute_views(attributes: Seq<Attribute>) -> Seq<AttributeView> {
    Seq::new(attributes.len(), |i: int| attributes[i]@)
}

/// The views of a sequence of nodes, in order.
pub open spec fn node_views(nodes: Seq<Node>) -> Seq<NodeView>
    decreases nodes,
{
    Seq::new(
        nodes.len(),
        |i: int|
            if 0 <= i < nodes.len() {
                nodes[i]@
            } else {
                arbitrary()
            },
    )
}

impl View for Node {
    type V = NodeView;

    open spec fn view(&self) -> NodeView
        decreases self,
    {
        match self {
            Node::Element { namespace, name, attributes, children } => NodeView::Element {
                namespace: namespace@,
                name: name@,
                attributes: attribute_views(attributes@),
                children: node_views(children@),
            },
            Node::Text { content } => NodeView::Text { content: content@ },
            Node::Comment { content } => NodeView::Comment { content: content@ },
        }
    }
}

/// No two attributes of the sequence share a key.
pub open spec fn distinct_keys(attributes: Seq<AttributeView>) -> bool {
    forall|i: int, j: int|
        0 <= i < j < attributes.len() ==> !(#[trigger] attributes[i].namespace
            == #[trigger] attributes[j].namespace && attributes[i].name == attributes[j].name)
}

/// Every node of the sequence is well formed.
pub open spec fn all_well_formed(nodes: Seq<NodeView>) -> bool
    decreases nodes,
{
    forall|i: int| 0 <= i < nodes.len() ==> (#[trigger] nodes[i]).well_formed()
}

impl NodeView {
    /// The child sequence of an element (or of a node of another kind that
    /// has one); empty for text and comments.
    pub open spec fn children(self) -> Seq<NodeView> {
        match self {
            NodeView::Element { children, .. } => children,
            NodeView::Other { children } => children,
            _ => Seq::empty(),
        }
    }

    /// The invariant of a tree that can be written as markup: it holds
    /// elements, text and comments only, and within each element the
    /// attribute keys are unique.
    pub open spec fn well_formed(self) -> bool
        decreases self,
    {
        match self {
            NodeView::Element { attributes, children, .. } => distinct_keys(attributes)
                && all_well_formed(children),
            NodeView::Text { .. } => true,
            NodeView::Comment { .. } => true,
            NodeView::Other { .. } => false,
        }
    }
}

/// A parsed document: the owner of its tree. `root` is the document
/// element, below which the head and the body hang.
#[derive(Debug, PartialEq, Eq)]
pub struct Document {
    pub root: Node,
}

impl View for Document {
    type V = NodeView;

    open spec fn view(&self) -> NodeView {
        self.root@
    }
}

impl Attribute {
    /// Whether the two attributes have one key.
    pub fn same_key(&self, other: &Attribute) -> (same: bool)
        ensures
            same == (self@.namespace == other@.namespace && self@.name == other@.name),
    {
        self.namespace == other.namespace && self.name == other.name
    }
}

/// Whether no two of the attributes share a key.
fn has_distinct_keys(attributes: &Vec<Attribute>) -> (distinct: bool)
    ensures
        distinct == distinct_keys(attribute_views(attributes@)),
{
    let mut j: usize = 0;
    while j < attributes.len()
        invariant
            j <= attributes.len(),
            forall|a: int, b: int|
                0 <= a < b < j ==> !(#[trigger] attributes@[a]@.namespace
                    == #[trigger] attributes@[b]@.namespace && attributes@[a]@.name
                    == attributes@[b]@.name),
        decreases attributes.len() - j,
    {
        let mut i: usize = 0;
        while i < j
            invariant
                i <= j < attributes.len(),
                forall|a: int|
                    0 <= a < i ==> !(#[trigger] attributes@[a]@.namespace
                        == attributes@[j as int]@.namespace && attributes@[a]@.name
                        == attributes@[j as int]@.name),
            decreases j - i,
        {
            if attributes[i].same_key(&attributes[j]) {
                proof {
                    let views = attribute_views(attributes@);
                    assert(views[i as int].namespace == views[j as int].namespace);
                }
                return false;
            }
            i = i + 1;
        }
        j = j + 1;
    }
    true
}

impl Node {
    /// Whether the tree below this node keeps the invariant of the
    /// document model: within each element, the attribute keys are unique.
    pub fn is_well_formed(&self) -> (ok: bool)
        ensures
            ok == self@.well_formed(),
        decreases self,
    {
        match self {
            Node::Element { attributes, children, .. } => {
                if !has_distinct_keys(attributes) {
                    return false;
                }
                let mut i: usize = 0;
                while i < children.len()
                    invariant
                        i <= children.len(),
                        self matches Node::Element { children: c, .. } && c == children,
                        forall|j: int|
                            0 <= j < i ==> (#[trigger] node_views(children@)[j]).well_formed(),
                    decreases children.len() - i,
                {
                    assert(node_views(children@)[i as int] == children@[i as int]@);
                    if !children[i].is_well_formed() {
                        return false;
                    }
                    i = i + 1;
                }
                assert(all_well_formed(node_views(children@)));
                true
            },
            _ => true,
        }
    }
}

/// No node of the tree has more children than a vector can hold, so that
/// every position among siblings can stand in a path.
pub open spec fn addressable(node: NodeView) -> bool
    decreases node,
{
    match node {
        NodeView::Element { children, .. } => children.len() <= usize::MAX && forall|i: int|
            0 <= i < children.len() ==> addressable(#[trigger] children[i]),
        NodeView::Other { children } => children.len() <= usize::MAX && forall|i: int|
            0 <= i < children.len() ==> addressable(#[trigger] children[i]),
        _ => true,
    }
}

/// The tree of a node that exists in memory is addressable.
pub proof fn lemma_view_addressable(node: Node)
    ensures
        addressable(node@),
    decreases node,
{
    match node {
        Node::Element { children, .. } => {
            assert(children@.len() == children.len());
            assert(node@.children() == node_views(children@));
            assert forall|i: int| 0 <= i < children@.len() implies addressable(
                #[trigger] node_views(children@)[i],
            ) by {
                lemma_view_addressable(children@[i]);
            }
        },
        _ => {},
    }
}

} // verus!
