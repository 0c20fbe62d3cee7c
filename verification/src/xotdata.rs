//! The document tree: its data, its mathematical model and what makes it
//! well formed.

use crate::error::Error;
use crate::id::{NameId, NamespaceId};
use vstd::prelude::*;

verus! {

/// A handle to a node of a tree: the node's position in the tree's table.
#[derive(Clone, Copy, Debug, PartialEq, Eq, Structural, Hash)]
pub struct NodeId(pub usize);

/// An element's name and its attributes, in the order in which they were
/// first set.
#[derive(Debug)]
pub struct Element {
    pub name: NameId,
    pub attributes: Vec<(NameId, String)>,
}

/// What a node of the tree is.
#[derive(Debug)]
pub enum Value {
    Document,
    Element(Element),
    Text(String),
    Comment(String),
}

/// An interned name: a local name in a namespace.
#[derive(Debug)]
pub(crate) struct Name {
    pub(crate) local: String,
    pub(crate) ns: NamespaceId,
}

/// A node as the table holds it.
#[derive(Debug)]
pub(crate) struct NodeRecord {
    pub(crate) value: Value,
    pub(crate) parent: Option<NodeId>,
    pub(crate) children: Vec<NodeId>,
}

/// A document tree with its tables of namespaces and names.
///
/// All nodes live in one table; a node that was created and not yet appended
/// has no parent. The namespace table starts with the empty URI, which
/// stands for "no namespace".
#[derive(Debug)]
pub struct Xot {
    pub(crate) nodes: Vec<NodeRecord>,
    pub(crate) namespaces: Vec<String>,
    pub(crate) names: Vec<Name>,
}

/// The mathematical value of a [`Value`].
pub enum ValueView {
    Document,
    Element { name: NameId, attributes: Seq<(NameId, Seq<char>)> },
    Text(Seq<char>),
    Comment(Seq<char>),
}

/// The mathematical value of an interned name.
pub struct NameView {
    pub local: Seq<char>,
    pub ns: NamespaceId,
}

/// The mathematical value of a node: what it is, its parent and its children
/// in document order.
pub struct NodeView {
    pub value: ValueView,
    pub parent: Option<NodeId>,
    pub children: Seq<NodeId>,
}

/// The mathematical value of a [`Xot`].
pub struct XotView {
    pub nodes: Seq<NodeView>,
    pub namespaces: Seq<Seq<char>>,
    pub names: Seq<NameView>,
}

/// The position of the first `x` in `s`, or the length of `s` if there is
/// none.
pub open spec fn first_index<A>(s: Seq<A>, x: A) -> int
    decreases s.len(),
{
    if s.len() == 0 {
        0
    } else if s[0] == x {
        0
    } else {
        1 + first_index(s.drop_first(), x)
    }
}

/// `first_index` is the one position `i` before which no `x` stands and at
/// which `x` stands, if `i` is inside `s`.
pub proof fn lemma_first_index<A>(s: Seq<A>, x: A, i: int)
    requires
        0 <= i <= s.len(),
        forall|j: int| 0 <= j < i ==> s[j] != x,
        i < s.len() ==> s[i] == x,
    ensures
        first_index(s, x) == i,
    decreases s.len(),
{
    if s.len() != 0 && i != 0 {
        let t = s.drop_first();
        assert forall|j: int| 0 <= j < i - 1 implies t[j] != x by {
            assert(t[j] == s[j + 1]);
        }
        lemma_first_index(t, x, i - 1);
    }
}

/// What `first_index` returns, said without recursion.
pub proof fn lemma_first_index_properties<A>(s: Seq<A>, x: A)
    ensures
        0 <= first_index(s, x) <= s.len(),
        forall|j: int| 0 <= j < first_index(s, x) ==> s[j] != x,
        first_index(s, x) < s.len() ==> s[first_index(s, x)] == x,
        first_index(s, x) < s.len() <==> s.contains(x),
    decreases s.len(),
{
    if s.len() != 0 && s[0] != x {
        let t = s.drop_first();
        lemma_first_index_properties(t, x);
        let k = first_index(t, x);
        assert forall|j: int| 0 <= j < k + 1 implies s[j] != x by {
            if j > 0 {
                assert(s[j] == t[j - 1]);
            }
        }
        if k < t.len() {
            assert(s[k + 1] == t[k]);
        }
        if s.contains(x) {
            let w = choose|w: int| 0 <= w < s.len() && s[w] == x;
            assert(t[w - 1] == x);
        }
    }
}

impl View for Element {
    type V = ValueView;

    open spec fn view(&self) -> ValueView {
        ValueView::Element {
            name: self.name,
            attributes: self.attributes@.map_values(|a: (NameId, String)| (a.0, a.1@)),
        }
    }
}

impl View for Value {
    type V = ValueView;

    open spec fn view(&self) -> ValueView {
        match self {
            Value::Document => ValueView::Document,
            Value::Element(e) => e@,
            Value::Text(t) => ValueView::Text(t@),
            Value::Comment(t) => ValueView::Comment(t@),
        }
    }
}

impl View for Name {
    type V = NameView;

    closed spec fn view(&self) -> NameView {
        NameView { local: self.local@, ns: self.ns }
    }
}

impl View for NodeRecord {
    type V = NodeView;

    closed spec fn view(&self) -> NodeView {
        NodeView { value: self.value@, parent: self.parent, children: self.children@ }
    }
}

impl ValueView {
    /// Only documents and elements may hold children.
    pub open spec fn is_container(self) -> bool {
        self is Document || self is Element
    }
}

impl XotView {
    /// Whether `node` is a node of this tree.
    pub open spec fn has_node(self, node: NodeId) -> bool {
        node.0 < self.nodes.len()
    }

    /// Whether `id` is a namespace of this tree.
    pub open spec fn has_namespace(self, id: NamespaceId) -> bool {
        id.0 < self.namespaces.len()
    }

    /// Whether `id` is a name of this tree.
    pub open spec fn has_name(self, id: NameId) -> bool {
        id.0 < self.names.len()
    }

    /// What the node is.
    pub open spec fn value(self, node: NodeId) -> ValueView
        recommends
            self.has_node(node),
    {
        self.nodes[node.0 as int].value
    }

    /// The node's parent, if it has one.
    pub open spec fn parent(self, node: NodeId) -> Option<NodeId>
        recommends
            self.has_node(node),
    {
        self.nodes[node.0 as int].parent
    }

    /// The node's children, in document order.
    pub open spec fn children(self, node: NodeId) -> Seq<NodeId>
        recommends
            self.has_node(node),
    {
        self.nodes[node.0 as int].children
    }

    /// The handle that the next node to be created will get.
    pub open spec fn next_node(self) -> NodeId {
        NodeId(self.nodes.len() as usize)
    }

    /// The identifier for "no namespace": that of the empty URI.
    pub open spec fn no_namespace(self) -> NamespaceId {
        NamespaceId(0)
    }

    /// The identifier that `uri` has, or will get when it is added.
    pub open spec fn namespace_id(self, uri: Seq<char>) -> NamespaceId {
        NamespaceId(first_index(self.namespaces, uri) as usize)
    }

    /// The identifier that the name has, or will get when it is added.
    pub open spec fn name_id(self, local: Seq<char>, ns: NamespaceId) -> NameId {
        NameId(first_index(self.names, NameView { local, ns }) as usize)
    }

    /// What a node needs for the tree around it to be well formed.
    pub open spec fn node_wf(self, node: NodeId) -> bool {
        let n = self.nodes[node.0 as int];
        &&& match n.parent {
            Some(p) => self.has_node(p) && self.children(p).contains(node) && !(n.value
                is Document),
            None => true,
        }
        &&& forall|j: int|
            0 <= j < n.children.len() ==> self.has_node(#[trigger] n.children[j]) && self.parent(
                n.children[j],
            ) == Some(node)
        &&& n.children.no_duplicates()
        &&& !n.value.is_container() ==> n.children.len() == 0
        &&& self.rooted(node)
        &&& match n.value {
            ValueView::Element { name, attributes } => {
                &&& self.has_name(name)
                &&& forall|j: int|
                    0 <= j < attributes.len() ==> self.has_name((#[trigger] attributes[j]).0)
                &&& forall|j: int, k: int|
                    0 <= j < k < attributes.len() ==> (#[trigger] attributes[j]).0 != (
                    #[trigger] attributes[k]).0
            },
            _ => true,
        }
    }

    /// Whether this is the value of a tree: the tables hold nothing twice,
    /// the namespace table starts with the empty URI, every name lies in a
    /// namespace of the tree, parents and children agree, and no node
    /// stands above itself.
    pub open spec fn wf(self) -> bool {
        &&& self.nodes.len() <= usize::MAX
        &&& self.namespaces.len() <= usize::MAX
        &&& self.names.len() <= usize::MAX
        &&& self.namespaces.len() > 0
        &&& self.namespaces[0] == Seq::<char>::empty()
        &&& self.namespaces.no_duplicates()
        &&& self.names.no_duplicates()
        &&& forall|i: int|
            0 <= i < self.names.len() ==> self.has_namespace((#[trigger] self.names[i]).ns)
        &&& forall|i: int| 0 <= i < self.nodes.len() ==> #[trigger] self.node_wf(NodeId(i as usize))
    }

    /// The tree after `uri` was interned: unchanged if it is known, else with
    /// `uri` at the end of the namespace table.
    pub open spec fn add_namespace(self, uri: Seq<char>) -> XotView {
        if self.namespaces.contains(uri) {
            self
        } else {
            XotView { namespaces: self.namespaces.push(uri), ..self }
        }
    }

    /// The tree after the name was interned: unchanged if it is known, else
    /// with the name at the end of the name table.
    pub open spec fn add_name(self, local: Seq<char>, ns: NamespaceId) -> XotView {
        if self.names.contains(NameView { local, ns }) {
            self
        } else {
            XotView { names: self.names.push(NameView { local, ns }), ..self }
        }
    }

    /// The tree with one more node, which has no parent and no children.
    pub open spec fn add_node(self, value: ValueView) -> XotView {
        XotView {
            nodes: self.nodes.push(NodeView { value, parent: None, children: Seq::empty() }),
            ..self
        }
    }
}

/// The attributes after `name` was set to `value`: the value is replaced
/// where the name stands already, else the pair is added at the end.
pub open spec fn put_attribute(
    attributes: Seq<(NameId, Seq<char>)>,
    name: NameId,
    value: Seq<char>,
) -> Seq<(NameId, Seq<char>)> {
    let i = first_index(attributes.map_values(|a: (NameId, Seq<char>)| a.0), name);
    if i < attributes.len() {
        attributes.update(i, (name, value))
    } else {
        attributes.push((name, value))
    }
}

impl XotView {
    /// The node `steps` levels above `node`, if the tree reaches that high.
    pub open spec fn ancestor(self, node: NodeId, steps: nat) -> Option<NodeId>
        decreases steps,
    {
        if steps == 0 {
            Some(node)
        } else {
            match self.ancestor(node, (steps - 1) as nat) {
                Some(below) => if self.has_node(below) {
                    self.parent(below)
                } else {
                    None
                },
                None => None,
            }
        }
    }

    /// Whether `above` is `node` or stands above it.
    pub open spec fn is_ancestor_or_self(self, above: NodeId, node: NodeId) -> bool {
        exists|steps: nat| self.ancestor(node, steps) == Some(above)
    }

    /// Whether the way up from `node` ends: above some level there is
    /// nothing, so the node does not stand above itself.
    pub open spec fn rooted(self, node: NodeId) -> bool {
        exists|steps: nat| (#[trigger] self.ancestor(node, steps)) is None
    }

    /// Whether `child` can become the last child of `parent`: both are nodes
    /// of the tree, `parent` is a document or an element, and `child` is no
    /// document, has no parent and does not stand above `parent`.
    pub open spec fn can_append(self, parent: NodeId, child: NodeId) -> bool {
        &&& self.has_node(parent)
        &&& self.has_node(child)
        &&& self.value(parent).is_container()
        &&& !(self.value(child) is Document)
        &&& self.parent(child) is None
        &&& !self.is_ancestor_or_self(child, parent)
    }

    /// The tree after `child` became the last child of `parent`.
    pub open spec fn append(self, parent: NodeId, child: NodeId) -> XotView {
        let linked = self.nodes.update(
            child.0 as int,
            NodeView { parent: Some(parent), ..self.nodes[child.0 as int] },
        );
        XotView {
            nodes: linked.update(
                parent.0 as int,
                NodeView {
                    children: self.children(parent).push(child),
                    ..linked[parent.0 as int]
                },
            ),
            ..self
        }
    }

    /// The tree after the node got another value; parent and children stay.
    pub open spec fn set_value(self, node: NodeId, value: ValueView) -> XotView {
        XotView {
            nodes: self.nodes.update(
                node.0 as int,
                NodeView { value, ..self.nodes[node.0 as int] },
            ),
            ..self
        }
    }

    /// The tree after an attribute of the element `node` was set.
    pub open spec fn set_attribute(self, node: NodeId, name: NameId, value: Seq<char>) -> XotView {
        match self.value(node) {
            ValueView::Element { name: element_name, attributes } => self.set_value(
                node,
                ValueView::Element {
                    name: element_name,
                    attributes: put_attribute(attributes, name, value),
                },
            ),
            _ => self,
        }
    }

    /// Whether `node` is a text node of the tree.
    pub open spec fn is_text(self, node: NodeId) -> bool {
        self.has_node(node) && self.value(node) is Text
    }

    /// Whether `node` is an element of the tree.
    pub open spec fn is_element(self, node: NodeId) -> bool {
        self.has_node(node) && self.value(node) is Element
    }

    /// The first child of `node`, if `node` is in the tree and has children.
    pub open spec fn first_child(self, node: NodeId) -> Option<NodeId> {
        if self.has_node(node) && self.children(node).len() > 0 {
            Some(self.children(node).first())
        } else {
            None
        }
    }

    /// The last child of `node`, if `node` is in the tree and has children.
    pub open spec fn last_child(self, node: NodeId) -> Option<NodeId> {
        if self.has_node(node) && self.children(node).len() > 0 {
            Some(self.children(node).last())
        } else {
            None
        }
    }

    /// The sibling that follows `node` under its parent, if there is one.
    pub open spec fn next_sibling(self, node: NodeId) -> Option<NodeId> {
        if self.has_node(node) && self.parent(node) is Some {
            let siblings = self.children(self.parent(node).unwrap());
            let at = first_index(siblings, node);
            if at + 1 < siblings.len() {
                Some(siblings[at + 1])
            } else {
                None
            }
        } else {
            None
        }
    }

    /// The first element among `nodes`.
    pub open spec fn first_element(self, nodes: Seq<NodeId>) -> Option<NodeId>
        decreases nodes.len(),
    {
        if nodes.len() == 0 {
            None
        } else if self.is_element(nodes[0]) {
            Some(nodes[0])
        } else {
            self.first_element(nodes.drop_first())
        }
    }

    /// The document element: the first element among the children of a
    /// document node.
    pub open spec fn document_element(self, node: NodeId) -> Option<NodeId> {
        if self.has_node(node) && self.value(node) is Document {
            self.first_element(self.children(node))
        } else {
            None
        }
    }

    /// A node without children stands above no other node.
    pub proof fn lemma_childless_is_no_ancestor(self, leaf: NodeId, node: NodeId)
        requires
            self.wf(),
            self.has_node(leaf),
            self.children(leaf).len() == 0,
            leaf != node,
        ensures
            !self.is_ancestor_or_self(leaf, node),
    {
        assert forall|steps: nat| self.ancestor(node, steps) != Some(leaf) by {
            if steps > 0 {
                match self.ancestor(node, (steps - 1) as nat) {
                    Some(below) => {
                        if self.has_node(below) && self.parent(below) == Some(leaf) {
                            assert(self.node_wf(NodeId(below.0 as int as usize)));
                            assert(self.children(leaf).contains(below));
                        }
                    },
                    None => {},
                }
            }
        }
    }
}

impl View for Xot {
    type V = XotView;

    closed spec fn view(&self) -> XotView {
        XotView {
            nodes: self.nodes@.map_values(|n: NodeRecord| n@),
            namespaces: self.namespaces@.map_values(|s: String| s@),
            names: self.names@.map_values(|n: Name| n@),
        }
    }
}

impl Xot {
    /// Whether the tree is well formed. Every operation of the tree keeps it
    /// so.
    pub open spec fn wf(&self) -> bool {
        self@.wf()
    }

    /// An empty tree: no node, no name, and the one namespace of the empty
    /// URI.
    pub fn new() -> (xot: Xot)
        ensures
            xot.wf(),
            xot@ == (XotView {
                nodes: Seq::empty(),
                namespaces: seq![Seq::<char>::empty()],
                names: Seq::empty(),
            }),
    {
        let mut namespaces: Vec<String> = Vec::new();
        namespaces.push(String::new());
        let xot = Xot { nodes: Vec::new(), namespaces, names: Vec::new() };
        assert(xot@.nodes =~= Seq::empty());
        assert(xot@.names =~= Seq::empty());
        assert(xot@.namespaces =~= seq![Seq::<char>::empty()]);
        xot
    }
}

impl Element {
    /// The element's name.
    pub fn name(&self) -> (name: NameId)
        ensures
            self@ matches ValueView::Element { name: n, .. } && name == n,
    {
        self.name
    }
}

impl Xot {
    /// The identifier that stands for "no namespace".
    pub fn no_namespace(&self) -> (id: NamespaceId)
        ensures
            id == self@.no_namespace(),
    {
        NamespaceId(0)
    }

    /// Interns a namespace URI. A URI that the tree knows keeps its
    /// identifier and leaves the tree as it is; the empty URI is always
    /// known, as "no namespace".
    pub fn add_namespace(&mut self, uri: &str) -> (id: NamespaceId)
        requires
            old(self).wf(),
        ensures
            final(self).wf(),
            id == old(self)@.namespace_id(uri@),
            final(self)@ == old(self)@.add_namespace(uri@),
            final(self)@.has_namespace(id),
            final(self)@.namespaces[id.0 as int] == uri@,
    {
        let key = uri.to_owned();
        let n = self.namespaces.len();
        let mut i: usize = 0;
        while i < n
            invariant
                *self == *old(self),
                self.wf(),
                n == self.namespaces.len(),
                0 <= i <= n,
                key@ == uri@,
                forall|j: int| 0 <= j < i ==> self@.namespaces[j] != uri@,
            decreases n - i,
        {
            if self.namespaces[i] == key {
                proof {
                    lemma_first_index(self@.namespaces, uri@, i as int);
                    assert(self@.namespaces[i as int] == uri@);
                }
                return NamespaceId(i);
            }
            i += 1;
        }
        proof {
            lemma_first_index(self@.namespaces, uri@, n as int);
            assert(!self@.namespaces.contains(uri@));
        }
        self.namespaces.push(key);
        proof {
            assert(self.namespaces.len() == self@.namespaces.len());
            assert(self@.namespaces =~= old(self)@.namespaces.push(uri@));
            assert(self@.nodes =~= old(self)@.nodes);
            assert(self@.names =~= old(self)@.names);
            old(self)@.lemma_add_namespace(uri@);
        }
        NamespaceId(n)
    }

    /// Interns a name in a namespace of the tree. A name that the tree knows
    /// keeps its identifier and leaves the tree as it is.
    pub fn add_name_ns(&mut self, local: &str, ns: NamespaceId) -> (id: NameId)
        requires
            old(self).wf(),
            old(self)@.has_namespace(ns),
        ensures
            final(self).wf(),
            id == old(self)@.name_id(local@, ns),
            final(self)@ == old(self)@.add_name(local@, ns),
            final(self)@.has_name(id),
            final(self)@.names[id.0 as int] == (NameView { local: local@, ns }),
    {
        let key = local.to_owned();
        let ghost wanted = NameView { local: local@, ns };
        let n = self.names.len();
        let mut i: usize = 0;
        while i < n
            invariant
                *self == *old(self),
                self.wf(),
                n == self.names.len(),
                0 <= i <= n,
                key@ == local@,
                wanted == (NameView { local: local@, ns }),
                forall|j: int| 0 <= j < i ==> self@.names[j] != wanted,
            decreases n - i,
        {
            if self.names[i].ns == ns && self.names[i].local == key {
                proof {
                    assert(self@.names[i as int] == wanted);
                    lemma_first_index(self@.names, wanted, i as int);
                }
                return NameId(i);
            }
            assert(self@.names[i as int] != wanted);
            i += 1;
        }
        proof {
            lemma_first_index(self@.names, wanted, n as int);
            assert(!self@.names.contains(wanted));
        }
        self.names.push(Name { local: key, ns });
        proof {
            assert(self.names.len() == self@.names.len());
            assert(self@.names =~= old(self)@.names.push(wanted));
            assert(self@.nodes =~= old(self)@.nodes);
            assert(self@.namespaces =~= old(self)@.namespaces);
            old(self)@.lemma_add_name(local@, ns);
        }
        NameId(n)
    }

    /// The URI of a namespace of the tree.
    pub fn namespace_str(&self, id: NamespaceId) -> (uri: &str)
        requires
            self@.has_namespace(id),
        ensures
            uri@ == self@.namespaces[id.0 as int],
    {
        self.namespaces[id.0].as_str()
    }

    /// The local part of a name of the tree.
    pub fn local_name_str(&self, name: NameId) -> (local: &str)
        requires
            self@.has_name(name),
        ensures
            local@ == self@.names[name.0 as int].local,
    {
        self.names[name.0].local.as_str()
    }

    /// The namespace of a name of the tree.
    pub fn namespace_for_name(&self, name: NameId) -> (ns: NamespaceId)
        requires
            self@.has_name(name),
        ensures
            ns == self@.names[name.0 as int].ns,
    {
        self.names[name.0].ns
    }
}

impl Xot {
    /// Whether `node` is a node of this tree.
    pub fn has_node(&self, node: NodeId) -> (r: bool)
        ensures
            r == self@.has_node(node),
    {
        node.0 < self.nodes.len()
    }

    /// Adds a node without parent and children to the table.
    fn add_node(&mut self, value: Value) -> (node: NodeId)
        requires
            old(self).wf(),
            match value@ {
                ValueView::Element { name, attributes } => old(self)@.has_name(name)
                    && attributes.len() == 0,
                _ => true,
            },
        ensures
            final(self).wf(),
            node == old(self)@.next_node(),
            final(self)@ == old(self)@.add_node(value@),
    {
        let node = NodeId(self.nodes.len());
        self.nodes.push(NodeRecord { value, parent: None, children: Vec::new() });
        proof {
            assert(self.nodes.len() == self@.nodes.len());
            assert(self@.nodes =~= old(self)@.add_node(value@).nodes);
            assert(self@.namespaces =~= old(self)@.namespaces);
            assert(self@.names =~= old(self)@.names);
            old(self)@.lemma_add_node(value@);
        }
        node
    }

    /// Creates a document node. It has no children yet.
    pub fn new_document(&mut self) -> (node: NodeId)
        requires
            old(self).wf(),
        ensures
            final(self).wf(),
            node == old(self)@.next_node(),
            final(self)@ == old(self)@.add_node(ValueView::Document),
    {
        self.add_node(Value::Document)
    }

    /// Creates an element with the given name and no attributes. It is in no
    /// tree yet.
    pub fn new_element(&mut self, name: NameId) -> (node: NodeId)
        requires
            old(self).wf(),
            old(self)@.has_name(name),
        ensures
            final(self).wf(),
            node == old(self)@.next_node(),
            final(self)@ == old(self)@.add_node(
                ValueView::Element { name, attributes: Seq::empty() },
            ),
    {
        let element = Element { name, attributes: Vec::new() };
        assert(element@ == (ValueView::Element { name, attributes: Seq::empty() })) by {
            assert(element.attributes@.map_values(|a: (NameId, String)| (a.0, a.1@))
                =~= Seq::empty());
        }
        self.add_node(Value::Element(element))
    }

    /// Creates a text node with the given content. It is in no tree yet.
    pub fn new_text(&mut self, text: &str) -> (node: NodeId)
        requires
            old(self).wf(),
        ensures
            final(self).wf(),
            node == old(self)@.next_node(),
            final(self)@ == old(self)@.add_node(ValueView::Text(text@)),
    {
        self.add_node(Value::Text(text.to_owned()))
    }

    /// Creates a comment with the given content. It is in no tree yet.
    pub fn new_comment(&mut self, text: &str) -> (node: NodeId)
        requires
            old(self).wf(),
        ensures
            final(self).wf(),
            node == old(self)@.next_node(),
            final(self)@ == old(self)@.add_node(ValueView::Comment(text@)),
    {
        self.add_node(Value::Comment(text.to_owned()))
    }

    /// Whether `node` is a document node of this tree.
    pub fn is_document(&self, node: NodeId) -> (r: bool)
        ensures
            r == (self@.has_node(node) && self@.value(node) is Document),
    {
        node.0 < self.nodes.len() && matches!(self.nodes[node.0].value, Value::Document)
    }

    /// Whether `node` is an element of this tree.
    pub fn is_element(&self, node: NodeId) -> (r: bool)
        ensures
            r == self@.is_element(node),
    {
        node.0 < self.nodes.len() && matches!(self.nodes[node.0].value, Value::Element(_))
    }

    /// Whether `node` is a text node of this tree.
    pub fn is_text(&self, node: NodeId) -> (r: bool)
        ensures
            r == self@.is_text(node),
    {
        node.0 < self.nodes.len() && matches!(self.nodes[node.0].value, Value::Text(_))
    }

    /// Whether `node` is a comment of this tree.
    pub fn is_comment(&self, node: NodeId) -> (r: bool)
        ensures
            r == (self@.has_node(node) && self@.value(node) is Comment),
    {
        node.0 < self.nodes.len() && matches!(self.nodes[node.0].value, Value::Comment(_))
    }

    /// The content of a text node; `None` for any other node.
    pub fn text_str(&self, node: NodeId) -> (text: Option<&str>)
        ensures
            match text {
                Some(t) => self@.is_text(node) && self@.value(node) == ValueView::Text(t@),
                None => !self@.is_text(node),
            },
    {
        if node.0 >= self.nodes.len() {
            return None;
        }
        match &self.nodes[node.0].value {
            Value::Text(t) => Some(t.as_str()),
            _ => None,
        }
    }

    /// The content of a comment; `None` for any other node.
    pub fn comment_str(&self, node: NodeId) -> (text: Option<&str>)
        ensures
            match text {
                Some(t) => self@.has_node(node) && self@.value(node) == ValueView::Comment(t@),
                None => !(self@.has_node(node) && self@.value(node) is Comment),
            },
    {
        if node.0 >= self.nodes.len() {
            return None;
        }
        match &self.nodes[node.0].value {
            Value::Comment(t) => Some(t.as_str()),
            _ => None,
        }
    }

    /// The element behind a node; `None` for any other node.
    pub fn element(&self, node: NodeId) -> (element: Option<&Element>)
        ensures
            match element {
                Some(e) => self@.is_element(node) && self@.value(node) == e@,
                None => !self@.is_element(node),
            },
    {
        if node.0 >= self.nodes.len() {
            return None;
        }
        match &self.nodes[node.0].value {
            Value::Element(e) => Some(e),
            _ => None,
        }
    }

    /// The parent of a node; `None` for a node without one and for what is
    /// no node of this tree.
    pub fn parent(&self, node: NodeId) -> (parent: Option<NodeId>)
        ensures
            parent == if self@.has_node(node) {
                self@.parent(node)
            } else {
                None
            },
    {
        if node.0 >= self.nodes.len() {
            return None;
        }
        self.nodes[node.0].parent
    }

    /// The first child of a node.
    pub fn first_child(&self, node: NodeId) -> (child: Option<NodeId>)
        ensures
            child == self@.first_child(node),
    {
        if node.0 >= self.nodes.len() || self.nodes[node.0].children.len() == 0 {
            return None;
        }
        Some(self.nodes[node.0].children[0])
    }

    /// The last child of a node.
    pub fn last_child(&self, node: NodeId) -> (child: Option<NodeId>)
        ensures
            child == self@.last_child(node),
    {
        if node.0 >= self.nodes.len() || self.nodes[node.0].children.len() == 0 {
            return None;
        }
        let n = self.nodes[node.0].children.len();
        Some(self.nodes[node.0].children[n - 1])
    }
}

impl XotView {
    /// Going up `first` levels and then `then` levels is going up both at
    /// once.
    pub proof fn lemma_ancestor_add(self, node: NodeId, first: nat, then: nat)
        ensures
            self.ancestor(node, first + then) == match self.ancestor(node, first) {
                Some(middle) => self.ancestor(middle, then),
                None => None,
            },
        decreases then,
    {
        if then > 0 {
            self.lemma_ancestor_add(node, first, (then - 1) as nat);
            assert(first + then - 1 == first + (then - 1) as nat);
        }
    }

    /// The way up from a node is the same in a tree that has the same
    /// parents, up to the first level at which `avoid` stands, whose parent
    /// may differ. All that is met on the way is a node of the tree.
    pub proof fn lemma_ancestor_kept(
        self,
        after: XotView,
        node: NodeId,
        steps: nat,
        avoid: NodeId,
    )
        requires
            self.wf(),
            self.has_node(node),
            self.nodes.len() <= after.nodes.len(),
            forall|m: NodeId|
                self.has_node(m) && m != avoid ==> #[trigger] after.parent(m) == self.parent(m),
            self.has_node(avoid) ==> forall|j: nat|
                j < steps ==> self.ancestor(node, j) != Some(avoid),
        ensures
            after.ancestor(node, steps) == self.ancestor(node, steps),
            self.ancestor(node, steps) matches Some(m) ==> self.has_node(m),
        decreases steps,
    {
        if steps > 0 {
            let below = (steps - 1) as nat;
            self.lemma_ancestor_kept(after, node, below, avoid);
            match self.ancestor(node, below) {
                Some(m) => {
                    assert(self.node_wf(NodeId(m.0 as int as usize)));
                    assert(after.parent(m) == self.parent(m));
                },
                None => {},
            }
        }
    }

    /// The way up from a node still ends in a tree that has the same
    /// parents.
    pub proof fn lemma_rooted_kept(self, after: XotView, node: NodeId)
        requires
            self.wf(),
            self.has_node(node),
            self.nodes.len() <= after.nodes.len(),
            forall|m: NodeId| self.has_node(m) ==> #[trigger] after.parent(m) == self.parent(m),
        ensures
            after.rooted(node),
    {
        assert(self.node_wf(NodeId(node.0 as int as usize)));
        let steps = choose|steps: nat| (#[trigger] self.ancestor(node, steps)) is None;
        self.lemma_ancestor_kept(after, node, steps, self.next_node());
    }

    /// After `child` went under `parent`, the way up from every node still
    /// ends: from below `child` it goes on above `parent`.
    pub proof fn lemma_rooted_after_append(
        self,
        parent: NodeId,
        child: NodeId,
        node: NodeId,
        steps: nat,
    )
        requires
            self.wf(),
            self.can_append(parent, child),
            self.has_node(node),
            self.ancestor(node, steps) is None,
        ensures
            self.append(parent, child).rooted(node),
        decreases steps,
    {
        let after = self.append(parent, child);
        reveal_with_fuel(XotView::ancestor, 2);
        assert(self.ancestor(parent, 0) == Some(parent));
        if node == child {
            assert(self.node_wf(NodeId(parent.0 as int as usize)));
            let above = choose|above: nat| (#[trigger] self.ancestor(parent, above)) is None;
            self.lemma_ancestor_kept(after, parent, above, child);
            after.lemma_ancestor_add(child, 1, above);
            assert(after.ancestor(child, 1 + above) is None);
        } else {
            assert(self.node_wf(NodeId(node.0 as int as usize)));
            assert(after.parent(node) == self.parent(node));
            match self.parent(node) {
                None => {
                    assert(after.ancestor(node, 1) is None);
                },
                Some(m) => {
                    self.lemma_ancestor_add(node, 1, (steps - 1) as nat);
                    self.lemma_rooted_after_append(parent, child, m, (steps - 1) as nat);
                    let above = choose|above: nat| (#[trigger] after.ancestor(m, above)) is None;
                    after.lemma_ancestor_add(node, 1, above);
                    assert(after.ancestor(node, 1 + above) is None);
                },
            }
        }
    }

    /// Above a level that the tree does not reach there is no node either.
    pub proof fn lemma_no_ancestor_beyond(self, node: NodeId, top: nat, steps: nat)
        requires
            self.ancestor(node, top) is None,
            steps >= top,
        ensures
            self.ancestor(node, steps) is None,
        decreases steps,
    {
        if steps > top {
            self.lemma_no_ancestor_beyond(node, top, (steps - 1) as nat);
        }
    }

    /// Appending where it is allowed keeps the tree well formed.
    pub proof fn lemma_append_wf(self, parent: NodeId, child: NodeId)
        requires
            self.wf(),
            self.can_append(parent, child),
        ensures
            self.append(parent, child).wf(),
    {
        let after = self.append(parent, child);
        assert(self.ancestor(parent, 0) == Some(parent));
        assert(parent != child);
        assert forall|c: NodeId, k: NodeId|
            self.has_node(k) && #[trigger] self.children(k).contains(c) implies c != child by {
            assert(self.node_wf(NodeId(k.0 as int as usize)));
        }
        assert forall|k: int| 0 <= k < after.nodes.len() implies #[trigger] after.node_wf(
            NodeId(k as usize),
        ) by {
            let node = NodeId(k as usize);
            assert(self.node_wf(node));
            let before = self.nodes[k];
            let now = after.nodes[k];
            let top = choose|top: nat| (#[trigger] self.ancestor(node, top)) is None;
            self.lemma_rooted_after_append(parent, child, node, top);
            match now.parent {
                Some(p) => {
                    if node == child {
                        assert(after.children(parent).last() == child);
                    } else {
                        let at = choose|at: int|
                            0 <= at < self.children(p).len() && self.children(p)[at] == node;
                        assert(after.children(p)[at] == node);
                    }
                },
                None => {},
            }
            assert forall|j: int| 0 <= j < now.children.len() implies after.has_node(
                #[trigger] now.children[j],
            ) && after.parent(now.children[j]) == Some(node) by {
                if node == parent && j == before.children.len() {
                } else {
                    assert(before.children[j] == now.children[j]);
                    assert(self.children(node).contains(before.children[j]));
                }
            }
            if node == parent {
                assert forall|i: int, j: int|
                    0 <= i < now.children.len() && 0 <= j < now.children.len() && i
                        != j implies now.children[i] != now.children[j] by {
                    if i < before.children.len() {
                        assert(self.children(node).contains(before.children[i]));
                    }
                    if j < before.children.len() {
                        assert(self.children(node).contains(before.children[j]));
                    }
                }
            }
        }
    }
}

impl Xot {
    /// Makes `child` the last child of `parent`, if the tree allows it.
    pub fn append(&mut self, parent: NodeId, child: NodeId) -> (r: Result<(), Error>)
        requires
            old(self).wf(),
        ensures
            final(self).wf(),
            r is Ok <==> old(self)@.can_append(parent, child),
            r is Ok ==> final(self)@ == old(self)@.append(parent, child),
            r matches Err(e) ==> e is InvalidOperation && final(self)@ == old(self)@,
    {
        let n = self.nodes.len();
        if parent.0 >= n || child.0 >= n {
            return Err(Error::InvalidOperation);
        }
        let holds = match self.nodes[parent.0].value {
            Value::Document => true,
            Value::Element(_) => true,
            _ => false,
        };
        if !holds || matches!(self.nodes[child.0].value, Value::Document)
            || self.nodes[child.0].parent.is_some() {
            return Err(Error::InvalidOperation);
        }
        let mut current = parent;
        let ghost mut steps: nat = 0;
        let ghost top: nat;
        proof {
            assert(self@.node_wf(NodeId(parent.0 as int as usize)));
            top = choose|top: nat| (#[trigger] self@.ancestor(parent, top)) is None;
        }
        loop
            invariant
                *self == *old(self),
                self.wf(),
                self@.has_node(current),
                self@.ancestor(parent, top) is None,
                self@.ancestor(parent, steps) == Some(current),
                forall|k: nat| k < steps ==> self@.ancestor(parent, k) != Some(child),
            ensures
                !self@.is_ancestor_or_self(child, parent),
            decreases top - steps,
        {
            proof {
                if steps >= top {
                    self@.lemma_no_ancestor_beyond(parent, top, steps);
                }
            }
            if current.0 == child.0 {
                return Err(Error::InvalidOperation);
            }
            match self.nodes[current.0].parent {
                None => {
                    proof {
                        assert(self@.ancestor(parent, steps + 1) is None);
                        assert forall|k: nat| k > steps implies self@.ancestor(parent, k)
                            != Some(child) by {
                            self@.lemma_no_ancestor_beyond(parent, steps + 1, k);
                        }
                    }
                    break ;
                },
                Some(above) => {
                    proof {
                        assert(self@.node_wf(NodeId(current.0 as int as usize)));
                        assert(self@.ancestor(parent, steps + 1) == Some(above));
                        steps = steps + 1;
                    }
                    current = above;
                },
            }
        }
        self.nodes[child.0].parent = Some(parent);
        self.nodes[parent.0].children.push(child);
        proof {
            old(self)@.lemma_append_wf(parent, child);
            assert(self@.nodes =~= old(self)@.append(parent, child).nodes);
            assert(self@.namespaces =~= old(self)@.namespaces);
            assert(self@.names =~= old(self)@.names);
        }
        Ok(())
    }
}

impl XotView {
    /// Giving a node a value of the same kind, with names of the tree and no
    /// attribute name twice, keeps the tree well formed.
    pub proof fn lemma_set_value_wf(self, node: NodeId, value: ValueView)
        requires
            self.wf(),
            self.has_node(node),
            match (self.value(node), value) {
                (ValueView::Text(_), ValueView::Text(_)) => true,
                (ValueView::Comment(_), ValueView::Comment(_)) => true,
                (ValueView::Element { .. }, ValueView::Element { name, attributes }) => {
                    &&& self.has_name(name)
                    &&& forall|j: int|
                        0 <= j < attributes.len() ==> self.has_name((#[trigger] attributes[j]).0)
                    &&& forall|j: int, k: int|
                        0 <= j < k < attributes.len() ==> (#[trigger] attributes[j]).0 != (
                        #[trigger] attributes[k]).0
                },
                _ => false,
            },
        ensures
            self.set_value(node, value).wf(),
    {
        let after = self.set_value(node, value);
        assert forall|k: int| 0 <= k < after.nodes.len() implies #[trigger] after.node_wf(
            NodeId(k as usize),
        ) by {
            let at = NodeId(k as usize);
            assert(self.node_wf(at));
            self.lemma_rooted_kept(after, at);
            match after.nodes[k].parent {
                Some(p) => {
                    assert(after.children(p) == self.children(p));
                },
                None => {},
            }
        }
    }

    /// Setting an attribute keeps the names of the list in the tree and
    /// apart from each other.
    pub proof fn lemma_put_attribute(
        self,
        attributes: Seq<(NameId, Seq<char>)>,
        name: NameId,
        value: Seq<char>,
    )
        requires
            self.has_name(name),
            forall|j: int| 0 <= j < attributes.len() ==> self.has_name((#[trigger] attributes[j]).0),
            forall|j: int, k: int|
                0 <= j < k < attributes.len() ==> (#[trigger] attributes[j]).0 != (
                #[trigger] attributes[k]).0,
        ensures
            forall|j: int|
                0 <= j < put_attribute(attributes, name, value).len() ==> self.has_name(
                    (#[trigger] put_attribute(attributes, name, value)[j]).0,
                ),
            forall|j: int, k: int|
                0 <= j < k < put_attribute(attributes, name, value).len() ==> (
                #[trigger] put_attribute(attributes, name, value)[j]).0 != (
                #[trigger] put_attribute(attributes, name, value)[k]).0,
    {
        let names = attributes.map_values(|a: (NameId, Seq<char>)| a.0);
        lemma_first_index_properties(names, name);
        let i = first_index(names, name);
        let after = put_attribute(attributes, name, value);
        assert forall|j: int| 0 <= j < after.len() implies (#[trigger] after[j]).0 == if j
            < attributes.len() {
            attributes[j].0
        } else {
            name
        } by {
            if i < attributes.len() && j == i {
                assert(names[i] == attributes[i].0);
            }
        }
        assert forall|j: int, k: int| 0 <= j < k < after.len() implies (#[trigger] after[j]).0 != (
        #[trigger] after[k]).0 by {
            if k >= attributes.len() {
                assert(names[j] == attributes[j].0);
            }
        }
    }
}

impl Xot {
    /// Replaces the content of a text node.
    pub fn set_text(&mut self, node: NodeId, text: &str) -> (r: Result<(), Error>)
        requires
            old(self).wf(),
        ensures
            final(self).wf(),
            r is Ok <==> old(self)@.is_text(node),
            r is Ok ==> final(self)@ == old(self)@.set_value(node, ValueView::Text(text@)),
            r matches Err(e) ==> e is NotText && final(self)@ == old(self)@,
    {
        if !self.is_text(node) {
            return Err(Error::NotText);
        }
        self.nodes[node.0].value = Value::Text(text.to_owned());
        proof {
            old(self)@.lemma_set_value_wf(node, ValueView::Text(text@));
            assert(self@.nodes =~= old(self)@.set_value(node, ValueView::Text(text@)).nodes);
            assert(self@.namespaces =~= old(self)@.namespaces);
            assert(self@.names =~= old(self)@.names);
        }
        Ok(())
    }

    /// Sets an attribute of an element. A name that the element has already
    /// keeps its place and gets the new value; a new name goes to the end.
    pub fn set_attribute(&mut self, node: NodeId, name: NameId, value: &str) -> (r: Result<
        (),
        Error,
    >)
        requires
            old(self).wf(),
            old(self)@.has_name(name),
        ensures
            final(self).wf(),
            r is Ok <==> old(self)@.is_element(node),
            r is Ok ==> final(self)@ == old(self)@.set_attribute(node, name, value@),
            r matches Err(e) ==> e is NotElement && final(self)@ == old(self)@,
    {
        if !self.is_element(node) {
            return Err(Error::NotElement);
        }
        let ghost before = old(self)@.value(node);
        match &mut self.nodes[node.0].value {
            Value::Element(element) => {
                let ghost attributes = element.attributes@.map_values(
                    |a: (NameId, String)| (a.0, a.1@),
                );
                let ghost names = attributes.map_values(|a: (NameId, Seq<char>)| a.0);
                let n = element.attributes.len();
                let mut i: usize = 0;
                while i < n && element.attributes[i].0 != name
                    invariant
                        n == element.attributes.len(),
                        0 <= i <= n,
                        attributes == element.attributes@.map_values(
                            |a: (NameId, String)| (a.0, a.1@),
                        ),
                        names == attributes.map_values(|a: (NameId, Seq<char>)| a.0),
                        forall|j: int| 0 <= j < i ==> names[j] != name,
                    decreases n - i,
                {
                    i += 1;
                }
                proof {
                    lemma_first_index(names, name, i as int);
                }
                if i < n {
                    element.attributes[i].1 = value.to_owned();
                } else {
                    element.attributes.push((name, value.to_owned()));
                }
                assert(element@ == (ValueView::Element {
                    name: element.name,
                    attributes: put_attribute(attributes, name, value@),
                })) by {
                    assert(element.attributes@.map_values(|a: (NameId, String)| (a.0, a.1@))
                        =~= put_attribute(attributes, name, value@));
                }
            },
            _ => {},
        }
        proof {
            let (element_name, attributes) = match before {
                ValueView::Element { name, attributes } => (name, attributes),
                _ => arbitrary(),
            };
            let value_after = ValueView::Element {
                name: element_name,
                attributes: put_attribute(attributes, name, value@),
            };
            assert(old(self)@.node_wf(NodeId(node.0 as int as usize)));
            old(self)@.lemma_put_attribute(attributes, name, value@);
            old(self)@.lemma_set_value_wf(node, value_after);
            assert(self@.nodes =~= old(self)@.set_value(node, value_after).nodes);
            assert(self@.namespaces =~= old(self)@.namespaces);
            assert(self@.names =~= old(self)@.names);
        }
        Ok(())
    }

    /// The sibling that follows a node under its parent.
    pub fn next_sibling(&self, node: NodeId) -> (sibling: Option<NodeId>)
        requires
            self.wf(),
        ensures
            sibling == self@.next_sibling(node),
    {
        if node.0 >= self.nodes.len() {
            return None;
        }
        match self.nodes[node.0].parent {
            None => None,
            Some(parent) => {
                assert(self@.node_wf(NodeId(node.0 as int as usize)));
                let siblings = &self.nodes[parent.0].children;
                let n = siblings.len();
                let mut i: usize = 0;
                while i < n && siblings[i].0 != node.0
                    invariant
                        n == siblings@.len(),
                        0 <= i <= n,
                        forall|j: int| 0 <= j < i ==> siblings@[j] != node,
                    decreases n - i,
                {
                    i += 1;
                }
                proof {
                    lemma_first_index(siblings@, node, i as int);
                }
                if i < n && i + 1 < n {
                    Some(siblings[i + 1])
                } else {
                    None
                }
            },
        }
    }

    /// The document element of a document node: the first element among its
    /// children. `None` for a document without an element and for any other
    /// node.
    pub fn document_element(&self, node: NodeId) -> (element: Option<NodeId>)
        requires
            self.wf(),
        ensures
            element == self@.document_element(node),
    {
        if !self.is_document(node) {
            return None;
        }
        let children = &self.nodes[node.0].children;
        let n = children.len();
        let mut i: usize = 0;
        assert(children@ == self@.children(node));
        assert(children@.skip(0) =~= children@);
        while i < n
            invariant
                n == children@.len(),
                0 <= i <= n,
                self@.has_node(node),
                self@.value(node) is Document,
                children@ == self@.children(node),
                self@.first_element(children@) == self@.first_element(children@.skip(i as int)),
            decreases n - i,
        {
            assert(children@.skip(i as int).drop_first() =~= children@.skip(i + 1));
            assert(children@.skip(i as int)[0] == children@[i as int]);
            if self.is_element(children[i]) {
                return Some(children[i]);
            }
            i += 1;
        }
        None
    }
}

impl XotView {
    /// Interning a namespace keeps the tree well formed, gives the URI the
    /// identifier that was foretold, and moves no other entry.
    pub proof fn lemma_add_namespace(self, uri: Seq<char>)
        requires
            self.wf(),
            self.add_namespace(uri).namespaces.len() <= usize::MAX,
        ensures
            self.add_namespace(uri).wf(),
            self.add_namespace(uri).has_namespace(self.namespace_id(uri)),
            self.add_namespace(uri).namespaces[self.namespace_id(uri).0 as int] == uri,
            self.add_namespace(uri).namespace_id(uri) == self.namespace_id(uri),
            self.namespaces.is_prefix_of(self.add_namespace(uri).namespaces),
    {
        lemma_first_index_properties(self.namespaces, uri);
        let after = self.add_namespace(uri);
        if !self.namespaces.contains(uri) {
            lemma_first_index(after.namespaces, uri, self.namespaces.len() as int);
        }
        assert forall|k: int| 0 <= k < after.nodes.len() implies #[trigger] after.node_wf(
            NodeId(k as usize),
        ) by {
            assert(self.node_wf(NodeId(k as usize)));
            self.lemma_rooted_kept(after, NodeId(k as usize));
        }
    }

    /// Interning a name keeps the tree well formed, gives the name the
    /// identifier that was foretold, and moves no other entry.
    pub proof fn lemma_add_name(self, local: Seq<char>, ns: NamespaceId)
        requires
            self.wf(),
            self.has_namespace(ns),
            self.add_name(local, ns).names.len() <= usize::MAX,
        ensures
            self.add_name(local, ns).wf(),
            self.add_name(local, ns).has_name(self.name_id(local, ns)),
            self.add_name(local, ns).names[self.name_id(local, ns).0 as int] == (NameView {
                local,
                ns,
            }),
            self.names.is_prefix_of(self.add_name(local, ns).names),
    {
        let wanted = NameView { local, ns };
        lemma_first_index_properties(self.names, wanted);
        let after = self.add_name(local, ns);
        assert forall|k: int| 0 <= k < after.nodes.len() implies #[trigger] after.node_wf(
            NodeId(k as usize),
        ) by {
            assert(self.node_wf(NodeId(k as usize)));
            self.lemma_rooted_kept(after, NodeId(k as usize));
        }
    }

    /// A new node without parent and children keeps the tree well formed.
    pub proof fn lemma_add_node(self, value: ValueView)
        requires
            self.wf(),
            self.add_node(value).nodes.len() <= usize::MAX,
            match value {
                ValueView::Element { name, attributes } => self.has_name(name) && attributes.len()
                    == 0,
                _ => true,
            },
        ensures
            self.add_node(value).wf(),
    {
        let after = self.add_node(value);
        assert forall|k: int| 0 <= k < after.nodes.len() implies #[trigger] after.node_wf(
            NodeId(k as usize),
        ) by {
            if k < self.nodes.len() {
                assert(self.node_wf(NodeId(k as usize)));
                self.lemma_rooted_kept(after, NodeId(k as usize));
            } else {
                reveal_with_fuel(XotView::ancestor, 2);
                assert(after.ancestor(NodeId(k as usize), 1) is None);
            }
        }
    }
}

} // verus!
