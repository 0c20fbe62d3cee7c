//! The rules of the conversion, as a mathematical model.
//!
//! A conversion is a walk over the source DOM in document order. Its state is
//! the tree built so far, the source nodes met so far with the tree node that
//! stands for each, and the work still to do. [`visit`] says what one source
//! node does to that state; [`run`] repeats it until no work is left.
//! [`convert`] is the walk over one source node with all below it;
//! [`lemma_convert_unfolds`] and [`lemma_convert_all_unfolds`] say it again
//! as a descent from a node to its children. [`sound`] holds what every walk
//! keeps.

use crate::id::{NameId, NamespaceId};
use crate::source::{
    well_formed, QualifiedNameView, SourceAttributeView, SourceDataView, SourceNodeView,
};
use crate::xotdata::{lemma_first_index, put_attribute, NodeId, ValueView, XotView};
use vstd::prelude::*;

verus! {

/// The state of a walk.
pub struct Walk {
    /// The tree built so far.
    pub tree: XotView,
    /// The source nodes met so far, each with the tree node that stands for
    /// it.
    pub visited: Map<usize, NodeId>,
    /// The namespaces remembered so far: URI and identifier, in the order in
    /// which they were first met.
    pub cache: Seq<(Seq<char>, NamespaceId)>,
    /// The work left: source nodes, each with the tree node under which it
    /// goes. The last entry is done next.
    pub pending: Seq<(usize, NodeId)>,
}

/// Whether the cache holds an identifier for `uri`.
pub open spec fn caches(cache: Seq<(Seq<char>, NamespaceId)>, uri: Seq<char>) -> bool {
    exists|i: int| 0 <= i < cache.len() && (#[trigger] cache[i]).0 == uri
}

/// The cache after the identifier of `uri` was asked for in `tree`: the
/// empty URI and a URI that the cache holds leave it as it is; any other is
/// added at its end, with the identifier that the tree gives it.
pub open spec fn cache_uri(cache: Seq<(Seq<char>, NamespaceId)>, tree: XotView, uri: Seq<char>)
    -> Seq<(Seq<char>, NamespaceId)> {
    if uri.len() == 0 || caches(cache, uri) {
        cache
    } else {
        cache.push((uri, tree.namespace_id(uri)))
    }
}

/// The cache after the names of all attributes were interned, in source
/// order, starting in `tree`.
pub open spec fn cache_resolved(
    cache: Seq<(Seq<char>, NamespaceId)>,
    tree: XotView,
    attributes: Seq<SourceAttributeView>,
) -> Seq<(Seq<char>, NamespaceId)>
    decreases attributes.len(),
{
    if attributes.len() == 0 {
        cache
    } else {
        cache_uri(
            cache_resolved(cache, tree, attributes.drop_last()),
            resolved_tree(tree, attributes.drop_last()),
            attributes.last().name.ns,
        )
    }
}

/// The cache after an element arrived: the namespace of its name is asked
/// for first, then those of its attributes, in source order.
pub open spec fn cache_element(
    cache: Seq<(Seq<char>, NamespaceId)>,
    tree: XotView,
    parent: NodeId,
    name: QualifiedNameView,
    attributes: Seq<SourceAttributeView>,
) -> Seq<(Seq<char>, NamespaceId)> {
    cache_resolved(
        cache_uri(cache, tree, name.ns),
        with_child(
            name_tree(tree, name),
            parent,
            ValueView::Element { name: name_id(tree, name), attributes: Seq::empty() },
        ),
        attributes,
    )
}

/// The tree after a qualified name was interned: first its namespace, then
/// the name in that namespace.
pub open spec fn name_tree(tree: XotView, name: QualifiedNameView) -> XotView {
    tree.add_namespace(name.ns).add_name(name.local, tree.namespace_id(name.ns))
}

/// The identifier that interning gives a qualified name.
pub open spec fn name_id(tree: XotView, name: QualifiedNameView) -> NameId {
    tree.add_namespace(name.ns).name_id(name.local, tree.namespace_id(name.ns))
}

/// The tree after the names of all attributes were interned, in source
/// order. No element is touched yet.
pub open spec fn resolved_tree(tree: XotView, attributes: Seq<SourceAttributeView>) -> XotView
    decreases attributes.len(),
{
    if attributes.len() == 0 {
        tree
    } else {
        name_tree(resolved_tree(tree, attributes.drop_last()), attributes.last().name)
    }
}

/// The attributes with their names interned: name identifier and value, in
/// source order.
pub open spec fn resolved_pairs(tree: XotView, attributes: Seq<SourceAttributeView>) -> Seq<
    (NameId, Seq<char>),
>
    decreases attributes.len(),
{
    if attributes.len() == 0 {
        Seq::empty()
    } else {
        resolved_pairs(tree, attributes.drop_last()).push(
            (
                name_id(resolved_tree(tree, attributes.drop_last()), attributes.last().name),
                attributes.last().value,
            ),
        )
    }
}

/// The tree after the pairs were set on the element `node`, one after the
/// other; a name that comes twice keeps its first place and its last value.
pub open spec fn with_attributes(tree: XotView, node: NodeId, pairs: Seq<(NameId, Seq<char>)>)
    -> XotView
    decreases pairs.len(),
{
    if pairs.len() == 0 {
        tree
    } else {
        with_attributes(tree, node, pairs.drop_last()).set_attribute(
            node,
            pairs.last().0,
            pairs.last().1,
        )
    }
}

/// The tree after a new node with the given value became the last child of
/// `parent`. The new node is `tree.next_node()`.
pub open spec fn with_child(tree: XotView, parent: NodeId, value: ValueView) -> XotView {
    tree.add_node(value).append(parent, tree.next_node())
}

/// Whether text that arrives under `parent` joins the last child there: it
/// does when that child is a text node.
pub open spec fn merges_text(tree: XotView, parent: NodeId) -> bool {
    tree.last_child(parent) is Some && tree.is_text(tree.last_child(parent).unwrap())
}

/// The content of a text node.
pub open spec fn text_of(tree: XotView, node: NodeId) -> Seq<char> {
    match tree.value(node) {
        ValueView::Text(content) => content,
        _ => Seq::empty(),
    }
}

/// The node that holds a text after it arrived under `parent`: the last
/// child if that is a text node, else a new node.
pub open spec fn text_node(tree: XotView, parent: NodeId) -> NodeId {
    if merges_text(tree, parent) {
        tree.last_child(parent).unwrap()
    } else {
        tree.next_node()
    }
}

/// The tree after a text arrived under `parent`: the content is added to the
/// end of the last child if that is a text node, else a new text node
/// becomes the last child.
pub open spec fn with_text(tree: XotView, parent: NodeId, content: Seq<char>) -> XotView {
    if merges_text(tree, parent) {
        let last = tree.last_child(parent).unwrap();
        tree.set_value(last, ValueView::Text(text_of(tree, last) + content))
    } else {
        with_child(tree, parent, ValueView::Text(content))
    }
}

/// The tree after an element arrived under `parent`: its name is interned, a
/// new element becomes the last child of `parent`, then the names of all
/// attributes are interned, and only then the attributes are set.
pub open spec fn with_element(
    tree: XotView,
    parent: NodeId,
    name: QualifiedNameView,
    attributes: Seq<SourceAttributeView>,
) -> XotView {
    let placed = with_child(
        name_tree(tree, name),
        parent,
        ValueView::Element { name: name_id(tree, name), attributes: Seq::empty() },
    );
    with_attributes(
        resolved_tree(placed, attributes),
        tree.next_node(),
        resolved_pairs(placed, attributes),
    )
}

/// The work that the children of a node make: each child with the tree node
/// under which it goes, the first child last, so that it is done first.
pub open spec fn children_under(children: Seq<usize>, parent: NodeId) -> Seq<(usize, NodeId)> {
    Seq::new(children.len(), |i: int| (children[children.len() - 1 - i], parent))
}

/// One step of a walk: the last entry of the work list is taken off and
/// done.
///
/// A source node that was met before is skipped, with all below it. A
/// document makes no node: its children go under the given parent. A doctype
/// and a processing instruction make nothing and are not recorded. A text
/// joins a text node before it or makes a new one; a comment always makes a
/// new node; an element makes a new node, under which its children go. Only
/// an element touches the namespaces remembered.
pub open spec fn visit(dom: Seq<SourceNodeView>, walk: Walk) -> Walk
    recommends
        walk.pending.len() > 0,
{
    let source = walk.pending.last().0;
    let parent = walk.pending.last().1;
    let rest = walk.pending.drop_last();
    if walk.visited.contains_key(source) {
        Walk { pending: rest, ..walk }
    } else {
        match dom[source as int].data {
            SourceDataView::Document => Walk {
                visited: walk.visited.insert(source, parent),
                pending: rest + children_under(dom[source as int].children, parent),
                ..walk
            },
            SourceDataView::Doctype => Walk { pending: rest, ..walk },
            SourceDataView::ProcessingInstruction => Walk { pending: rest, ..walk },
            SourceDataView::Text(content) => Walk {
                tree: with_text(walk.tree, parent, content),
                visited: walk.visited.insert(source, text_node(walk.tree, parent)),
                pending: rest,
                ..walk
            },
            SourceDataView::Comment(content) => Walk {
                tree: with_child(walk.tree, parent, ValueView::Comment(content)),
                visited: walk.visited.insert(source, walk.tree.next_node()),
                pending: rest,
                ..walk
            },
            SourceDataView::Element(name, attributes) => Walk {
                tree: with_element(walk.tree, parent, name, attributes),
                visited: walk.visited.insert(source, walk.tree.next_node()),
                cache: cache_element(walk.cache, walk.tree, parent, name, attributes),
                pending: rest + children_under(
                    dom[source as int].children,
                    walk.tree.next_node(),
                ),
            },
        }
    }
}

/// How many of the first `n` source nodes were not met yet.
pub open spec fn unvisited(n: nat, visited: Map<usize, NodeId>) -> nat
    decreases n,
{
    if n == 0 {
        0
    } else {
        unvisited((n - 1) as nat, visited) + if visited.contains_key((n - 1) as usize) {
            0nat
        } else {
            1nat
        }
    }
}

/// Whether a walk can go on over `dom`: the DOM is well formed and every
/// entry of the work list names a node of it.
pub open spec fn runnable(dom: Seq<SourceNodeView>, walk: Walk) -> bool {
    &&& well_formed(dom)
    &&& forall|i: int| 0 <= i < walk.pending.len() ==> (#[trigger] walk.pending[i]).0 < dom.len()
}

/// Recording one more source node leaves one node less to meet; recording
/// anything else changes nothing.
pub proof fn lemma_unvisited_insert(n: nat, visited: Map<usize, NodeId>, key: usize, node: NodeId)
    requires
        n <= usize::MAX,
        !visited.contains_key(key),
    ensures
        key < n ==> unvisited(n, visited.insert(key, node)) + 1 == unvisited(n, visited),
        key >= n ==> unvisited(n, visited.insert(key, node)) == unvisited(n, visited),
    decreases n,
{
    if n > 0 {
        lemma_unvisited_insert((n - 1) as nat, visited, key, node);
    }
}

/// A step leaves the walk runnable and brings it nearer to its end: fewer
/// source nodes are left to meet, or as many and less work.
pub proof fn lemma_visit_progress(dom: Seq<SourceNodeView>, walk: Walk)
    requires
        runnable(dom, walk),
        walk.pending.len() > 0,
    ensures
        runnable(dom, visit(dom, walk)),
        unvisited(dom.len(), visit(dom, walk).visited) < unvisited(dom.len(), walk.visited) || (
        unvisited(dom.len(), visit(dom, walk).visited) == unvisited(dom.len(), walk.visited)
            && visit(dom, walk).pending.len() < walk.pending.len()),
{
    let source = walk.pending.last().0;
    let parent = walk.pending.last().1;
    let next = visit(dom, walk);
    assert(source < dom.len());
    if !walk.visited.contains_key(source) {
        lemma_unvisited_insert(dom.len(), walk.visited, source, next.visited[source]);
        assert(next.visited =~= walk.visited || next.visited =~= walk.visited.insert(
            source,
            next.visited[source],
        ));
    }
    assert forall|i: int| 0 <= i < next.pending.len() implies (#[trigger] next.pending[i]).0
        < dom.len() by {
        if i < walk.pending.len() - 1 {
            assert(next.pending[i] == walk.pending[i]);
        } else {
            let children = dom[source as int].children;
            let k = i - (walk.pending.len() - 1);
            assert(next.pending[i].0 == children[children.len() - 1 - k]);
        }
    }
}

/// The end of a walk: steps are taken until no work is left.
pub open spec fn run(dom: Seq<SourceNodeView>, walk: Walk) -> Walk
    decreases unvisited(dom.len(), walk.visited), walk.pending.len(),
    via run_decreases
{
    if walk.pending.len() == 0 || !runnable(dom, walk) {
        walk
    } else {
        run(dom, visit(dom, walk))
    }
}

/// Every step that [`run`] takes brings the walk nearer to its end.
#[via_fn]
proof fn run_decreases(dom: Seq<SourceNodeView>, walk: Walk) {
    if walk.pending.len() != 0 && runnable(dom, walk) {
        lemma_visit_progress(dom, walk);
    }
}

/// The walk that does one source node, with all below it, and nothing else,
/// from the state `at`; the work list of `at` does not count.
pub open spec fn convert(dom: Seq<SourceNodeView>, at: Walk, source: usize, parent: NodeId) -> Walk {
    run(dom, Walk { pending: seq![(source, parent)], ..at })
}

/// The walk that does the given children under `parent`, one after the
/// other, each with all below it, from the state `at`; the work list of `at`
/// does not count.
pub open spec fn convert_all(
    dom: Seq<SourceNodeView>,
    at: Walk,
    children: Seq<usize>,
    parent: NodeId,
) -> Walk {
    run(dom, Walk { pending: children_under(children, parent), ..at })
}

/// A walk that can go on ends with no work left.
pub proof fn lemma_run_ends(dom: Seq<SourceNodeView>, walk: Walk)
    requires
        runnable(dom, walk),
    ensures
        run(dom, walk).pending.len() == 0,
    decreases unvisited(dom.len(), walk.visited), walk.pending.len(),
{
    if walk.pending.len() > 0 {
        lemma_visit_progress(dom, walk);
        lemma_run_ends(dom, visit(dom, walk));
    }
}

/// The work at the bottom of the list waits until the work above it is
/// done: a walk over both ends where the walk over the bottom ends that
/// starts from the end of the walk over the top.
pub proof fn lemma_run_splits(dom: Seq<SourceNodeView>, walk: Walk, below: Seq<(usize, NodeId)>)
    requires
        runnable(dom, Walk { pending: below + walk.pending, ..walk }),
    ensures
        run(dom, Walk { pending: below + walk.pending, ..walk }) == run(
            dom,
            Walk { pending: below, ..run(dom, walk) },
        ),
    decreases unvisited(dom.len(), walk.visited), walk.pending.len(),
{
    let both = Walk { pending: below + walk.pending, ..walk };
    assert forall|i: int| 0 <= i < walk.pending.len() implies (#[trigger] walk.pending[i]).0
        < dom.len() by {
        assert(both.pending[below.len() + i] == walk.pending[i]);
    }
    if walk.pending.len() == 0 {
        assert(both.pending =~= below);
    } else {
        lemma_visit_progress(dom, walk);
        lemma_visit_progress(dom, both);
        let next = visit(dom, walk);
        assert(both.pending.last() == walk.pending.last());
        assert(both.pending.drop_last() =~= below + walk.pending.drop_last());
        assert(visit(dom, both).pending =~= below + next.pending);
        assert(visit(dom, both) == (Walk { pending: below + next.pending, ..next }));
        lemma_run_splits(dom, next, below);
    }
}

/// Children are done one after the other: the walk over all of them ends
/// where the walk over the rest ends that starts from the end of the walk
/// over the first.
pub proof fn lemma_convert_all_unfolds(
    dom: Seq<SourceNodeView>,
    at: Walk,
    children: Seq<usize>,
    parent: NodeId,
)
    requires
        well_formed(dom),
        forall|j: int| 0 <= j < children.len() ==> (#[trigger] children[j]) < dom.len(),
    ensures
        convert_all(dom, at, children, parent) == if children.len() == 0 {
            Walk { pending: Seq::empty(), ..at }
        } else {
            convert_all(
                dom,
                convert(dom, at, children[0], parent),
                children.drop_first(),
                parent,
            )
        },
{
    let all = Walk { pending: children_under(children, parent), ..at };
    if children.len() == 0 {
        assert(all.pending =~= Seq::empty());
    } else {
        let top = Walk { pending: seq![(children[0], parent)], ..at };
        let below = children_under(children.drop_first(), parent);
        assert(all.pending =~= below + top.pending);
        lemma_run_splits(dom, top, below);
    }
}

/// The walk over one source node, said by the node's kind: the node is done
/// as [`visit`] says, and where children go under a node, they are done
/// next, in document order, before anything else.
pub proof fn lemma_convert_unfolds(dom: Seq<SourceNodeView>, at: Walk, source: usize, parent: NodeId)
    requires
        well_formed(dom),
        source < dom.len(),
    ensures
        convert(dom, at, source, parent) == if at.visited.contains_key(source) {
            Walk { pending: Seq::empty(), ..at }
        } else {
            match dom[source as int].data {
                SourceDataView::Document => convert_all(
                    dom,
                    Walk { visited: at.visited.insert(source, parent), ..at },
                    dom[source as int].children,
                    parent,
                ),
                SourceDataView::Doctype => Walk { pending: Seq::empty(), ..at },
                SourceDataView::ProcessingInstruction => Walk { pending: Seq::empty(), ..at },
                SourceDataView::Text(content) => Walk {
                    tree: with_text(at.tree, parent, content),
                    visited: at.visited.insert(source, text_node(at.tree, parent)),
                    pending: Seq::empty(),
                    ..at
                },
                SourceDataView::Comment(content) => Walk {
                    tree: with_child(at.tree, parent, ValueView::Comment(content)),
                    visited: at.visited.insert(source, at.tree.next_node()),
                    pending: Seq::empty(),
                    ..at
                },
                SourceDataView::Element(name, attributes) => convert_all(
                    dom,
                    Walk {
                        tree: with_element(at.tree, parent, name, attributes),
                        visited: at.visited.insert(source, at.tree.next_node()),
                        cache: cache_element(at.cache, at.tree, parent, name, attributes),
                        ..at
                    },
                    dom[source as int].children,
                    at.tree.next_node(),
                ),
            }
        },
{
    let start = Walk { pending: seq![(source, parent)], ..at };
    let next = visit(dom, start);
    assert(start.pending.last() == (source, parent));
    assert(start.pending.drop_last() =~= Seq::<(usize, NodeId)>::empty());
    lemma_visit_progress(dom, start);
    assert(run(dom, start) == run(dom, next));
    if at.visited.contains_key(source) {
        assert(next.pending =~= Seq::empty());
    } else {
        match dom[source as int].data {
            SourceDataView::Document => {
                assert(next.pending =~= children_under(dom[source as int].children, parent));
            },
            SourceDataView::Element(name, attributes) => {
                assert(next.pending =~= children_under(
                    dom[source as int].children,
                    at.tree.next_node(),
                ));
            },
            _ => {
                assert(next.pending =~= Seq::empty());
            },
        }
    }
}

/// Whether a value is what became of another in the course of a conversion:
/// a document stays a document, an element keeps its name, a text only grows
/// at its end, a comment stays as it is.
pub open spec fn same_kind(before: ValueView, after: ValueView) -> bool {
    match before {
        ValueView::Document => after is Document,
        ValueView::Element { name, .. } => after is Element && after->Element_name == name,
        ValueView::Text(content) => after is Text && content.is_prefix_of(after->Text_0),
        ValueView::Comment(content) => after == before,
    }
}

/// Whether the tables of a tree fit the machine's word.
pub open spec fn fits(tree: XotView) -> bool {
    &&& tree.nodes.len() <= usize::MAX
    &&& tree.namespaces.len() <= usize::MAX
    &&& tree.names.len() <= usize::MAX
}

/// Whether `after` only adds to `before`: every namespace, name and node
/// keeps its identifier, every node keeps its parent and its kind, and the
/// children of a node stay in place, with new ones behind them.
pub open spec fn extends(after: XotView, before: XotView) -> bool {
    &&& before.nodes.len() <= after.nodes.len()
    &&& before.namespaces.is_prefix_of(after.namespaces)
    &&& before.names.is_prefix_of(after.names)
    &&& forall|i: int|
        0 <= i < before.nodes.len() ==> {
            &&& same_kind(before.nodes[i].value, (#[trigger] after.nodes[i]).value)
            &&& after.nodes[i].parent == before.nodes[i].parent
            &&& before.nodes[i].children.is_prefix_of(after.nodes[i].children)
        }
}

/// Whether no two text nodes stand side by side among the children of
/// `node`.
pub open spec fn merged_under(tree: XotView, node: NodeId) -> bool {
    forall|j: int|
        0 <= j && j + 1 < tree.children(node).len() ==> !(tree.is_text(
            #[trigger] tree.children(node)[j],
        ) && tree.is_text(tree.children(node)[j + 1]))
}

/// Whether `after` has text side by side only where `before` had: under a
/// node that `before` did not have, or had with its text merged, the text is
/// merged.
pub open spec fn keeps_merged(before: XotView, after: XotView) -> bool {
    forall|node: NodeId|
        after.has_node(node) && (before.has_node(node) ==> merged_under(before, node))
            ==> #[trigger] merged_under(after, node)
}

/// A tree extends itself.
pub proof fn lemma_extends_reflexive(tree: XotView)
    ensures
        extends(tree, tree),
{
    assert forall|i: int| 0 <= i < tree.nodes.len() implies same_kind(
        tree.nodes[i].value,
        (#[trigger] tree.nodes[i]).value,
    ) by {}
}

/// What extends an extension of a tree extends the tree.
pub proof fn lemma_extends_transitive(a: XotView, b: XotView, c: XotView)
    requires
        extends(b, a),
        extends(c, b),
    ensures
        extends(c, a),
{
    assert forall|i: int| 0 <= i < a.nodes.len() implies {
        &&& same_kind(a.nodes[i].value, (#[trigger] c.nodes[i]).value)
        &&& c.nodes[i].parent == a.nodes[i].parent
        &&& a.nodes[i].children.is_prefix_of(c.nodes[i].children)
    } by {
        assert(same_kind(a.nodes[i].value, b.nodes[i].value));
        assert(same_kind(b.nodes[i].value, c.nodes[i].value));
    }
}

/// Where two steps in a row each keep the text merged, both together do.
pub proof fn lemma_keeps_merged_transitive(a: XotView, b: XotView, c: XotView)
    requires
        a.nodes.len() <= b.nodes.len(),
        keeps_merged(a, b),
        keeps_merged(b, c),
    ensures
        keeps_merged(a, c),
{
    assert forall|node: NodeId|
        c.has_node(node) && (a.has_node(node) ==> merged_under(a, node)) implies #[trigger] merged_under(
        c,
        node,
    ) by {
        if b.has_node(node) {
            assert(merged_under(b, node));
        }
    }
}

/// Where the nodes stay as they are, the text stays merged.
pub proof fn lemma_same_nodes_keep_merged(before: XotView, after: XotView)
    requires
        before.nodes == after.nodes,
    ensures
        keeps_merged(before, after),
{
    assert forall|node: NodeId|
        after.has_node(node) && (before.has_node(node) ==> merged_under(before, node)) implies #[trigger] merged_under(
        after,
        node,
    ) by {
        assert forall|j: int| 0 <= j && j + 1 < after.children(node).len() implies !(after.is_text(
            #[trigger] after.children(node)[j],
        ) && after.is_text(after.children(node)[j + 1])) by {
            assert(before.children(node)[j] == after.children(node)[j]);
        }
    }
}

/// A new node without parent or children leaves the rest of the tree as it
/// is.
pub proof fn lemma_add_node_extends(tree: XotView, value: ValueView)
    requires
        tree.wf(),
    ensures
        extends(tree.add_node(value), tree),
        keeps_merged(tree, tree.add_node(value)),
{
    let after = tree.add_node(value);
    assert forall|i: int| 0 <= i < tree.nodes.len() implies {
        &&& same_kind(tree.nodes[i].value, (#[trigger] after.nodes[i]).value)
        &&& after.nodes[i].parent == tree.nodes[i].parent
        &&& tree.nodes[i].children.is_prefix_of(after.nodes[i].children)
    } by {}
    assert forall|node: NodeId|
        after.has_node(node) && (tree.has_node(node) ==> merged_under(tree, node)) implies #[trigger] merged_under(
        after,
        node,
    ) by {
        assert forall|j: int| 0 <= j && j + 1 < after.children(node).len() implies !(after.is_text(
            #[trigger] after.children(node)[j],
        ) && after.is_text(after.children(node)[j + 1])) by {
            assert(tree.has_node(node));
            assert(tree.node_wf(NodeId(node.0 as int as usize)));
            assert(tree.children(node)[j] == after.children(node)[j]);
            assert(tree.has_node(tree.children(node)[j]));
            assert(tree.has_node(tree.children(node)[j + 1]));
        }
    }
}

/// Interning a namespace leaves the nodes as they are.
pub proof fn lemma_add_namespace_extends(tree: XotView, uri: Seq<char>)
    ensures
        tree.add_namespace(uri).nodes == tree.nodes,
        extends(tree.add_namespace(uri), tree),
        keeps_merged(tree, tree.add_namespace(uri)),
{
    let after = tree.add_namespace(uri);
    lemma_same_nodes_keep_merged(tree, after);
    assert forall|i: int| 0 <= i < tree.nodes.len() implies same_kind(
        tree.nodes[i].value,
        (#[trigger] after.nodes[i]).value,
    ) by {}
}

/// What interning a qualified name does: the tree stays well formed, only
/// the tables grow, and the identifier names the local name in the
/// namespace of the URI; for the empty URI that is "no namespace".
pub proof fn lemma_name_tree(tree: XotView, name: QualifiedNameView)
    requires
        tree.wf(),
        fits(name_tree(tree, name)),
    ensures
        name_tree(tree, name).wf(),
        name_tree(tree, name).nodes == tree.nodes,
        extends(name_tree(tree, name), tree),
        keeps_merged(tree, name_tree(tree, name)),
        names(name_tree(tree, name), name_id(tree, name), name),
        name.ns.len() == 0 ==> name_tree(tree, name).names[name_id(tree, name).0 as int].ns
            == tree.no_namespace(),
{
    let interned = tree.add_namespace(name.ns);
    let ns = tree.namespace_id(name.ns);
    tree.lemma_add_namespace(name.ns);
    interned.lemma_add_name(name.local, ns);
    lemma_same_nodes_keep_merged(tree, name_tree(tree, name));
    if name.ns.len() == 0 {
        assert(name.ns =~= Seq::<char>::empty());
        lemma_first_index(tree.namespaces, name.ns, 0);
    }
}

/// Whether the identifier `id` names, in `tree`, the local name of `name`
/// in the namespace of its URI.
pub open spec fn names(tree: XotView, id: NameId, name: QualifiedNameView) -> bool {
    &&& tree.has_name(id)
    &&& tree.names[id.0 as int].local == name.local
    &&& tree.has_namespace(tree.names[id.0 as int].ns)
    &&& tree.namespaces[tree.names[id.0 as int].ns.0 as int] == name.ns
}

/// What a new last child does: the tree stays well formed and only grows,
/// the new node is the one foretold, and text stays merged unless the new
/// node is a text behind a text.
pub proof fn lemma_with_child(tree: XotView, parent: NodeId, value: ValueView)
    requires
        tree.wf(),
        tree.has_node(parent),
        tree.value(parent).is_container(),
        fits(with_child(tree, parent, value)),
        match value {
            ValueView::Document => false,
            ValueView::Element { name, attributes } => tree.has_name(name) && attributes.len()
                == 0,
            ValueView::Text(_) => !merges_text(tree, parent),
            ValueView::Comment(_) => true,
        },
    ensures
        with_child(tree, parent, value).wf(),
        extends(with_child(tree, parent, value), tree),
        keeps_merged(tree, with_child(tree, parent, value)),
        with_child(tree, parent, value).nodes.len() == tree.nodes.len() + 1,
        with_child(tree, parent, value).namespaces == tree.namespaces,
        with_child(tree, parent, value).names == tree.names,
        with_child(tree, parent, value).has_node(tree.next_node()),
        !tree.has_node(tree.next_node()),
        with_child(tree, parent, value).value(tree.next_node()) == value,
        with_child(tree, parent, value).parent(tree.next_node()) == Some(parent),
        with_child(tree, parent, value).last_child(parent) == Some(tree.next_node()),
{
    let node = tree.next_node();
    let added = tree.add_node(value);
    let after = with_child(tree, parent, value);
    tree.lemma_add_node(value);
    added.lemma_childless_is_no_ancestor(node, parent);
    added.lemma_append_wf(parent, node);
    assert forall|i: int| 0 <= i < tree.nodes.len() implies {
        &&& same_kind(tree.nodes[i].value, (#[trigger] after.nodes[i]).value)
        &&& after.nodes[i].parent == tree.nodes[i].parent
        &&& tree.nodes[i].children.is_prefix_of(after.nodes[i].children)
    } by {}
    assert forall|other: NodeId|
        after.has_node(other) && (tree.has_node(other) ==> merged_under(tree, other)) implies #[trigger] merged_under(
        after,
        other,
    ) by {
        assert forall|j: int|
            0 <= j && j + 1 < after.children(other).len() implies !(after.is_text(
            #[trigger] after.children(other)[j],
        ) && after.is_text(after.children(other)[j + 1])) by {
            if other == node {
            } else {
                assert(tree.node_wf(NodeId(other.0 as int as usize)));
                let kids = tree.children(other);
                if other == parent && j + 1 == kids.len() {
                    assert(after.children(other)[j] == kids.last());
                    assert(tree.has_node(kids[j]));
                    assert(after.children(other)[j + 1] == node);
                } else {
                    assert(kids[j] == after.children(other)[j]);
                    assert(kids[j + 1] == after.children(other)[j + 1]);
                    assert(tree.has_node(kids[j]));
                    assert(tree.has_node(kids[j + 1]));
                }
            }
        }
    }
}

/// What an arriving text does: the tree stays well formed and only grows,
/// text stays merged, and the content stands at the end of the node that
/// holds it, which is the last child of `parent`.
pub proof fn lemma_with_text(tree: XotView, parent: NodeId, content: Seq<char>)
    requires
        tree.wf(),
        tree.has_node(parent),
        tree.value(parent).is_container(),
        fits(with_text(tree, parent, content)),
    ensures
        with_text(tree, parent, content).wf(),
        extends(with_text(tree, parent, content), tree),
        keeps_merged(tree, with_text(tree, parent, content)),
        with_text(tree, parent, content).last_child(parent) == Some(text_node(tree, parent)),
        with_text(tree, parent, content).is_text(text_node(tree, parent)),
        merges_text(tree, parent) ==> with_text(tree, parent, content).nodes.len()
            == tree.nodes.len() && text_of(
            with_text(tree, parent, content),
            text_node(tree, parent),
        ) == text_of(tree, text_node(tree, parent)) + content,
        !merges_text(tree, parent) ==> with_text(tree, parent, content).nodes.len()
            == tree.nodes.len() + 1 && text_of(
            with_text(tree, parent, content),
            text_node(tree, parent),
        ) == content && !tree.has_node(text_node(tree, parent)) && with_text(
            tree,
            parent,
            content,
        ).parent(text_node(tree, parent)) == Some(parent),
{
    let after = with_text(tree, parent, content);
    if merges_text(tree, parent) {
        let last = tree.last_child(parent).unwrap();
        let value = ValueView::Text(text_of(tree, last) + content);
        tree.lemma_set_value_wf(last, value);
        assert forall|i: int| 0 <= i < tree.nodes.len() implies {
            &&& same_kind(tree.nodes[i].value, (#[trigger] after.nodes[i]).value)
            &&& after.nodes[i].parent == tree.nodes[i].parent
            &&& tree.nodes[i].children.is_prefix_of(after.nodes[i].children)
        } by {}
        assert forall|other: NodeId|
            after.has_node(other) && (tree.has_node(other) ==> merged_under(tree, other)) implies #[trigger] merged_under(
            after,
            other,
        ) by {
            assert forall|j: int|
                0 <= j && j + 1 < after.children(other).len() implies !(after.is_text(
                #[trigger] after.children(other)[j],
            ) && after.is_text(after.children(other)[j + 1])) by {
                assert(tree.children(other)[j] == after.children(other)[j]);
                assert(tree.is_text(tree.children(other)[j]) == after.is_text(
                    after.children(other)[j],
                ));
                assert(tree.is_text(tree.children(other)[j + 1]) == after.is_text(
                    after.children(other)[j + 1],
                ));
            }
        }
    } else {
        lemma_with_child(tree, parent, ValueView::Text(content));
    }
}


/// A name keeps what it names when the tree only grows.
pub proof fn lemma_names_extends(
    before: XotView,
    after: XotView,
    id: NameId,
    name: QualifiedNameView,
)
    requires
        names(before, id, name),
        extends(after, before),
    ensures
        names(after, id, name),
{
    assert(after.names[id.0 as int] == before.names[id.0 as int]);
    let ns = before.names[id.0 as int].ns;
    assert(after.namespaces[ns.0 as int] == before.namespaces[ns.0 as int]);
}

/// Interning the names of attributes touches no node and shrinks no table.
pub proof fn lemma_resolved_shape(tree: XotView, attributes: Seq<SourceAttributeView>)
    ensures
        resolved_tree(tree, attributes).nodes == tree.nodes,
        tree.namespaces.len() <= resolved_tree(tree, attributes).namespaces.len(),
        tree.names.len() <= resolved_tree(tree, attributes).names.len(),
        resolved_pairs(tree, attributes).len() == attributes.len(),
    decreases attributes.len(),
{
    if attributes.len() > 0 {
        lemma_resolved_shape(tree, attributes.drop_last());
    }
}

/// What interning the names of attributes does: the tree stays well formed,
/// only its tables grow, and each pair holds the identifier that names the
/// attribute's name, with the attribute's value.
pub proof fn lemma_resolved(tree: XotView, attributes: Seq<SourceAttributeView>)
    requires
        tree.wf(),
        fits(resolved_tree(tree, attributes)),
    ensures
        resolved_tree(tree, attributes).wf(),
        resolved_tree(tree, attributes).nodes == tree.nodes,
        extends(resolved_tree(tree, attributes), tree),
        keeps_merged(tree, resolved_tree(tree, attributes)),
        resolved_pairs(tree, attributes).len() == attributes.len(),
        forall|j: int|
            0 <= j < attributes.len() ==> names(
                resolved_tree(tree, attributes),
                (#[trigger] resolved_pairs(tree, attributes)[j]).0,
                attributes[j].name,
            ) && resolved_pairs(tree, attributes)[j].1 == attributes[j].value,
    decreases attributes.len(),
{
    let after = resolved_tree(tree, attributes);
    if attributes.len() > 0 {
        let front = attributes.drop_last();
        let before = resolved_tree(tree, front);
        let last = attributes.last();
        lemma_resolved_shape(tree, front);
        assert(fits(before));
        lemma_resolved(tree, front);
        lemma_name_tree(before, last.name);
        lemma_extends_transitive(tree, before, after);
        lemma_keeps_merged_transitive(tree, before, after);
        assert forall|j: int| 0 <= j < attributes.len() implies names(
            after,
            (#[trigger] resolved_pairs(tree, attributes)[j]).0,
            attributes[j].name,
        ) && resolved_pairs(tree, attributes)[j].1 == attributes[j].value by {
            if j < front.len() {
                assert(resolved_pairs(tree, attributes)[j] == resolved_pairs(tree, front)[j]);
                assert(front[j] == attributes[j]);
                lemma_names_extends(before, after, resolved_pairs(tree, front)[j].0, front[j].name);
            }
        }
    } else {
        lemma_same_nodes_keep_merged(tree, after);
    }
}

/// Setting attributes moves no node and touches no table.
pub proof fn lemma_with_attributes_shape(
    tree: XotView,
    node: NodeId,
    pairs: Seq<(NameId, Seq<char>)>,
)
    requires
        tree.has_node(node),
    ensures
        with_attributes(tree, node, pairs).nodes.len() == tree.nodes.len(),
        with_attributes(tree, node, pairs).namespaces == tree.namespaces,
        with_attributes(tree, node, pairs).names == tree.names,
    decreases pairs.len(),
{
    if pairs.len() > 0 {
        lemma_with_attributes_shape(tree, node, pairs.drop_last());
    }
}

/// What setting attributes does: the tree stays well formed, and nothing
/// changes but the attributes of the one element.
pub proof fn lemma_with_attributes(tree: XotView, node: NodeId, pairs: Seq<(NameId, Seq<char>)>)
    requires
        tree.wf(),
        tree.is_element(node),
        forall|j: int| 0 <= j < pairs.len() ==> tree.has_name((#[trigger] pairs[j]).0),
    ensures
        with_attributes(tree, node, pairs).wf(),
        extends(with_attributes(tree, node, pairs), tree),
        keeps_merged(tree, with_attributes(tree, node, pairs)),
        with_attributes(tree, node, pairs).nodes.len() == tree.nodes.len(),
        with_attributes(tree, node, pairs).namespaces == tree.namespaces,
        with_attributes(tree, node, pairs).names == tree.names,
        with_attributes(tree, node, pairs).children(node) == tree.children(node),
        forall|other: NodeId|
            tree.has_node(other) && other != node ==> with_attributes(tree, node, pairs).nodes[other.0 as int]
                == #[trigger] tree.nodes[other.0 as int],
    decreases pairs.len(),
{
    let after = with_attributes(tree, node, pairs);
    if pairs.len() > 0 {
        let before = with_attributes(tree, node, pairs.drop_last());
        lemma_with_attributes(tree, node, pairs.drop_last());
        let name = pairs.last().0;
        let value = pairs.last().1;
        assert(same_kind(tree.nodes[node.0 as int].value, before.nodes[node.0 as int].value));
        assert(before.node_wf(NodeId(node.0 as int as usize)));
        match before.value(node) {
            ValueView::Element { name: element_name, attributes } => {
                let set = ValueView::Element {
                    name: element_name,
                    attributes: put_attribute(attributes, name, value),
                };
                before.lemma_put_attribute(attributes, name, value);
                before.lemma_set_value_wf(node, set);
                assert forall|i: int| 0 <= i < before.nodes.len() implies {
                    &&& same_kind(before.nodes[i].value, (#[trigger] after.nodes[i]).value)
                    &&& after.nodes[i].parent == before.nodes[i].parent
                    &&& before.nodes[i].children.is_prefix_of(after.nodes[i].children)
                } by {}
                assert forall|other: NodeId|
                    after.has_node(other) && (before.has_node(other) ==> merged_under(
                        before,
                        other,
                    )) implies #[trigger] merged_under(after, other) by {
                    assert forall|j: int|
                        0 <= j && j + 1 < after.children(other).len() implies !(after.is_text(
                        #[trigger] after.children(other)[j],
                    ) && after.is_text(after.children(other)[j + 1])) by {
                        assert(before.children(other)[j] == after.children(other)[j]);
                        assert(before.is_text(before.children(other)[j]) == after.is_text(
                            after.children(other)[j],
                        ));
                        assert(before.is_text(before.children(other)[j + 1]) == after.is_text(
                            after.children(other)[j + 1],
                        ));
                    }
                }
            },
            _ => {},
        }
        lemma_extends_transitive(tree, before, after);
        lemma_keeps_merged_transitive(tree, before, after);
    } else {
        lemma_same_nodes_keep_merged(tree, after);
    }
}

/// The attributes after the pairs were set one after the other.
pub open spec fn put_all(attributes: Seq<(NameId, Seq<char>)>, pairs: Seq<(NameId, Seq<char>)>)
    -> Seq<(NameId, Seq<char>)>
    decreases pairs.len(),
{
    if pairs.len() == 0 {
        attributes
    } else {
        put_attribute(put_all(attributes, pairs.drop_last()), pairs.last().0, pairs.last().1)
    }
}

/// Setting pairs on an element leaves its name and gives it the attributes
/// that [`put_all`] names.
pub proof fn lemma_with_attributes_value(
    tree: XotView,
    node: NodeId,
    pairs: Seq<(NameId, Seq<char>)>,
)
    requires
        tree.is_element(node),
    ensures
        with_attributes(tree, node, pairs).has_node(node),
        with_attributes(tree, node, pairs).value(node) == (ValueView::Element {
            name: tree.value(node)->Element_name,
            attributes: put_all(tree.value(node)->Element_attributes, pairs),
        }),
    decreases pairs.len(),
{
    if pairs.len() > 0 {
        lemma_with_attributes_value(tree, node, pairs.drop_last());
    }
}

/// Pairs whose names differ from each other are set as they come: in their
/// order, each with its value.
pub proof fn lemma_put_all_distinct(pairs: Seq<(NameId, Seq<char>)>)
    requires
        forall|j: int, k: int|
            0 <= j < k < pairs.len() ==> (#[trigger] pairs[j]).0 != (#[trigger] pairs[k]).0,
    ensures
        put_all(Seq::empty(), pairs) == pairs,
    decreases pairs.len(),
{
    if pairs.len() > 0 {
        let front = pairs.drop_last();
        assert forall|j: int, k: int| 0 <= j < k < front.len() implies (#[trigger] front[j]).0 != (
        #[trigger] front[k]).0 by {
            assert(front[j] == pairs[j]);
            assert(front[k] == pairs[k]);
        }
        lemma_put_all_distinct(front);
        let names = front.map_values(|a: (NameId, Seq<char>)| a.0);
        assert forall|j: int| 0 <= j < names.len() implies names[j] != pairs.last().0 by {
            assert(names[j] == pairs[j].0);
        }
        lemma_first_index(names, pairs.last().0, names.len() as int);
        assert(put_all(Seq::empty(), pairs) =~= pairs);
    } else {
        assert(put_all(Seq::empty(), pairs) =~= pairs);
    }
}

/// The element that arrives has the name that interning gave it and the
/// attributes of the source, each under its interned name, set in source
/// order: where no name comes twice, these are the attributes as the source
/// lists them.
pub proof fn lemma_element_attributes(
    tree: XotView,
    parent: NodeId,
    name: QualifiedNameView,
    attributes: Seq<SourceAttributeView>,
)
    requires
        tree.wf(),
        tree.has_node(parent),
        tree.value(parent).is_container(),
        fits(with_element(tree, parent, name, attributes)),
    ensures
        ({
            let placed = with_child(
                name_tree(tree, name),
                parent,
                ValueView::Element { name: name_id(tree, name), attributes: Seq::empty() },
            );
            with_element(tree, parent, name, attributes).value(tree.next_node())
                == (ValueView::Element {
                name: name_id(tree, name),
                attributes: put_all(Seq::empty(), resolved_pairs(placed, attributes)),
            })
        }),
{
    let node = tree.next_node();
    let named = name_tree(tree, name);
    let value = ValueView::Element { name: name_id(tree, name), attributes: Seq::empty() };
    let placed = with_child(named, parent, value);
    let resolved = resolved_tree(placed, attributes);
    assert(named.nodes == tree.nodes);
    assert(placed.has_node(node));
    assert(placed.value(node) == value);
    lemma_resolved_shape(placed, attributes);
    lemma_with_attributes_value(resolved, node, resolved_pairs(placed, attributes));
}

/// What an arriving element does: the tree stays well formed and only grows,
/// text stays merged, and the one new node is an element, the last child of
/// `parent`, whose name is the local name of `name` in the namespace of its
/// URI.
pub proof fn lemma_with_element(
    tree: XotView,
    parent: NodeId,
    name: QualifiedNameView,
    attributes: Seq<SourceAttributeView>,
)
    requires
        tree.wf(),
        tree.has_node(parent),
        tree.value(parent).is_container(),
        fits(with_element(tree, parent, name, attributes)),
    ensures
        with_element(tree, parent, name, attributes).wf(),
        extends(with_element(tree, parent, name, attributes), tree),
        keeps_merged(tree, with_element(tree, parent, name, attributes)),
        with_element(tree, parent, name, attributes).nodes.len() == tree.nodes.len() + 1,
        !tree.has_node(tree.next_node()),
        with_element(tree, parent, name, attributes).is_element(tree.next_node()),
        with_element(tree, parent, name, attributes).parent(tree.next_node()) == Some(parent),
        with_element(tree, parent, name, attributes).last_child(parent) == Some(tree.next_node()),
        names(
            with_element(tree, parent, name, attributes),
            with_element(tree, parent, name, attributes).value(tree.next_node())->Element_name,
            name,
        ),
{
    let node = tree.next_node();
    let named = name_tree(tree, name);
    let id = name_id(tree, name);
    let value = ValueView::Element { name: id, attributes: Seq::empty() };
    let placed = with_child(named, parent, value);
    let resolved = resolved_tree(placed, attributes);
    let pairs = resolved_pairs(placed, attributes);
    let after = with_element(tree, parent, name, attributes);
    assert(named.nodes == tree.nodes);
    assert(placed.nodes.len() == tree.nodes.len() + 1);
    assert(placed.has_node(node));
    lemma_resolved_shape(placed, attributes);
    lemma_with_attributes_shape(resolved, node, pairs);
    assert(fits(named));
    lemma_name_tree(tree, name);
    lemma_with_child(named, parent, value);
    lemma_resolved(placed, attributes);
    assert forall|j: int| 0 <= j < pairs.len() implies resolved.has_name((#[trigger] pairs[j]).0) by {
        assert(names(resolved, pairs[j].0, attributes[j].name));
    }
    lemma_with_attributes(resolved, node, pairs);
    lemma_extends_transitive(tree, named, placed);
    lemma_extends_transitive(tree, placed, resolved);
    lemma_extends_transitive(tree, resolved, after);
    lemma_keeps_merged_transitive(tree, named, placed);
    lemma_keeps_merged_transitive(tree, placed, resolved);
    lemma_keeps_merged_transitive(tree, resolved, after);
    lemma_extends_transitive(placed, resolved, after);
    lemma_names_extends(named, placed, id, name);
    lemma_names_extends(placed, after, id, name);
    assert(same_kind(placed.nodes[node.0 as int].value, after.nodes[node.0 as int].value));
    assert(placed.nodes[parent.0 as int].children.is_prefix_of(
        after.nodes[parent.0 as int].children,
    ));
    assert(after.children(parent) == resolved.children(parent)) by {
        if parent != node {
            assert(after.nodes[parent.0 as int] == resolved.nodes[parent.0 as int]);
        }
    }
}


/// Whether every entry of the work list goes under a node of the tree that
/// may hold children.
pub open spec fn parents_ok(walk: Walk) -> bool {
    forall|i: int|
        0 <= i < walk.pending.len() ==> walk.tree.has_node((#[trigger] walk.pending[i]).1)
            && walk.tree.value(walk.pending[i].1).is_container()
}

/// Whether the tree node `node` can stand for the source node `source`: a
/// text node for a text, the same comment for a comment, an element of the
/// same name for an element, and for a document the node under which its
/// children go. Nothing stands for a doctype or a processing instruction.
pub open spec fn stands_for(dom: Seq<SourceNodeView>, tree: XotView, source: usize, node: NodeId)
    -> bool {
    &&& source < dom.len()
    &&& tree.has_node(node)
    &&& match dom[source as int].data {
        SourceDataView::Document => tree.value(node).is_container(),
        SourceDataView::Doctype => false,
        SourceDataView::ProcessingInstruction => false,
        SourceDataView::Text(_) => tree.value(node) is Text,
        SourceDataView::Comment(content) => tree.value(node) == ValueView::Comment(content),
        SourceDataView::Element(name, _) => tree.value(node) is Element && names(
            tree,
            tree.value(node)->Element_name,
            name,
        ),
    }
}

/// Whether nothing is left to decide about a source node: it makes no node
/// anyway, or it was met, or it waits on the work list.
pub open spec fn settled(dom: Seq<SourceNodeView>, walk: Walk, source: usize) -> bool {
    ||| dom[source as int].data is Doctype
    ||| dom[source as int].data is ProcessingInstruction
    ||| walk.visited.contains_key(source)
    ||| exists|i: int| 0 <= i < walk.pending.len() && (#[trigger] walk.pending[i]).0 == source
}

/// Whether a walk has left the tree as it was at the start: then all it has
/// met since are documents, whose children are settled, as is the node it
/// started from; and all the work left goes under the parent it started
/// with.
pub open spec fn untouched(dom: Seq<SourceNodeView>, start: Walk, walk: Walk) -> bool {
    &&& walk.tree == start.tree
    &&& forall|i: int|
        0 <= i < walk.pending.len() ==> (#[trigger] walk.pending[i]).1 == start.pending[0].1
    &&& forall|s: usize|
        #[trigger] walk.visited.contains_key(s) && !start.visited.contains_key(s)
            ==> dom[s as int].data is Document
    &&& forall|s: usize, j: int|
        walk.visited.contains_key(s) && !start.visited.contains_key(s) && 0 <= j
            < dom[s as int].children.len() ==> settled(
            dom,
            walk,
            #[trigger] dom[s as int].children[j],
        )
    &&& settled(dom, walk, start.pending[0].0)
}

/// What holds of a walk at every step, seen from its start, where the work
/// list held one entry:
/// the tree has only grown, and text is side by side only where it was;
/// what was recorded at the start is still recorded; each source node
/// recorded since is stood for by its tree node; each tree node made
/// since stands for a source node recorded since and lies below the parent
/// that the walk started with, as does all the work left; and the tree is
/// untouched or that parent has a child.
pub open spec fn sound(dom: Seq<SourceNodeView>, start: Walk, walk: Walk) -> bool {
    &&& start.pending.len() == 1
    &&& start.tree.has_node(start.pending[0].1)
    &&& untouched(dom, start, walk) || walk.tree.children(start.pending[0].1).len() > 0
    &&& extends(walk.tree, start.tree)
    &&& keeps_merged(start.tree, walk.tree)
    &&& forall|s: usize| #[trigger]
        start.visited.contains_key(s) ==> walk.visited.contains_key(s) && walk.visited[s]
            == start.visited[s]
    &&& forall|s: usize|
        #[trigger] walk.visited.contains_key(s) && !start.visited.contains_key(s) ==> stands_for(
            dom,
            walk.tree,
            s,
            walk.visited[s],
        )
    &&& forall|node: NodeId|
        #[trigger] walk.tree.has_node(node) && !start.tree.has_node(node) ==> exists|s: usize|
            walk.visited.contains_key(s) && !start.visited.contains_key(s)
                && #[trigger] walk.visited[s] == node
    &&& forall|node: NodeId|
        #[trigger] walk.tree.has_node(node) && !start.tree.has_node(node)
            ==> walk.tree.is_ancestor_or_self(start.pending[0].1, node)
    &&& forall|i: int|
        0 <= i < walk.pending.len() ==> walk.tree.is_ancestor_or_self(
            start.pending[0].1,
            (#[trigger] walk.pending[i]).1,
        )
}

/// A node that lies below another still does when the tree only grows.
pub proof fn lemma_below_kept(before: XotView, after: XotView, top: NodeId, node: NodeId)
    requires
        before.wf(),
        before.has_node(node),
        extends(after, before),
        before.is_ancestor_or_self(top, node),
    ensures
        after.is_ancestor_or_self(top, node),
{
    let steps = choose|steps: nat| before.ancestor(node, steps) == Some(top);
    assert forall|m: NodeId| before.has_node(m) implies #[trigger] after.parent(m)
        == before.parent(m) by {
        assert(after.nodes[m.0 as int].parent == before.nodes[m.0 as int].parent);
    }
    before.lemma_ancestor_kept(after, node, steps, before.next_node());
}

/// A tree node goes on standing for a source node when the tree only grows.
pub proof fn lemma_stands_for_extends(
    dom: Seq<SourceNodeView>,
    before: XotView,
    after: XotView,
    source: usize,
    node: NodeId,
)
    requires
        stands_for(dom, before, source, node),
        extends(after, before),
    ensures
        stands_for(dom, after, source, node),
{
    assert(same_kind(before.nodes[node.0 as int].value, after.nodes[node.0 as int].value));
    match dom[source as int].data {
        SourceDataView::Element(name, _) => {
            lemma_names_extends(before, after, before.value(node)->Element_name, name);
        },
        _ => {},
    }
}

/// Every walk with one entry on its work list is sound seen from itself.
pub proof fn lemma_sound_at_start(dom: Seq<SourceNodeView>, start: Walk)
    requires
        start.pending.len() == 1,
        start.tree.has_node(start.pending[0].1),
    ensures
        sound(dom, start, start),
{
    assert(start.tree.ancestor(start.pending[0].1, 0) == Some(start.pending[0].1));
    lemma_same_nodes_keep_merged(start.tree, start.tree);
    assert forall|i: int| 0 <= i < start.tree.nodes.len() implies same_kind(
        start.tree.nodes[i].value,
        (#[trigger] start.tree.nodes[i]).value,
    ) by {}
}

/// Whether a walk passes over a source node: the node was met before, or it
/// is a doctype or a processing instruction.
pub open spec fn skipped(dom: Seq<SourceNodeView>, visited: Map<usize, NodeId>, source: usize)
    -> bool {
    ||| visited.contains_key(source)
    ||| dom[source as int].data is Doctype
    ||| dom[source as int].data is ProcessingInstruction
}

/// A walk over one source node that is passed over is sound at its end,
/// which is its start without the entry.
pub proof fn lemma_sound_when_skipped(dom: Seq<SourceNodeView>, start: Walk)
    requires
        start.pending.len() == 1,
        start.tree.has_node(start.pending[0].1),
        skipped(dom, start.visited, start.pending[0].0),
    ensures
        sound(dom, start, Walk { pending: Seq::empty(), ..start }),
{
    lemma_sound_at_start(dom, start);
}

/// A step keeps a walk sound.
pub proof fn lemma_visit_sound(dom: Seq<SourceNodeView>, start: Walk, walk: Walk)
    requires
        runnable(dom, walk),
        walk.pending.len() > 0,
        walk.tree.wf(),
        parents_ok(walk),
        sound(dom, start, walk),
        fits(visit(dom, walk).tree),
    ensures
        visit(dom, walk).tree.wf(),
        parents_ok(visit(dom, walk)),
        sound(dom, start, visit(dom, walk)),
{
    let source = walk.pending.last().0;
    let parent = walk.pending.last().1;
    let rest = walk.pending.drop_last();
    let next = visit(dom, walk);
    let fresh = walk.tree.next_node();
    assert(source < dom.len());
    assert(walk.tree.has_node(parent) && walk.tree.value(parent).is_container());
    if walk.visited.contains_key(source) {
        assert(next.tree == walk.tree);
        assert(next.visited == walk.visited);
    } else {
        match dom[source as int].data {
            SourceDataView::Document => {
                assert(stands_for(dom, walk.tree, source, parent));
            },
            SourceDataView::Doctype => {},
            SourceDataView::ProcessingInstruction => {},
            SourceDataView::Text(content) => {
                lemma_with_text(walk.tree, parent, content);
            },
            SourceDataView::Comment(content) => {
                lemma_with_child(walk.tree, parent, ValueView::Comment(content));
            },
            SourceDataView::Element(name, attributes) => {
                lemma_with_element(walk.tree, parent, name, attributes);
            },
        }
        if next.tree == walk.tree {
            lemma_same_nodes_keep_merged(walk.tree, next.tree);
            assert forall|i: int| 0 <= i < walk.tree.nodes.len() implies same_kind(
                walk.tree.nodes[i].value,
                (#[trigger] next.tree.nodes[i]).value,
            ) by {}
        }
        lemma_extends_transitive(start.tree, walk.tree, next.tree);
        lemma_keeps_merged_transitive(start.tree, walk.tree, next.tree);
        assert forall|s: usize|
            #[trigger] next.visited.contains_key(s) && !start.visited.contains_key(
                s,
            ) implies stands_for(dom, next.tree, s, next.visited[s]) by {
            if s != source {
                assert(walk.visited.contains_key(s));
                lemma_stands_for_extends(dom, walk.tree, next.tree, s, walk.visited[s]);
            }
        }
        assert forall|node: NodeId| #[trigger]
            next.tree.has_node(node) && !start.tree.has_node(node) implies exists|s: usize|
            next.visited.contains_key(s) && !start.visited.contains_key(s)
                && #[trigger] next.visited[s] == node by {
            if walk.tree.has_node(node) {
                let s = choose|s: usize|
                    walk.visited.contains_key(s) && !start.visited.contains_key(s)
                        && #[trigger] walk.visited[s] == node;
                assert(next.visited.contains_key(s) && next.visited[s] == node);
            } else {
                assert(node == fresh);
                assert(next.visited.contains_key(source) && next.visited[source] == node);
            }
        }
    }
    assert forall|i: int| 0 <= i < next.pending.len() implies next.tree.has_node(
        (#[trigger] next.pending[i]).1,
    ) && next.tree.value(next.pending[i].1).is_container() by {
        if i < rest.len() {
            assert(next.pending[i] == walk.pending[i]);
            let p = walk.pending[i].1;
            assert(same_kind(walk.tree.nodes[p.0 as int].value, next.tree.nodes[p.0 as int].value));
        }
    }
    if next.tree == walk.tree {
        lemma_extends_reflexive(walk.tree);
    }
    lemma_visit_first_child(dom, start, walk);
    lemma_visit_below(dom, start, walk);
}

/// A step keeps all that the walk has made, and all the work left, below
/// the parent that the walk started with.
proof fn lemma_visit_below(dom: Seq<SourceNodeView>, start: Walk, walk: Walk)
    requires
        runnable(dom, walk),
        walk.pending.len() > 0,
        walk.tree.wf(),
        parents_ok(walk),
        start.pending.len() == 1,
        start.tree.nodes.len() <= walk.tree.nodes.len(),
        forall|node: NodeId|
            #[trigger] walk.tree.has_node(node) && !start.tree.has_node(node)
                ==> walk.tree.is_ancestor_or_self(start.pending[0].1, node),
        forall|i: int|
            0 <= i < walk.pending.len() ==> walk.tree.is_ancestor_or_self(
                start.pending[0].1,
                (#[trigger] walk.pending[i]).1,
            ),
        extends(visit(dom, walk).tree, walk.tree),
        fits(visit(dom, walk).tree),
    ensures
        forall|node: NodeId|
            #[trigger] visit(dom, walk).tree.has_node(node) && !start.tree.has_node(node) ==> visit(
                dom,
                walk,
            ).tree.is_ancestor_or_self(start.pending[0].1, node),
        forall|i: int|
            0 <= i < visit(dom, walk).pending.len() ==> visit(dom, walk).tree.is_ancestor_or_self(
                start.pending[0].1,
                (#[trigger] visit(dom, walk).pending[i]).1,
            ),
{
    let source = walk.pending.last().0;
    let parent = walk.pending.last().1;
    let rest = walk.pending.drop_last();
    let next = visit(dom, walk);
    let top = start.pending[0].1;
    let fresh = walk.tree.next_node();
    assert(source < dom.len());
    assert(walk.tree.has_node(parent) && walk.tree.value(parent).is_container());
    assert(walk.tree.is_ancestor_or_self(top, walk.pending[walk.pending.len() - 1].1));
    lemma_below_kept(walk.tree, next.tree, top, parent);
    let made = !walk.visited.contains_key(source) && match dom[source as int].data {
        SourceDataView::Text(_) => !merges_text(walk.tree, parent),
        SourceDataView::Comment(_) => true,
        SourceDataView::Element(_, _) => true,
        _ => false,
    };
    if !walk.visited.contains_key(source) {
        match dom[source as int].data {
            SourceDataView::Text(content) => {
                lemma_with_text(walk.tree, parent, content);
            },
            SourceDataView::Comment(content) => {
                lemma_with_child(walk.tree, parent, ValueView::Comment(content));
            },
            SourceDataView::Element(name, attributes) => {
                lemma_with_element(walk.tree, parent, name, attributes);
            },
            _ => {},
        }
    }
    if made {
        assert(next.tree.has_node(fresh));
        assert(next.tree.parent(fresh) == Some(parent));
        let above = choose|above: nat| next.tree.ancestor(parent, above) == Some(top);
        reveal_with_fuel(XotView::ancestor, 2);
        assert(next.tree.ancestor(fresh, 1) == Some(parent));
        next.tree.lemma_ancestor_add(fresh, 1, above);
        assert(next.tree.ancestor(fresh, 1 + above) == Some(top));
    } else {
        assert(next.tree.nodes.len() == walk.tree.nodes.len());
    }
    assert forall|node: NodeId| #[trigger]
        next.tree.has_node(node) && !start.tree.has_node(node) implies next.tree.is_ancestor_or_self(
        top,
        node,
    ) by {
        if walk.tree.has_node(node) {
            lemma_below_kept(walk.tree, next.tree, top, node);
        } else {
            assert(node == fresh);
        }
    }
    assert forall|i: int| 0 <= i < next.pending.len() implies next.tree.is_ancestor_or_self(
        top,
        (#[trigger] next.pending[i]).1,
    ) by {
        if i < rest.len() {
            assert(next.pending[i] == walk.pending[i]);
            assert(walk.tree.has_node(walk.pending[i].1));
            lemma_below_kept(walk.tree, next.tree, top, walk.pending[i].1);
        }
    }
}

/// A step keeps the tree untouched, or leaves the parent that the walk
/// started with with a child: the first node that a walk makes, and the
/// first text that it adds, go under that parent.
proof fn lemma_visit_first_child(dom: Seq<SourceNodeView>, start: Walk, walk: Walk)
    requires
        runnable(dom, walk),
        walk.pending.len() > 0,
        walk.tree.wf(),
        parents_ok(walk),
        start.pending.len() == 1,
        untouched(dom, start, walk) || walk.tree.children(start.pending[0].1).len() > 0,
        walk.tree.has_node(start.pending[0].1),
        extends(visit(dom, walk).tree, walk.tree),
        fits(visit(dom, walk).tree),
    ensures
        untouched(dom, start, visit(dom, walk)) || visit(dom, walk).tree.children(
            start.pending[0].1,
        ).len() > 0,
{
    let source = walk.pending.last().0;
    let parent = walk.pending.last().1;
    let rest = walk.pending.drop_last();
    let next = visit(dom, walk);
    let first_parent = start.pending[0].1;
    let last = walk.pending.len() - 1;
    assert(source < dom.len());
    assert(walk.tree.has_node(parent) && walk.tree.value(parent).is_container());
    if walk.tree.children(first_parent).len() > 0 {
        assert(walk.tree.nodes[first_parent.0 as int].children.is_prefix_of(
            next.tree.nodes[first_parent.0 as int].children,
        ));
    } else {
        assert(walk.pending[last].1 == first_parent);
        let data = dom[source as int].data;
        if walk.visited.contains_key(source) || data is Document || data is Doctype || data
            is ProcessingInstruction {
            assert(next.tree == walk.tree);
            assert forall|i: int| 0 <= i < next.pending.len() implies (#[trigger] next.pending[i]).1
                == first_parent by {
                if i < rest.len() {
                    assert(next.pending[i] == walk.pending[i]);
                }
            }
            assert forall|c: usize| settled(dom, walk, c) implies settled(dom, next, c) by {
                if !(dom[c as int].data is Doctype) && !(dom[c as int].data
                    is ProcessingInstruction) && !walk.visited.contains_key(c) {
                    let i = choose|i: int|
                        0 <= i < walk.pending.len() && (#[trigger] walk.pending[i]).0 == c;
                    if i == last {
                        assert(next.visited.contains_key(c));
                    } else {
                        assert(next.pending[i] == walk.pending[i]);
                    }
                }
            }
            assert forall|s: usize, j: int|
                next.visited.contains_key(s) && !start.visited.contains_key(s) && 0 <= j
                    < dom[s as int].children.len() implies settled(
                dom,
                next,
                #[trigger] dom[s as int].children[j],
            ) by {
                let c = dom[s as int].children[j];
                if walk.visited.contains_key(s) {
                    assert(settled(dom, walk, c));
                } else {
                    let children = dom[source as int].children;
                    let at = rest.len() + (children.len() - 1 - j);
                    assert(next.pending[at].0 == c);
                }
            }
            assert(settled(dom, walk, start.pending[0].0));
        } else {
            match data {
                SourceDataView::Text(content) => {
                    lemma_with_text(walk.tree, parent, content);
                },
                SourceDataView::Comment(content) => {
                    lemma_with_child(walk.tree, parent, ValueView::Comment(content));
                },
                SourceDataView::Element(name, attributes) => {
                    lemma_with_element(walk.tree, parent, name, attributes);
                },
                _ => {},
            }
            assert(next.tree.last_child(first_parent) is Some);
        }
    }
}


/// Text that arrives twice in a row under one parent ends in one node: the
/// second text joins the node that holds the first, no node is made for it,
/// and the node's content ends with the first text followed by the second.
pub proof fn lemma_adjacent_texts_merge(
    tree: XotView,
    parent: NodeId,
    first: Seq<char>,
    second: Seq<char>,
)
    requires
        tree.wf(),
        tree.has_node(parent),
        tree.value(parent).is_container(),
        fits(with_text(tree, parent, first)),
    ensures
        ({
            let once = with_text(tree, parent, first);
            let twice = with_text(once, parent, second);
            let node = text_node(tree, parent);
            &&& text_node(once, parent) == node
            &&& twice.nodes.len() == once.nodes.len()
            &&& twice.children(parent) == once.children(parent)
            &&& twice.last_child(parent) == Some(node)
            &&& text_of(twice, node) == text_of(once, node) + second
            &&& merges_text(tree, parent) ==> text_of(twice, node) == text_of(tree, node) + first
                + second
            &&& !merges_text(tree, parent) ==> text_of(twice, node) == first + second
        }),
{
    let once = with_text(tree, parent, first);
    lemma_with_text(tree, parent, first);
    assert(merges_text(once, parent));
    assert(same_kind(tree.nodes[parent.0 as int].value, once.nodes[parent.0 as int].value));
    let twice = with_text(once, parent, second);
    assert(fits(twice));
    lemma_with_text(once, parent, second);
}

/// Two text nodes of the source that are done one after the other under one
/// parent are stood for by one text node of the tree, whose content ends
/// with the first's content followed by the second's.
pub proof fn lemma_adjacent_text_nodes_merge(dom: Seq<SourceNodeView>, walk: Walk)
    requires
        runnable(dom, walk),
        walk.tree.wf(),
        parents_ok(walk),
        walk.pending.len() >= 2,
        walk.pending[walk.pending.len() - 1].1 == walk.pending[walk.pending.len() - 2].1,
        walk.pending[walk.pending.len() - 1].0 != walk.pending[walk.pending.len() - 2].0,
        dom[walk.pending[walk.pending.len() - 1].0 as int].data is Text,
        dom[walk.pending[walk.pending.len() - 2].0 as int].data is Text,
        !walk.visited.contains_key(walk.pending[walk.pending.len() - 1].0),
        !walk.visited.contains_key(walk.pending[walk.pending.len() - 2].0),
        fits(visit(dom, walk).tree),
    ensures
        ({
            let first = walk.pending[walk.pending.len() - 1].0;
            let second = walk.pending[walk.pending.len() - 2].0;
            let parent = walk.pending[walk.pending.len() - 1].1;
            let once = visit(dom, walk);
            let twice = visit(dom, once);
            let node = twice.visited[first];
            &&& twice.visited.contains_key(first)
            &&& twice.visited.contains_key(second)
            &&& twice.visited[second] == node
            &&& twice.tree.last_child(parent) == Some(node)
            &&& twice.tree.nodes.len() == once.tree.nodes.len()
            &&& text_of(twice.tree, node) == text_of(once.tree, node)
                + dom[second as int].data->Text_0
            &&& dom[first as int].data->Text_0.is_suffix_of(text_of(once.tree, node))
        }),
{
    let last = walk.pending.len() - 1;
    let first = walk.pending[last].0;
    let second = walk.pending[last - 1].0;
    let parent = walk.pending[last].1;
    let once = visit(dom, walk);
    assert(once.pending.last() == walk.pending[last - 1]);
    lemma_adjacent_texts_merge(
        walk.tree,
        parent,
        dom[first as int].data->Text_0,
        dom[second as int].data->Text_0,
    );
}

/// A doctype and a processing instruction leave the walk as it is, but for
/// their entry on the work list: they make no node, are not recorded, and
/// what comes behind them finds the tree as what came before them left it.
pub proof fn lemma_skipped_node_changes_nothing(dom: Seq<SourceNodeView>, walk: Walk)
    requires
        walk.pending.len() > 0,
        dom[walk.pending.last().0 as int].data is Doctype || dom[walk.pending.last().0 as int].data
            is ProcessingInstruction,
    ensures
        visit(dom, walk) == (Walk { pending: walk.pending.drop_last(), ..walk }),
{
}

/// A doctype or a processing instruction between two text nodes of the
/// source does not part them: it makes no node, so the text before it is
/// still the last child when the text behind it arrives, and one text node
/// of the tree stands for both.
pub proof fn lemma_text_merges_across_skipped_node(dom: Seq<SourceNodeView>, walk: Walk)
    requires
        runnable(dom, walk),
        walk.tree.wf(),
        parents_ok(walk),
        walk.pending.len() >= 3,
        walk.pending[walk.pending.len() - 1].1 == walk.pending[walk.pending.len() - 2].1,
        walk.pending[walk.pending.len() - 1].1 == walk.pending[walk.pending.len() - 3].1,
        walk.pending[walk.pending.len() - 1].0 != walk.pending[walk.pending.len() - 3].0,
        dom[walk.pending[walk.pending.len() - 1].0 as int].data is Text,
        dom[walk.pending[walk.pending.len() - 2].0 as int].data is Doctype
            || dom[walk.pending[walk.pending.len() - 2].0 as int].data is ProcessingInstruction,
        dom[walk.pending[walk.pending.len() - 3].0 as int].data is Text,
        !walk.visited.contains_key(walk.pending[walk.pending.len() - 1].0),
        !walk.visited.contains_key(walk.pending[walk.pending.len() - 3].0),
        fits(visit(dom, walk).tree),
    ensures
        ({
            let first = walk.pending[walk.pending.len() - 1].0;
            let skipped = walk.pending[walk.pending.len() - 2].0;
            let second = walk.pending[walk.pending.len() - 3].0;
            let parent = walk.pending[walk.pending.len() - 1].1;
            let once = visit(dom, walk);
            let thrice = visit(dom, visit(dom, once));
            let node = thrice.visited[first];
            &&& thrice.visited.contains_key(first)
            &&& thrice.visited.contains_key(second)
            &&& thrice.visited.contains_key(skipped) == walk.visited.contains_key(skipped)
            &&& thrice.visited[second] == node
            &&& thrice.tree.last_child(parent) == Some(node)
            &&& thrice.tree.nodes.len() == once.tree.nodes.len()
            &&& text_of(thrice.tree, node) == text_of(once.tree, node)
                + dom[second as int].data->Text_0
        }),
{
    let last = walk.pending.len() - 1;
    let first = walk.pending[last].0;
    let second = walk.pending[last - 2].0;
    let parent = walk.pending[last].1;
    let once = visit(dom, walk);
    assert(once.pending.last() == walk.pending[last - 1]);
    let twice = visit(dom, once);
    assert(twice.tree == once.tree);
    assert(twice.pending.last() == walk.pending[last - 2]);
    lemma_adjacent_texts_merge(
        walk.tree,
        parent,
        dom[first as int].data->Text_0,
        dom[second as int].data->Text_0,
    );
}

/// A name whose namespace URI is empty lies in "no namespace".
pub proof fn lemma_empty_uri_is_no_namespace(tree: XotView, id: NameId, name: QualifiedNameView)
    requires
        tree.wf(),
        names(tree, id, name),
        name.ns.len() == 0,
    ensures
        tree.names[id.0 as int].ns == tree.no_namespace(),
{
    let ns = tree.names[id.0 as int].ns;
    assert(name.ns =~= Seq::<char>::empty());
    if ns.0 != 0 {
        assert(tree.namespaces[0] == tree.namespaces[ns.0 as int]);
    }
}


} // verus!
