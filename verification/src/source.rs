//! A plain model of the DOM that an HTML parser produces.
//!
//! The nodes live in one table and refer to their children by position, so a
//! node can be reached through more than one reference. A node's position in
//! the table is its identity: two nodes with equal content at different
//! positions are different nodes.

use vstd::prelude::*;

verus! {

/// A name qualified by a namespace URI; the empty URI means "no namespace".
#[derive(Debug)]
pub struct QualifiedName {
    pub ns: String,
    pub local: String,
}

/// The mathematical value of a [`QualifiedName`].
pub struct QualifiedNameView {
    pub ns: Seq<char>,
    pub local: Seq<char>,
}

impl View for QualifiedName {
    type V = QualifiedNameView;

    open spec fn view(&self) -> QualifiedNameView {
        QualifiedNameView { ns: self.ns@, local: self.local@ }
    }
}

/// One attribute of a source element.
#[derive(Debug)]
pub struct SourceAttribute {
    pub name: QualifiedName,
    pub value: String,
}

/// The mathematical value of a [`SourceAttribute`].
pub struct SourceAttributeView {
    pub name: QualifiedNameView,
    pub value: Seq<char>,
}

impl View for SourceAttribute {
    type V = SourceAttributeView;

    open spec fn view(&self) -> SourceAttributeView {
        SourceAttributeView { name: self.name@, value: self.value@ }
    }
}

/// What a source node is, with the content that the conversion reads.
#[derive(Debug)]
pub enum SourceData {
    /// The root of a parsed document.
    Document,
    /// A document type declaration.
    Doctype,
    /// A run of text.
    Text(String),
    /// A comment.
    Comment(String),
    /// An element with its name and its attributes in source order.
    Element(QualifiedName, Vec<SourceAttribute>),
    /// A processing instruction.
    ProcessingInstruction,
}

/// The mathematical value of a [`SourceData`].
pub enum SourceDataView {
    Document,
    Doctype,
    Text(Seq<char>),
    Comment(Seq<char>),
    Element(QualifiedNameView, Seq<SourceAttributeView>),
    ProcessingInstruction,
}

impl View for SourceData {
    type V = SourceDataView;

    open spec fn view(&self) -> SourceDataView {
        match self {
            SourceData::Document => SourceDataView::Document,
            SourceData::Doctype => SourceDataView::Doctype,
            SourceData::Text(t) => SourceDataView::Text(t@),
            SourceData::Comment(t) => SourceDataView::Comment(t@),
            SourceData::Element(name, attrs) => SourceDataView::Element(
                name@,
                attrs@.map_values(|a: SourceAttribute| a@),
            ),
            SourceData::ProcessingInstruction => SourceDataView::ProcessingInstruction,
        }
    }
}

impl SourceDataView {
    /// Only documents and elements may hold children.
    pub open spec fn is_container(self) -> bool {
        self is Document || self is Element
    }
}

impl SourceData {
    /// Whether a node with this data may hold children.
    pub fn is_container(&self) -> (r: bool)
        ensures
            r == self@.is_container(),
    {
        match self {
            SourceData::Document => true,
            SourceData::Element(_, _) => true,
            _ => false,
        }
    }
}

/// A source node: its data and the positions of its children, in document
/// order.
#[derive(Debug)]
pub struct SourceNode {
    pub data: SourceData,
    pub children: Vec<usize>,
}

/// The mathematical value of a [`SourceNode`].
pub struct SourceNodeView {
    pub data: SourceDataView,
    pub children: Seq<usize>,
}

impl View for SourceNode {
    type V = SourceNodeView;

    open spec fn view(&self) -> SourceNodeView {
        SourceNodeView { data: self.data@, children: self.children@ }
    }
}

/// A parsed DOM: a table of nodes, the first of which is the root.
#[derive(Debug)]
pub struct SourceDom {
    pub nodes: Vec<SourceNode>,
}

impl View for SourceDom {
    type V = Seq<SourceNodeView>;

    open spec fn view(&self) -> Seq<SourceNodeView> {
        self.nodes@.map_values(|n: SourceNode| n@)
    }
}

/// The position of the root node in every DOM.
pub const ROOT: usize = 0;

/// Whether a table of nodes is a DOM: it has a root, its positions fit the
/// machine's word, every child position names a node of the table, and only
/// documents and elements have children.
pub open spec fn well_formed(dom: Seq<SourceNodeView>) -> bool {
    &&& 0 < dom.len() <= usize::MAX
    &&& forall|i: int, j: int|
        0 <= i < dom.len() && 0 <= j < dom[i].children.len() ==> (#[trigger] dom[i].children[j])
            < dom.len()
    &&& forall|i: int|
        0 <= i < dom.len() && !(#[trigger] dom[i]).data.is_container() ==> dom[i].children.len()
            == 0
}

/// The mathematical value of a list of nodes handed out level by level:
/// each node's data and the number of its children.
pub open spec fn levels_view(items: Vec<(SourceData, usize)>) -> Seq<(SourceDataView, usize)> {
    items@.map_values(|e: (SourceData, usize)| (e.0@, e.1))
}

/// The place of the first child of the node at `at`, where the nodes of a
/// tree stand level by level: behind the root come the children of all the
/// nodes before.
pub open spec fn first_child_place(items: Seq<(SourceDataView, usize)>, at: int) -> int
    decreases at,
{
    if at <= 0 {
        1
    } else {
        first_child_place(items, at - 1) + items[at - 1].1
    }
}

/// Whether the children that the nodes count find their places in the list.
pub open spec fn levels_fit(items: Seq<(SourceDataView, usize)>) -> bool {
    first_child_place(items, items.len() as int) <= items.len()
}

/// The table of a tree whose nodes stand level by level: the children of a
/// node stand side by side, from [`first_child_place`] on. Where the
/// children counted find no place, there is no table.
pub open spec fn level_table(items: Seq<(SourceDataView, usize)>) -> Seq<SourceNodeView> {
    if levels_fit(items) {
        Seq::new(
            items.len(),
            |i: int|
                SourceNodeView {
                    data: items[i].0,
                    children: Seq::new(
                        items[i].1 as nat,
                        |j: int| (first_child_place(items, i) + j) as usize,
                    ),
                },
        )
    } else {
        Seq::empty()
    }
}

/// The places of first children do not go down along the list.
pub proof fn lemma_first_child_place_grows(items: Seq<(SourceDataView, usize)>, i: int, j: int)
    requires
        0 <= i <= j,
    ensures
        1 <= first_child_place(items, i) <= first_child_place(items, j),
    decreases j,
{
    if i < j {
        lemma_first_child_place_grows(items, i, j - 1);
    } else if i > 0 {
        lemma_first_child_place_grows(items, 0, i - 1);
        lemma_first_child_place_grows(items, i - 1, i - 1);
    }
}

/// The DOM that a table is taken for: the table itself where it is well
/// formed, else an empty document.
pub open spec fn usable(dom: Seq<SourceNodeView>) -> Seq<SourceNodeView> {
    if well_formed(dom) {
        dom
    } else {
        seq![SourceNodeView { data: SourceDataView::Document, children: Seq::<usize>::empty() }]
    }
}

impl SourceDom {
    /// Whether this value is a DOM in the sense of [`well_formed`].
    pub open spec fn wf(&self) -> bool {
        well_formed(self@)
    }

    /// A DOM that holds an empty document and nothing else.
    pub fn new() -> (dom: SourceDom)
        ensures
            dom.wf(),
            dom@ == seq![
                SourceNodeView { data: SourceDataView::Document, children: Seq::<usize>::empty() },
            ],
    {
        let mut nodes: Vec<SourceNode> = Vec::new();
        nodes.push(SourceNode { data: SourceData::Document, children: Vec::new() });
        let dom = SourceDom { nodes };
        assert(dom@ =~= seq![
            SourceNodeView { data: SourceDataView::Document, children: Seq::<usize>::empty() },
        ]);
        dom
    }

    /// The number of nodes in the table.
    pub fn len(&self) -> (n: usize)
        ensures
            n == self@.len(),
    {
        self.nodes.len()
    }

    /// Adds a node without children at the end of the table and returns its
    /// position. No node refers to it yet.
    pub fn push(&mut self, data: SourceData) -> (position: usize)
        requires
            old(self).wf(),
        ensures
            final(self).wf(),
            position == old(self)@.len(),
            final(self)@ == old(self)@.push(
                SourceNodeView { data: data@, children: Seq::<usize>::empty() },
            ),
    {
        let position = self.nodes.len();
        self.nodes.push(SourceNode { data, children: Vec::new() });
        assert(self.nodes.len() == self@.len());
        assert(self@ =~= old(self)@.push(
            SourceNodeView { data: data@, children: Seq::<usize>::empty() },
        ));
        position
    }

    /// Makes `child` the last child of `parent`. A node may be given to
    /// several parents, or to one parent several times. Returns `false`, and
    /// changes nothing, when either position names no node or `parent` may
    /// not hold children.
    pub fn add_child(&mut self, parent: usize, child: usize) -> (added: bool)
        requires
            old(self).wf(),
        ensures
            final(self).wf(),
            added == (parent < old(self)@.len() && child < old(self)@.len() && old(
                self,
            )@[parent as int].data.is_container()),
            !added ==> final(self)@ == old(self)@,
            added ==> final(self)@ == old(self)@.update(
                parent as int,
                SourceNodeView {
                    data: old(self)@[parent as int].data,
                    children: old(self)@[parent as int].children.push(child),
                },
            ),
    {
        if parent >= self.nodes.len() || child >= self.nodes.len() {
            return false;
        }
        if !self.nodes[parent].data.is_container() {
            return false;
        }
        let mut node = self.nodes.remove(parent);
        node.children.push(child);
        self.nodes.insert(parent, node);
        assert(self@ =~= old(self)@.update(
            parent as int,
            SourceNodeView {
                data: old(self)@[parent as int].data,
                children: old(self)@[parent as int].children.push(child),
            },
        ));
        true
    }

    /// Builds the table of a tree from its nodes handed out level by level,
    /// each with the number of its children.
    pub fn from_levels(items: Vec<(SourceData, usize)>) -> (dom: SourceDom)
        ensures
            dom@ == level_table(levels_view(items)),
    {
        let ghost levels = levels_view(items);
        let n = items.len();
        if n == 0 {
            let dom = SourceDom { nodes: Vec::new() };
            assert(dom@ =~= Seq::empty());
            return dom;
        }
        let mut total: usize = 1;
        let mut i: usize = 0;
        while i < n
            invariant
                n == items@.len(),
                levels == levels_view(items),
                0 <= i <= n,
                1 <= total <= n,
                total == first_child_place(levels, i as int),
            decreases n - i,
        {
            let count = items[i].1;
            assert(levels[i as int].1 == count);
            if count > n - total {
                proof {
                    lemma_first_child_place_grows(levels, i + 1, n as int);
                }
                let dom = SourceDom { nodes: Vec::new() };
                assert(dom@ =~= Seq::empty());
                return dom;
            }
            total += count;
            i += 1;
        }
        let ghost table = level_table(levels);
        let mut items = items;
        let mut behind: Vec<SourceNode> = Vec::new();
        let mut end: usize = total;
        while items.len() > 0
            invariant
                items@.len() <= n,
                n == levels.len(),
                levels_fit(levels),
                table == level_table(levels),
                levels_view(items) == levels.take(items@.len() as int),
                end == first_child_place(levels, items@.len() as int),
                end <= n,
                behind@.len() == n - items@.len(),
                forall|t: int|
                    0 <= t < behind@.len() ==> (#[trigger] behind@[t])@ == table[n - 1 - t],
            decreases items@.len(),
        {
            let ghost k = items@.len() as int;
            let ghost before = levels_view(items);
            let last = items.pop();
            match last {
                Some((data, count)) => {
                    proof {
                        assert(before[k - 1] == levels[k - 1]);
                        assert(levels[k - 1] == (data@, count));
                        lemma_first_child_place_grows(levels, 0, k - 1);
                        assert(levels_view(items) =~= levels.take(k - 1));
                    }
                    let first: usize = end - count;
                    let mut children: Vec<usize> = Vec::new();
                    let mut place: usize = first;
                    while place < end
                        invariant
                            first <= place <= end,
                            children@.len() == place - first,
                            forall|j: int|
                                0 <= j < children@.len() ==> (#[trigger] children@[j]) == first + j,
                        decreases end - place,
                    {
                        children.push(place);
                        place += 1;
                    }
                    let node = SourceNode { data, children };
                    proof {
                        assert(node@.children =~= table[k - 1].children);
                    }
                    behind.push(node);
                    end = first;
                },
                None => {},
            }
        }
        let mut nodes: Vec<SourceNode> = Vec::new();
        while behind.len() > 0
            invariant
                n == table.len(),
                nodes@.len() + behind@.len() == n,
                forall|t: int|
                    0 <= t < behind@.len() ==> (#[trigger] behind@[t])@ == table[n - 1 - t],
                forall|t: int| 0 <= t < nodes@.len() ==> (#[trigger] nodes@[t])@ == table[t],
            decreases behind@.len(),
        {
            let ghost m = behind@.len() as int;
            let ghost top = behind@[m - 1];
            let next = behind.pop();
            match next {
                Some(node) => {
                    assert(node == top);
                    nodes.push(node);
                },
                None => {},
            }
        }
        let dom = SourceDom { nodes };
        assert(dom@ =~= table);
        dom
    }

    /// Takes a table for a DOM: the table itself where it is well formed,
    /// else an empty document.
    pub fn usable(self) -> (dom: SourceDom)
        ensures
            dom.wf(),
            dom@ == usable(self@),
    {
        if self.is_well_formed() {
            self
        } else {
            SourceDom::new()
        }
    }

    /// Tests [`SourceDom::wf`] on a value built by hand.
    pub fn is_well_formed(&self) -> (r: bool)
        ensures
            r == self.wf(),
    {
        let n = self.nodes.len();
        if n == 0 {
            return false;
        }
        let mut i: usize = 0;
        while i < n
            invariant
                n == self.nodes.len(),
                0 <= i <= n,
                forall|a: int, b: int|
                    0 <= a < i && 0 <= b < self@[a].children.len() ==> (
                    #[trigger] self@[a].children[b]) < n,
                forall|a: int|
                    0 <= a < i && !(#[trigger] self@[a]).data.is_container()
                        ==> self@[a].children.len() == 0,
            decreases n - i,
        {
            let node = &self.nodes[i];
            assert(node@ == self@[i as int]);
            if !node.data.is_container() && node.children.len() > 0 {
                return false;
            }
            let mut j: usize = 0;
            while j < node.children.len()
                invariant
                    n == self.nodes.len(),
                    0 <= i < n,
                    node@ == self@[i as int],
                    0 <= j <= node.children.len(),
                    forall|b: int| 0 <= b < j ==> (#[trigger] node.children@[b]) < n,
                decreases node.children.len() - j,
            {
                if node.children[j] >= n {
                    assert(self@[i as int].children[j as int] >= n);
                    return false;
                }
                j += 1;
            }
            i += 1;
        }
        true
    }
}

} // verus!
