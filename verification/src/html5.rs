//! HTML parsing: the converter from a parsed DOM to the document tree.

use crate::convert::{
    convert_all, lemma_convert_all_unfolds, lemma_with_child,
    cache_element, cache_resolved, cache_uri, caches, children_under, convert, name_id, name_tree, names, parents_ok, resolved_pairs, resolved_tree, run,
    runnable, settled, skipped, sound, text_node, untouched, unvisited, visit, with_attributes,
    with_child, with_element, with_text, Walk,
};
use crate::convert::{
    extends, keeps_merged, lemma_add_namespace_extends, lemma_add_node_extends,
    lemma_extends_transitive, lemma_keeps_merged_transitive,
    lemma_name_tree, lemma_resolved, lemma_same_nodes_keep_merged, lemma_sound_at_start,
    lemma_convert_unfolds, lemma_sound_when_skipped,
    lemma_visit_progress, lemma_visit_sound, lemma_with_text, same_kind,
};
use crate::error::ParseError;
use crate::id::{NameId, NamespaceId};
use crate::rcdom::{parse_source, parser_diagnostics, parser_dom, read_failure};
use crate::source::{
    level_table, usable, well_formed, QualifiedName, SourceAttribute, SourceAttributeView, SourceData, SourceDom,
    SourceNodeView, ROOT,
};
use crate::xotdata::{lemma_first_index, lemma_first_index_properties, NodeId, ValueView, Xot, XotView};
use std::collections::HashMap;
use vstd::prelude::*;

verus! {

/// The namespace of HTML elements.
pub const HTML_NS: &'static str = "http://www.w3.org/1999/xhtml";

/// The namespace of MathML.
pub const MATHML_NS: &'static str = "http://www.w3.org/1998/Math/MathML";

/// The namespace of SVG.
pub const SVG_NS: &'static str = "http://www.w3.org/2000/svg";

/// The namespace of XLink attributes.
pub const XLINK_NS: &'static str = "http://www.w3.org/1999/xlink";

/// The namespace of the `xml` prefix.
pub const XML_NS: &'static str = "http://www.w3.org/XML/1998/namespace";

/// The namespace of the `xmlns` prefix.
pub const XMLNS_NS: &'static str = "http://www.w3.org/2000/xmlns/";

/// The tree after the six namespaces of HTML content were interned.
pub open spec fn seeded(tree: XotView) -> XotView {
    tree.add_namespace(HTML_NS@).add_namespace(MATHML_NS@).add_namespace(SVG_NS@).add_namespace(
        XLINK_NS@,
    ).add_namespace(XML_NS@).add_namespace(XMLNS_NS@)
}

/// What a converter remembers after the six namespaces of HTML content were
/// asked for in `tree`, one after the other.
pub open spec fn seeded_cache(tree: XotView) -> Seq<(Seq<char>, NamespaceId)> {
    let t1 = tree.add_namespace(HTML_NS@);
    let t2 = t1.add_namespace(MATHML_NS@);
    let t3 = t2.add_namespace(SVG_NS@);
    let t4 = t3.add_namespace(XLINK_NS@);
    let t5 = t4.add_namespace(XML_NS@);
    cache_uri(
        cache_uri(
            cache_uri(
                cache_uri(
                    cache_uri(cache_uri(Seq::empty(), tree, HTML_NS@), t1, MATHML_NS@),
                    t2,
                    SVG_NS@,
                ),
                t3,
                XLINK_NS@,
            ),
            t4,
            XML_NS@,
        ),
        t5,
        XMLNS_NS@,
    )
}

/// The six namespaces differ from each other and none is empty, so all six
/// are remembered, in their order, each with the identifier that the tree
/// gives it.
pub proof fn lemma_seeded_cache_holds_six(tree: XotView)
    ensures
        seeded_cache(tree).len() == 6,
        seeded_cache(tree)[0].0 == HTML_NS@,
        seeded_cache(tree)[1].0 == MATHML_NS@,
        seeded_cache(tree)[2].0 == SVG_NS@,
        seeded_cache(tree)[3].0 == XLINK_NS@,
        seeded_cache(tree)[4].0 == XML_NS@,
        seeded_cache(tree)[5].0 == XMLNS_NS@,
        forall|i: int| 0 <= i < 6 ==> (#[trigger] seeded_cache(tree)[i]).1 == seeded(
            tree,
        ).namespace_id(seeded_cache(tree)[i].0),
{
    reveal_strlit("http://www.w3.org/1999/xhtml");
    reveal_strlit("http://www.w3.org/1998/Math/MathML");
    reveal_strlit("http://www.w3.org/2000/svg");
    reveal_strlit("http://www.w3.org/1999/xlink");
    reveal_strlit("http://www.w3.org/XML/1998/namespace");
    reveal_strlit("http://www.w3.org/2000/xmlns/");
    assert(HTML_NS@.len() == 28);
    assert(MATHML_NS@.len() == 34);
    assert(SVG_NS@.len() == 26);
    assert(XLINK_NS@.len() == 28);
    assert(XML_NS@.len() == 36);
    assert(XMLNS_NS@.len() == 29);
    assert(HTML_NS@[24] == 'h');
    assert(XLINK_NS@[24] == 'l');
    let t1 = tree.add_namespace(HTML_NS@);
    let t2 = t1.add_namespace(MATHML_NS@);
    let t3 = t2.add_namespace(SVG_NS@);
    let t4 = t3.add_namespace(XLINK_NS@);
    let t5 = t4.add_namespace(XML_NS@);
    let t6 = t5.add_namespace(XMLNS_NS@);
    let c0 = Seq::<(Seq<char>, NamespaceId)>::empty();
    let c1 = cache_uri(c0, tree, HTML_NS@);
    let c2 = cache_uri(c1, t1, MATHML_NS@);
    let c3 = cache_uri(c2, t2, SVG_NS@);
    let c4 = cache_uri(c3, t3, XLINK_NS@);
    let c5 = cache_uri(c4, t4, XML_NS@);
    let c6 = cache_uri(c5, t5, XMLNS_NS@);
    assert(c1 =~= seq![(HTML_NS@, tree.namespace_id(HTML_NS@))]);
    assert(c2 =~= c1.push((MATHML_NS@, t1.namespace_id(MATHML_NS@))));
    assert(c3 =~= c2.push((SVG_NS@, t2.namespace_id(SVG_NS@))));
    assert(c4 =~= c3.push((XLINK_NS@, t3.namespace_id(XLINK_NS@))));
    assert(c5 =~= c4.push((XML_NS@, t4.namespace_id(XML_NS@))));
    assert(c6 =~= c5.push((XMLNS_NS@, t5.namespace_id(XMLNS_NS@))));
    lemma_interning_is_idempotent(tree, HTML_NS@);
    lemma_interning_is_idempotent(t1, MATHML_NS@);
    lemma_interning_is_idempotent(t2, SVG_NS@);
    lemma_interning_is_idempotent(t3, XLINK_NS@);
    lemma_interning_is_idempotent(t4, XML_NS@);
    lemma_interning_is_idempotent(t5, XMLNS_NS@);
    lemma_contains_after_add(tree, HTML_NS@);
    lemma_contains_after_add(t1, MATHML_NS@);
    lemma_contains_after_add(t2, SVG_NS@);
    lemma_contains_after_add(t3, XLINK_NS@);
    lemma_contains_after_add(t4, XML_NS@);
    lemma_contains_after_add(t5, XMLNS_NS@);
    lemma_prefix_after_add(t1, MATHML_NS@);
    lemma_prefix_after_add(t2, SVG_NS@);
    lemma_prefix_after_add(t3, XLINK_NS@);
    lemma_prefix_after_add(t4, XML_NS@);
    lemma_prefix_after_add(t5, XMLNS_NS@);
    lemma_namespace_id_stable(t1, t6, HTML_NS@);
    lemma_namespace_id_stable(t2, t6, MATHML_NS@);
    lemma_namespace_id_stable(t3, t6, SVG_NS@);
    lemma_namespace_id_stable(t4, t6, XLINK_NS@);
    lemma_namespace_id_stable(t5, t6, XML_NS@);
    lemma_namespace_id_stable(t6, t6, XMLNS_NS@);
}

/// A tree knows a URI after it was interned.
pub proof fn lemma_contains_after_add(tree: XotView, uri: Seq<char>)
    ensures
        tree.add_namespace(uri).namespaces.contains(uri),
{
    if !tree.namespaces.contains(uri) {
        assert(tree.add_namespace(uri).namespaces[tree.namespaces.len() as int] == uri);
    }
}

/// Interning moves no namespace.
pub proof fn lemma_prefix_after_add(tree: XotView, uri: Seq<char>)
    ensures
        tree.namespaces.is_prefix_of(tree.add_namespace(uri).namespaces),
{
}

/// A namespace that a tree knows keeps its identifier in every tree that
/// only adds namespaces: interning the same URI again, at any later time,
/// gives the same identifier.
pub proof fn lemma_namespace_id_stable(before: XotView, after: XotView, uri: Seq<char>)
    requires
        before.namespaces.contains(uri),
        before.namespaces.is_prefix_of(after.namespaces),
    ensures
        after.namespace_id(uri) == before.namespace_id(uri),
        after.add_namespace(uri) == after,
{
    lemma_first_index_properties(before.namespaces, uri);
    let i = crate::xotdata::first_index(before.namespaces, uri);
    assert forall|j: int| 0 <= j < i implies after.namespaces[j] != uri by {
        assert(after.namespaces[j] == before.namespaces[j]);
    }
    assert(after.namespaces[i] == before.namespaces[i]);
    lemma_first_index(after.namespaces, uri, i);
}

/// Interning is idempotent: a URI interned twice gets one identifier, and
/// the second time changes nothing.
pub proof fn lemma_interning_is_idempotent(tree: XotView, uri: Seq<char>)
    ensures
        tree.add_namespace(uri).namespace_id(uri) == tree.namespace_id(uri),
        tree.add_namespace(uri).add_namespace(uri) == tree.add_namespace(uri),
{
    lemma_first_index_properties(tree.namespaces, uri);
    let once = tree.add_namespace(uri);
    if tree.namespaces.contains(uri) {
    } else {
        lemma_first_index(once.namespaces, uri, tree.namespaces.len() as int);
        assert(once.namespaces[tree.namespaces.len() as int] == uri);
    }
}

/// The state that one conversion keeps beside the tree: the namespaces it
/// has interned, and the source nodes it has met.
pub struct DomConverter {
    namespace_ids: Vec<(String, NamespaceId)>,
    node_map: HashMap<usize, NodeId>,
}

impl DomConverter {
    /// The namespaces interned through this converter: URI and identifier.
    pub closed spec fn cached(&self) -> Seq<(Seq<char>, NamespaceId)> {
        self.namespace_ids@.map_values(|e: (String, NamespaceId)| (e.0@, e.1))
    }

    /// The source nodes met so far, by position, each with the tree node
    /// that stands for it.
    pub closed spec fn visited(&self) -> Map<usize, NodeId> {
        self.node_map@
    }

    /// Whether the converter fits the tree: each namespace it remembers is
    /// the tree's, under the same identifier; no URI is remembered twice,
    /// and the empty URI is not remembered.
    pub open spec fn wf(&self, tree: XotView) -> bool {
        &&& forall|i: int|
            0 <= i < self.cached().len() ==> tree.has_namespace((#[trigger] self.cached()[i]).1)
                && tree.namespaces[self.cached()[i].1.0 as int] == self.cached()[i].0
        &&& forall|i: int| 0 <= i < self.cached().len() ==> (#[trigger] self.cached()[i]).0.len() > 0
        &&& forall|i: int, j: int|
            0 <= i < j < self.cached().len() ==> (#[trigger] self.cached()[i]).0 != (
            #[trigger] self.cached()[j]).0
    }

    /// A converter that fits a tree fits every tree that only adds
    /// namespaces.
    pub proof fn lemma_wf_extends(&self, before: XotView, after: XotView)
        requires
            self.wf(before),
            before.namespaces.is_prefix_of(after.namespaces),
        ensures
            self.wf(after),
    {
        assert forall|i: int| 0 <= i < self.cached().len() implies after.has_namespace(
            (#[trigger] self.cached()[i]).1,
        ) && after.namespaces[self.cached()[i].1.0 as int] == self.cached()[i].0 by {
            let id = self.cached()[i].1;
            assert(before.has_namespace(id));
            assert(after.namespaces[id.0 as int] == before.namespaces[id.0 as int]);
        }
    }

    /// A converter for one conversion into `xot`. The six namespaces of HTML
    /// content are interned in the tree and remembered; no source node is
    /// met yet.
    pub fn new(xot: &mut Xot) -> (converter: DomConverter)
        requires
            old(xot).wf(),
        ensures
            final(xot).wf(),
            final(xot)@ == seeded(old(xot)@),
            converter.wf(final(xot)@),
            converter.visited() == Map::<usize, NodeId>::empty(),
            converter.cached() == seeded_cache(old(xot)@),
            converter.cached().len() == 6,
    {
        broadcast use vstd::std_specs::hash::group_hash_axioms;

        let mut converter = DomConverter { namespace_ids: Vec::new(), node_map: HashMap::new() };
        assert(converter.cached() =~= Seq::empty());
        converter.get_or_add_namespace_id(xot, HTML_NS);
        converter.get_or_add_namespace_id(xot, MATHML_NS);
        converter.get_or_add_namespace_id(xot, SVG_NS);
        converter.get_or_add_namespace_id(xot, XLINK_NS);
        converter.get_or_add_namespace_id(xot, XML_NS);
        converter.get_or_add_namespace_id(xot, XMLNS_NS);
        proof {
            lemma_seeded_cache_holds_six(old(xot)@);
        }
        converter
    }

    /// The identifier of a namespace URI, interned on demand.
    ///
    /// The empty URI is "no namespace": neither the tree nor the converter
    /// changes. A URI that the converter remembers gets the identifier it
    /// had. Any other is interned in the tree and remembered.
    pub fn get_or_add_namespace_id(&mut self, xot: &mut Xot, uri: &str) -> (id: NamespaceId)
        requires
            old(xot).wf(),
            old(self).wf(old(xot)@),
        ensures
            final(xot).wf(),
            final(self).wf(final(xot)@),
            final(self).visited() == old(self).visited(),
            id == old(xot)@.namespace_id(uri@),
            final(xot)@ == old(xot)@.add_namespace(uri@),
            final(xot)@.has_namespace(id),
            final(xot)@.namespaces[id.0 as int] == uri@,
            final(self).cached() == cache_uri(old(self).cached(), old(xot)@, uri@),
            uri@.len() == 0 ==> id == old(xot)@.no_namespace() && final(xot)@ == old(xot)@
                && final(self).cached() == old(self).cached(),
            caches(old(self).cached(), uri@) ==> final(self).cached() == old(self).cached(),
            uri@.len() != 0 && !caches(old(self).cached(), uri@) ==> final(self).cached() == old(self).cached().push((uri@, id)),
            old(xot)@.namespaces.contains(uri@) ==> final(xot)@ == old(xot)@,
    {
        proof {
            lemma_first_index_properties(xot@.namespaces, uri@);
        }
        if uri.is_empty() {
            proof {
                assert(uri@ =~= Seq::<char>::empty());
                lemma_first_index(xot@.namespaces, uri@, 0);
            }
            return xot.no_namespace();
        }
        let key = uri.to_owned();
        let n = self.namespace_ids.len();
        let mut i: usize = 0;
        while i < n
            invariant
                *self == *old(self),
                *xot == *old(xot),
                xot.wf(),
                self.wf(xot@),
                n == self.namespace_ids.len(),
                0 <= i <= n,
                key@ == uri@,
                uri@.len() != 0,
                forall|j: int| 0 <= j < i ==> (#[trigger] self.cached()[j]).0 != uri@,
            decreases n - i,
        {
            if self.namespace_ids[i].0 == key {
                let id = self.namespace_ids[i].1;
                proof {
                    assert(self.cached()[i as int] == (uri@, id));
                    assert(caches(self.cached(), uri@));
                    assert(xot@.namespaces[id.0 as int] == uri@);
                    assert forall|j: int| 0 <= j < id.0 implies xot@.namespaces[j] != uri@ by {
                        assert(xot@.namespaces[j] != xot@.namespaces[id.0 as int]);
                    }
                    lemma_first_index(xot@.namespaces, uri@, id.0 as int);
                }
                return id;
            }
            assert(self.cached()[i as int].0 == self.namespace_ids@[i as int].0@);
            i += 1;
        }
        let id = xot.add_namespace(uri);
        self.namespace_ids.push((key, id));
        proof {
            old(xot)@.lemma_add_namespace(uri@);
            old(self).lemma_wf_extends(old(xot)@, xot@);
            assert(self.cached() =~= old(self).cached().push((uri@, id)));
            assert(!caches(old(self).cached(), uri@));
        }
        id
    }

    /// The identifier of a qualified name: its namespace is interned, then
    /// the local name in that namespace. A name without namespace URI lies
    /// in "no namespace".
    pub fn add_name(&mut self, xot: &mut Xot, name: &QualifiedName) -> (id: NameId)
        requires
            old(xot).wf(),
            old(self).wf(old(xot)@),
        ensures
            final(xot).wf(),
            final(self).wf(final(xot)@),
            final(self).visited() == old(self).visited(),
            final(self).cached() == cache_uri(old(self).cached(), old(xot)@, name@.ns),
            id == name_id(old(xot)@, name@),
            final(xot)@ == name_tree(old(xot)@, name@),
            names(final(xot)@, id, name@),
            name@.ns.len() == 0 ==> final(xot)@.names[id.0 as int].ns == final(xot)@.no_namespace(),
    {
        let ns = self.get_or_add_namespace_id(xot, name.ns.as_str());
        let ghost interned = xot@;
        let id = xot.add_name_ns(name.local.as_str(), ns);
        proof {
            lemma_name_tree(old(xot)@, name@);
            self.lemma_wf_extends(interned, xot@);
        }
        id
    }

    /// Puts a text under `parent`: at the end of the last child if that is
    /// a text node, else in a new text node behind the last child. Returns
    /// the node that holds the text.
    pub fn add_text(xot: &mut Xot, parent: NodeId, content: &str) -> (node: NodeId)
        requires
            old(xot).wf(),
            old(xot)@.has_node(parent),
            old(xot)@.value(parent).is_container(),
        ensures
            final(xot).wf(),
            final(xot)@ == with_text(old(xot)@, parent, content@),
            node == text_node(old(xot)@, parent),
    {
        match xot.last_child(parent) {
            Some(last) => {
                if xot.is_text(last) {
                    let mut merged = match xot.text_str(last) {
                        Some(before) => before.to_owned(),
                        None => String::new(),
                    };
                    merged.append(content);
                    let set = xot.set_text(last, merged.as_str());
                    assert(set is Ok);
                    return last;
                }
            },
            None => {},
        }
        let node = xot.new_text(content);
        proof {
            xot@.lemma_childless_is_no_ancestor(node, parent);
        }
        let appended = xot.append(parent, node);
        assert(appended is Ok);
        node
    }
}

/// The mathematical value of a list of source attributes.
pub open spec fn attributes_view(attributes: &Vec<SourceAttribute>) -> Seq<SourceAttributeView> {
    attributes@.map_values(|a: SourceAttribute| a@)
}

/// The mathematical value of a list of name identifiers with values.
pub open spec fn pairs_view(pairs: &Vec<(NameId, String)>) -> Seq<(NameId, Seq<char>)> {
    pairs@.map_values(|p: (NameId, String)| (p.0, p.1@))
}

/// Puts the children of a source node on the work list, each to go under
/// `parent`, so that the first child is done first.
fn push_children(pending: &mut Vec<(usize, NodeId)>, children: &Vec<usize>, parent: NodeId)
    ensures
        final(pending)@ == old(pending)@ + children_under(children@, parent),
{
    let n = children.len();
    let mut left = n;
    let ghost all = children_under(children@, parent);
    assert(pending@ =~= old(pending)@ + all.take(0));
    while left > 0
        invariant
            n == children@.len(),
            0 <= left <= n,
            all == children_under(children@, parent),
            pending@ == old(pending)@ + all.take(n - left),
        decreases left,
    {
        left -= 1;
        pending.push((children[left], parent));
        assert(pending@ =~= old(pending)@ + all.take(n - left)) by {
            assert(all.take(n - left) =~= all.take(n - left - 1).push(all[n - left - 1]));
        }
    }
    assert(all.take(n as int) =~= all);
}

impl DomConverter {
    /// The walk that the converter is in, with the tree and the work list
    /// given.
    pub open spec fn walk(&self, tree: XotView, pending: Seq<(usize, NodeId)>) -> Walk {
        Walk { tree, visited: self.visited(), cache: self.cached(), pending }
    }

    /// Puts an element under `parent` as its last child. The name is
    /// interned and the element appended; then the names of all attributes
    /// are interned, in source order; only then are the attributes set, in
    /// the same order. Returns the element.
    pub fn add_element(
        &mut self,
        xot: &mut Xot,
        parent: NodeId,
        name: &QualifiedName,
        attributes: &Vec<SourceAttribute>,
    ) -> (node: NodeId)
        requires
            old(xot).wf(),
            old(self).wf(old(xot)@),
            old(xot)@.has_node(parent),
            old(xot)@.value(parent).is_container(),
        ensures
            final(xot).wf(),
            final(self).wf(final(xot)@),
            final(self).visited() == old(self).visited(),
            final(xot)@ == with_element(old(xot)@, parent, name@, attributes_view(attributes)),
            final(self).cached() == cache_element(
                old(self).cached(),
                old(xot)@,
                parent,
                name@,
                attributes_view(attributes),
            ),
            node == old(xot)@.next_node(),
    {
        let ghost sources = attributes_view(attributes);
        let id = self.add_name(xot, name);
        let ghost named = xot@;
        let node = xot.new_element(id);
        proof {
            xot@.lemma_childless_is_no_ancestor(node, parent);
        }
        let appended = xot.append(parent, node);
        assert(appended is Ok);
        let ghost placed = xot@;
        proof {
            self.lemma_wf_extends(named, placed);
            assert(placed == with_child(
                named,
                parent,
                ValueView::Element { name: id, attributes: Seq::empty() },
            ));
            assert(sources.take(0) =~= Seq::<SourceAttributeView>::empty());
        }
        let ghost named_cache = self.cached();
        let mut collected: Vec<(NameId, String)> = Vec::new();
        let n = attributes.len();
        let mut i: usize = 0;
        while i < n
            invariant
                n == attributes@.len(),
                0 <= i <= n,
                sources == attributes_view(attributes),
                xot.wf(),
                self.wf(xot@),
                self.visited() == old(self).visited(),
                xot@ == resolved_tree(placed, sources.take(i as int)),
                self.cached() == cache_resolved(named_cache, placed, sources.take(i as int)),
                pairs_view(&collected) == resolved_pairs(placed, sources.take(i as int)),
            decreases n - i,
        {
            let attribute = &attributes[i];
            let ghost before = xot@;
            let attribute_id = self.add_name(xot, &attribute.name);
            let ghost pairs_before = pairs_view(&collected);
            collected.push((attribute_id, attribute.value.clone()));
            proof {
                assert(sources.take(i + 1).drop_last() =~= sources.take(i as int));
                assert(sources.take(i + 1).last() == attribute@);
                assert(pairs_view(&collected) =~= pairs_before.push(
                    (attribute_id, attribute.value@),
                ));
            }
            i += 1;
        }
        let ghost resolved = xot@;
        let ghost pairs = pairs_view(&collected);
        proof {
            assert(sources.take(n as int) =~= sources);
            lemma_resolved(placed, sources);
            assert(resolved.is_element(node));
            assert(pairs.take(0) =~= Seq::<(NameId, Seq<char>)>::empty());
        }
        let ghost cached_after = self.cached();
        let m = collected.len();
        let mut k: usize = 0;
        while k < m
            invariant
                m == collected@.len(),
                0 <= k <= m,
                pairs == pairs_view(&collected),
                xot.wf(),
                self.wf(xot@),
                self.cached() == cached_after,
                xot@.is_element(node),
                xot@.names == resolved.names,
                xot@.namespaces == resolved.namespaces,
                forall|j: int| 0 <= j < pairs.len() ==> resolved.has_name((#[trigger] pairs[j]).0),
                xot@ == with_attributes(resolved, node, pairs.take(k as int)),
            decreases m - k,
        {
            let ghost before = xot@;
            assert(pairs[k as int] == (collected@[k as int].0, collected@[k as int].1@));
            let set = xot.set_attribute(node, collected[k].0, collected[k].1.as_str());
            assert(set is Ok);
            proof {
                assert(pairs.take(k + 1).drop_last() =~= pairs.take(k as int));
                assert(pairs.take(k + 1).last() == pairs[k as int]);
                self.lemma_wf_extends(before, xot@);
            }
            k += 1;
        }
        proof {
            assert(pairs.take(m as int) =~= pairs);
        }
        node
    }

    /// Records that the tree node `node` stands for the source node at
    /// `source`.
    fn record(&mut self, source: usize, node: NodeId)
        ensures
            final(self).visited() == old(self).visited().insert(source, node),
            final(self).cached() == old(self).cached(),
    {
        broadcast use vstd::std_specs::hash::group_hash_axioms;

        self.node_map.insert(source, node);
    }

    /// One step of the walk: takes the last entry off the work list and
    /// does it.
    fn visit(&mut self, xot: &mut Xot, dom: &SourceDom, pending: &mut Vec<(usize, NodeId)>)
        requires
            old(xot).wf(),
            old(self).wf(old(xot)@),
            old(pending)@.len() > 0,
            runnable(dom@, old(self).walk(old(xot)@, old(pending)@)),
            parents_ok(old(self).walk(old(xot)@, old(pending)@)),
        ensures
            final(xot).wf(),
            final(self).wf(final(xot)@),
            final(self).walk(final(xot)@, final(pending)@) == visit(
                dom@,
                old(self).walk(old(xot)@, old(pending)@),
            ),
    {
        broadcast use vstd::std_specs::hash::group_hash_axioms;

        let ghost before = self.walk(xot@, pending@);
        let ghost rest = pending@.drop_last();
        let entry = pending.pop();
        let (source, parent) = match entry {
            Some(e) => e,
            None => { return ; },
        };
        assert(pending@ =~= rest);
        assert(before.pending.last() == (source, parent));
        assert(source < dom@.len());
        assert(xot@.has_node(parent) && xot@.value(parent).is_container());
        if self.node_map.contains_key(&source) {
            return ;
        }
        let node = &dom.nodes[source];
        assert(node@ == dom@[source as int]);
        match &node.data {
            SourceData::Document => {
                self.record(source, parent);
                push_children(pending, &node.children, parent);
            },
            SourceData::Doctype => {},
            SourceData::ProcessingInstruction => {},
            SourceData::Text(content) => {
                let target = DomConverter::add_text(xot, parent, content.as_str());
                proof {
                    lemma_with_text(before.tree, parent, content@);
                    self.lemma_wf_extends(before.tree, xot@);
                }
                self.record(source, target);
            },
            SourceData::Comment(content) => {
                let target = xot.new_comment(content.as_str());
                proof {
                    xot@.lemma_childless_is_no_ancestor(target, parent);
                }
                let appended = xot.append(parent, target);
                assert(appended is Ok);
                proof {
                    self.lemma_wf_extends(before.tree, xot@);
                }
                self.record(source, target);
            },
            SourceData::Element(name, attributes) => {
                let target = self.add_element(xot, parent, name, attributes);
                self.record(source, target);
                push_children(pending, &node.children, target);
            },
        }
        assert(self.walk(xot@, pending@).visited =~= visit(dom@, before).visited);
    }

    /// Converts the source node at `handle`, with all below it, into the
    /// tree under `parent`.
    ///
    /// The nodes are done in document order, each as [`visit`] says. A
    /// source node that the converter has met is skipped with all below it;
    /// every source node done is recorded. The result is the end of the
    /// walk that [`convert`] names. Seen from the start it is
    /// [`sound`]: the tree has only grown; no two text nodes stand side by
    /// side where none did; every source node recorded is stood for by its
    /// tree node, so none is a doctype or a processing instruction; and
    /// every node that the tree has gained stands for a recorded source
    /// node and lies below `parent`. A doctype, a processing instruction and
    /// a source node met before change nothing, under any parent.
    pub fn convert_handle(&mut self, xot: &mut Xot, dom: &SourceDom, handle: usize, parent: NodeId)
        requires
            old(xot).wf(),
            old(self).wf(old(xot)@),
            dom.wf(),
            handle < dom@.len(),
            skipped(dom@, old(self).visited(), handle) || (old(xot)@.has_node(parent) && old(xot)@.value(parent).is_container()),
        ensures
            final(xot).wf(),
            final(self).wf(final(xot)@),
            final(self).walk(final(xot)@, Seq::empty()) == convert(
                dom@,
                old(self).walk(old(xot)@, Seq::empty()),
                handle,
                parent,
            ),
            skipped(dom@, old(self).visited(), handle) ==> final(xot)@ == old(xot)@ && final(self).visited() == old(self).visited() && final(self).cached() == old(self).cached(),
            old(xot)@.has_node(parent) ==> sound(
                dom@,
                old(self).walk(old(xot)@, seq![(handle, parent)]),
                final(self).walk(final(xot)@, Seq::empty()),
            ),
    {
        broadcast use vstd::std_specs::hash::group_hash_axioms;

        let ghost start = self.walk(xot@, seq![(handle, parent)]);
        assert(dom.nodes[handle as int]@ == dom@[handle as int]);
        let skip = self.node_map.contains_key(&handle) || match &dom.nodes[handle].data {
            SourceData::Doctype => true,
            SourceData::ProcessingInstruction => true,
            _ => false,
        };
        if skip {
            proof {
                lemma_convert_unfolds(dom@, self.walk(xot@, Seq::empty()), handle, parent);
                if xot@.has_node(parent) {
                    lemma_sound_when_skipped(dom@, start);
                }
            }
            return ;
        }
        let mut pending: Vec<(usize, NodeId)> = Vec::new();
        pending.push((handle, parent));
        proof {
            assert(pending@ =~= seq![(handle, parent)]);
            lemma_sound_at_start(dom@, start);
        }
        while pending.len() > 0
            invariant
                dom.wf(),
                xot.wf(),
                self.wf(xot@),
                runnable(dom@, self.walk(xot@, pending@)),
                parents_ok(self.walk(xot@, pending@)),
                sound(dom@, start, self.walk(xot@, pending@)),
                run(dom@, self.walk(xot@, pending@)) == run(dom@, start),
            decreases unvisited(dom@.len(), self.visited()), pending@.len(),
        {
            let ghost before = self.walk(xot@, pending@);
            self.visit(xot, dom, &mut pending);
            proof {
                lemma_visit_progress(dom@, before);
                lemma_visit_sound(dom@, start, before);
            }
        }
        assert(pending@ =~= Seq::empty());
    }
}

/// Whether the source node at `position` can be the root of a fragment: it
/// is an element or a text.
pub open spec fn is_fragment_root(dom: Seq<SourceNodeView>, position: usize) -> bool {
    dom[position as int].data is Element || dom[position as int].data is Text
}

/// The first of `children` that can be the root of a fragment.
pub open spec fn first_fragment_root(dom: Seq<SourceNodeView>, children: Seq<usize>) -> Option<
    usize,
>
    decreases children.len(),
{
    if children.len() == 0 {
        None
    } else if is_fragment_root(dom, children[0]) {
        Some(children[0])
    } else {
        first_fragment_root(dom, children.drop_first())
    }
}

/// The root of the fragment that a DOM holds: the first child of the DOM's
/// root that is an element or a text. Comments, doctypes and whatever else
/// stands before it are passed over.
pub open spec fn fragment_root(dom: Seq<SourceNodeView>) -> Option<usize> {
    first_fragment_root(dom, dom[ROOT as int].children)
}

/// The tree after a conversion: a new document node is made, which is
/// `tree.next_node()`, the six namespaces are interned, and the DOM is
/// converted from its root under the new document, with nothing met.
pub open spec fn converted(tree: XotView, dom: Seq<SourceNodeView>) -> XotView {
    convert(dom, first_state(tree), ROOT, tree.next_node()).tree
}

/// The state from which a conversion into `tree` walks: the new document
/// node is made, the six namespaces are interned and remembered, and no
/// source node is met.
pub open spec fn first_state(tree: XotView) -> Walk {
    Walk {
        tree: seeded(tree.add_node(ValueView::Document)),
        visited: Map::empty(),
        cache: seeded_cache(tree.add_node(ValueView::Document)),
        pending: Seq::empty(),
    }
}

/// The root of a fragment is one of the children.
pub proof fn lemma_first_fragment_root(dom: Seq<SourceNodeView>, children: Seq<usize>)
    ensures
        match first_fragment_root(dom, children) {
            Some(root) => is_fragment_root(dom, root) && exists|j: int|
                0 <= j < children.len() && #[trigger] children[j] == root,
            None => forall|j: int|
                0 <= j < children.len() ==> !is_fragment_root(dom, #[trigger] children[j]),
        },
    decreases children.len(),
{
    if children.len() > 0 && !is_fragment_root(dom, children[0]) {
        let rest = children.drop_first();
        lemma_first_fragment_root(dom, rest);
        match first_fragment_root(dom, rest) {
            Some(root) => {
                let j = choose|j: int| 0 <= j < rest.len() && #[trigger] rest[j] == root;
                assert(children[j + 1] == root);
            },
            None => {
                assert forall|j: int| 0 <= j < children.len() implies !is_fragment_root(
                    dom,
                    #[trigger] children[j],
                ) by {
                    if j > 0 {
                        assert(rest[j - 1] == children[j]);
                    }
                }
            },
        }
    } else if children.len() > 0 {
        assert(children[0] == children[0]);
    }
}

/// A walk from the root of a DOM, with nothing met, that ends with the tree
/// untouched has found no root of a fragment: the DOM holds none.
pub proof fn lemma_untouched_holds_no_fragment(dom: Seq<SourceNodeView>, start: Walk, end: Walk)
    requires
        well_formed(dom),
        start.pending.len() == 1,
        start.pending[0].0 == ROOT,
        start.visited == Map::<usize, NodeId>::empty(),
        end.pending.len() == 0,
        untouched(dom, start, end),
    ensures
        fragment_root(dom) is None,
{
    let children = dom[ROOT as int].children;
    lemma_first_fragment_root(dom, children);
    match fragment_root(dom) {
        Some(root) => {
            let j = choose|j: int| 0 <= j < children.len() && #[trigger] children[j] == root;
            assert(dom[ROOT as int].data.is_container());
            assert(settled(dom, end, ROOT));
            assert(end.visited.contains_key(ROOT));
            assert(settled(dom, end, dom[ROOT as int].children[j]));
            assert(end.visited.contains_key(root));
        },
        None => {},
    }
}

/// Interning the six namespaces leaves the nodes as they are.
pub proof fn lemma_seeded_extends(tree: XotView)
    ensures
        seeded(tree).nodes == tree.nodes,
        extends(seeded(tree), tree),
        keeps_merged(tree, seeded(tree)),
{
    let t1 = tree.add_namespace(HTML_NS@);
    let t2 = t1.add_namespace(MATHML_NS@);
    let t3 = t2.add_namespace(SVG_NS@);
    let t4 = t3.add_namespace(XLINK_NS@);
    let t5 = t4.add_namespace(XML_NS@);
    let t6 = t5.add_namespace(XMLNS_NS@);
    lemma_add_namespace_extends(tree, HTML_NS@);
    lemma_add_namespace_extends(t1, MATHML_NS@);
    lemma_add_namespace_extends(t2, SVG_NS@);
    lemma_add_namespace_extends(t3, XLINK_NS@);
    lemma_add_namespace_extends(t4, XML_NS@);
    lemma_add_namespace_extends(t5, XMLNS_NS@);
    lemma_extends_transitive(tree, t1, t2);
    lemma_extends_transitive(tree, t2, t3);
    lemma_extends_transitive(tree, t3, t4);
    lemma_extends_transitive(tree, t4, t5);
    lemma_extends_transitive(tree, t5, t6);
    lemma_same_nodes_keep_merged(tree, t6);
}

/// Whether a source node is a comment, a doctype or a processing
/// instruction: a node that holds nothing and makes no element and no text.
pub open spec fn is_margin(dom: Seq<SourceNodeView>, source: usize) -> bool {
    ||| dom[source as int].data is Comment
    ||| dom[source as int].data is Doctype
    ||| dom[source as int].data is ProcessingInstruction
}

/// Whether a source node is a doctype or a processing instruction: a node
/// that makes nothing.
pub open spec fn makes_nothing(dom: Seq<SourceNodeView>, source: usize) -> bool {
    dom[source as int].data is Doctype || dom[source as int].data is ProcessingInstruction
}

/// Children that are all passed over leave the walk as it is.
pub proof fn lemma_skipped_children_change_nothing(
    dom: Seq<SourceNodeView>,
    at: Walk,
    children: Seq<usize>,
    parent: NodeId,
)
    requires
        well_formed(dom),
        forall|j: int| 0 <= j < children.len() ==> (#[trigger] children[j]) < dom.len(),
        forall|j: int| 0 <= j < children.len() ==> skipped(dom, at.visited, #[trigger] children[j]),
    ensures
        convert_all(dom, at, children, parent) == (Walk { pending: Seq::empty(), ..at }),
    decreases children.len(),
{
    lemma_convert_all_unfolds(dom, at, children, parent);
    if children.len() > 0 {
        let rest = children.drop_first();
        assert(skipped(dom, at.visited, children[0]));
        lemma_convert_unfolds(dom, at, children[0], parent);
        let next = Walk { pending: Seq::empty(), ..at };
        assert forall|j: int| 0 <= j < rest.len() implies (#[trigger] rest[j]) < dom.len()
            && skipped(dom, next.visited, rest[j]) by {
            assert(rest[j] == children[j + 1]);
        }
        lemma_skipped_children_change_nothing(dom, next, rest, parent);
    }
}

/// Children that are comments, doctypes and processing instructions take
/// no node from the tree and touch no table.
proof fn lemma_margin_grows(
    dom: Seq<SourceNodeView>,
    at: Walk,
    children: Seq<usize>,
    parent: NodeId,
)
    requires
        well_formed(dom),
        forall|j: int| 0 <= j < children.len() ==> (#[trigger] children[j]) < dom.len(),
        forall|j: int| 0 <= j < children.len() ==> is_margin(dom, #[trigger] children[j]),
        at.tree.has_node(parent),
    ensures
        at.tree.nodes.len() <= convert_all(dom, at, children, parent).tree.nodes.len(),
        convert_all(dom, at, children, parent).tree.namespaces == at.tree.namespaces,
        convert_all(dom, at, children, parent).tree.names == at.tree.names,
    decreases children.len(),
{
    lemma_convert_all_unfolds(dom, at, children, parent);
    if children.len() > 0 {
        let rest = children.drop_first();
        assert(is_margin(dom, children[0]));
        lemma_convert_unfolds(dom, at, children[0], parent);
        let next = convert(dom, at, children[0], parent);
        assert(next.tree.nodes.len() >= at.tree.nodes.len());
        assert forall|j: int| 0 <= j < rest.len() implies (#[trigger] rest[j]) < dom.len()
            && is_margin(dom, rest[j]) by {
            assert(rest[j] == children[j + 1]);
        }
        lemma_margin_grows(dom, next, rest, parent);
    }
}

/// Where none of the nodes is an element, there is no first element.
pub proof fn lemma_no_element_no_first(tree: XotView, nodes: Seq<NodeId>)
    requires
        forall|j: int| 0 <= j < nodes.len() ==> !tree.is_element(#[trigger] nodes[j]),
    ensures
        tree.first_element(nodes) is None,
    decreases nodes.len(),
{
    if nodes.len() > 0 {
        let rest = nodes.drop_first();
        assert(!tree.is_element(nodes[0]));
        assert forall|j: int| 0 <= j < rest.len() implies !tree.is_element(#[trigger] rest[j]) by {
            assert(rest[j] == nodes[j + 1]);
        }
        lemma_no_element_no_first(tree, rest);
    }
}

/// Children that are comments, doctypes and processing instructions put no
/// element under the parent: where it had none, it has none.
pub proof fn lemma_margin_adds_no_element(
    dom: Seq<SourceNodeView>,
    at: Walk,
    children: Seq<usize>,
    parent: NodeId,
)
    requires
        well_formed(dom),
        forall|j: int| 0 <= j < children.len() ==> (#[trigger] children[j]) < dom.len(),
        forall|j: int| 0 <= j < children.len() ==> is_margin(dom, #[trigger] children[j]),
        at.tree.wf(),
        at.tree.has_node(parent),
        at.tree.value(parent).is_container(),
        forall|j: int|
            0 <= j < at.tree.children(parent).len() ==> !at.tree.is_element(
                #[trigger] at.tree.children(parent)[j],
            ),
        convert_all(dom, at, children, parent).tree.nodes.len() <= usize::MAX,
    ensures
        ({
            let end = convert_all(dom, at, children, parent).tree;
            forall|j: int|
                0 <= j < end.children(parent).len() ==> !end.is_element(
                    #[trigger] end.children(parent)[j],
                )
        }),
    decreases children.len(),
{
    lemma_convert_all_unfolds(dom, at, children, parent);
    if children.len() > 0 {
        let rest = children.drop_first();
        let source = children[0];
        assert(is_margin(dom, source));
        lemma_convert_unfolds(dom, at, source, parent);
        let next = convert(dom, at, source, parent);
        assert forall|j: int| 0 <= j < rest.len() implies (#[trigger] rest[j]) < dom.len()
            && is_margin(dom, rest[j]) by {
            assert(rest[j] == children[j + 1]);
        }
        if next.tree != at.tree {
            let content = dom[source as int].data->Comment_0;
            let fresh = at.tree.next_node();
            assert(next.tree == with_child(at.tree, parent, ValueView::Comment(content)));
            assert(next.tree.nodes.len() == at.tree.nodes.len() + 1);
            assert(next.tree.has_node(parent));
            lemma_margin_grows(dom, next, rest, parent);
            lemma_with_child(at.tree, parent, ValueView::Comment(content));
            assert(same_kind(at.tree.nodes[parent.0 as int].value, next.tree.nodes[parent.0 as int].value));
            assert(next.tree.children(parent) == at.tree.children(parent).push(fresh));
            assert forall|j: int| 0 <= j < next.tree.children(parent).len() implies !next.tree.is_element(
                #[trigger] next.tree.children(parent)[j],
            ) by {
                if j < at.tree.children(parent).len() {
                    let c = at.tree.children(parent)[j];
                    assert(at.tree.node_wf(NodeId(parent.0 as int as usize)));
                    assert(at.tree.has_node(c));
                    assert(same_kind(at.tree.nodes[c.0 as int].value, next.tree.nodes[c.0 as int].value));
                }
            }
        }
        lemma_margin_adds_no_element(dom, next, rest, parent);
    }
}

/// A DOM that holds no element and no text at its top converts to a
/// document without a document element; where it holds no comment there
/// either, the document has no children at all: the conversion makes the
/// document node, interns the six namespaces, and adds nothing.
pub proof fn lemma_dom_without_content_gives_no_element(tree: XotView, dom: Seq<SourceNodeView>)
    requires
        tree.wf(),
        well_formed(dom),
        dom[ROOT as int].data is Document,
        forall|j: int|
            0 <= j < dom[ROOT as int].children.len() ==> is_margin(
                dom,
                #[trigger] dom[ROOT as int].children[j],
            ),
        converted(tree, dom).wf(),
    ensures
        converted(tree, dom).document_element(tree.next_node()) is None,
        (forall|j: int|
            0 <= j < dom[ROOT as int].children.len() ==> makes_nothing(
                dom,
                #[trigger] dom[ROOT as int].children[j],
            )) ==> converted(tree, dom) == seeded(tree.add_node(ValueView::Document))
            && converted(tree, dom).first_child(tree.next_node()) is None,
{
    let document = tree.next_node();
    let made = tree.add_node(ValueView::Document);
    let first = first_state(tree);
    let children = dom[ROOT as int].children;
    let met = Walk { visited: first.visited.insert(ROOT, document), ..first };
    lemma_convert_unfolds(dom, first, ROOT, document);
    assert(convert(dom, first, ROOT, document) == convert_all(dom, met, children, document));
    lemma_seeded_extends(made);
    assert(made.has_node(document));
    assert(seeded(made).nodes[document.0 as int].children.len() == 0);
    lemma_margin_grows(dom, met, children, document);
    let t1 = made.add_namespace(HTML_NS@);
    let t2 = t1.add_namespace(MATHML_NS@);
    let t3 = t2.add_namespace(SVG_NS@);
    let t4 = t3.add_namespace(XLINK_NS@);
    let t5 = t4.add_namespace(XML_NS@);
    tree.lemma_add_node(ValueView::Document);
    made.lemma_add_namespace(HTML_NS@);
    t1.lemma_add_namespace(MATHML_NS@);
    t2.lemma_add_namespace(SVG_NS@);
    t3.lemma_add_namespace(XLINK_NS@);
    t4.lemma_add_namespace(XML_NS@);
    t5.lemma_add_namespace(XMLNS_NS@);
    lemma_margin_adds_no_element(dom, met, children, document);
    let end = converted(tree, dom);
    lemma_no_element_no_first(end, end.children(document));
    assert(same_kind(made.nodes[document.0 as int].value, seeded(made).nodes[document.0 as int].value));
    if forall|j: int| 0 <= j < children.len() ==> makes_nothing(dom, #[trigger] children[j]) {
        assert forall|j: int| 0 <= j < children.len() implies skipped(
            dom,
            met.visited,
            #[trigger] children[j],
        ) by {
            assert(makes_nothing(dom, children[j]));
        }
        lemma_skipped_children_change_nothing(dom, met, children, document);
    }
}

/// Finds the root of the fragment that a DOM holds.
pub fn find_fragment_root(dom: &SourceDom) -> (root: Option<usize>)
    requires
        dom.wf(),
    ensures
        root == fragment_root(dom@),
        root matches Some(position) ==> position < dom@.len(),
{
    let node = &dom.nodes[ROOT];
    assert(node@ == dom@[ROOT as int]);
    let children = &node.children;
    let n = children.len();
    let mut i: usize = 0;
    assert(children@.skip(0) =~= children@);
    while i < n
        invariant
            dom.wf(),
            n == children@.len(),
            0 <= i <= n,
            children@ == dom@[ROOT as int].children,
            fragment_root(dom@) == first_fragment_root(dom@, children@.skip(i as int)),
        decreases n - i,
    {
        let position = children[i];
        assert(children@.skip(i as int).drop_first() =~= children@.skip(i + 1));
        assert(children@.skip(i as int)[0] == position);
        assert(position < dom@.len());
        let child = &dom.nodes[position];
        assert(child@ == dom@[position as int]);
        let found = match &child.data {
            SourceData::Element(_, _) => true,
            SourceData::Text(_) => true,
            _ => false,
        };
        if found {
            return Some(position);
        }
        i += 1;
    }
    None
}

impl DomConverter {
    /// How many namespaces the converter remembers.
    pub fn remembered(&self) -> (n: usize)
        ensures
            n == self.cached().len(),
    {
        self.namespace_ids.len()
    }

    /// Forgets the source nodes met. The positions mean nothing once the
    /// DOM they came from is gone, so this is done before a second pass and
    /// at the end of every conversion.
    pub fn clear(&mut self)
        ensures
            final(self).visited() == Map::<usize, NodeId>::empty(),
            final(self).cached() == old(self).cached(),
    {
        self.node_map.clear();
    }
}

/// Converts a parsed DOM into a new document of the tree and returns the
/// document node.
///
/// A document node is made, and the DOM is converted from its root under
/// it. If that leaves the document without children, the DOM is searched
/// for the root of a fragment: the first child of its root that is an
/// element or a text. Such a node would be converted under a second new
/// document node, which would be returned. The contract shows that the
/// search comes back empty: a DOM that holds the root of a fragment never
/// leaves the first document without children. So the result is always
/// that of the first pass, and an empty document is returned only for a DOM
/// without element and text at its top. A DOM that holds only comments,
/// doctypes and processing instructions at its top gives a document without
/// a document element.
///
/// The tree only grows; all it gains lies below the new document node, and
/// in what it gains no two text nodes stand side by side.
pub fn convert_document(xot: &mut Xot, dom: &SourceDom) -> (document: NodeId)
    requires
        old(xot).wf(),
        dom.wf(),
    ensures
        final(xot).wf(),
        final(xot)@ == converted(old(xot)@, dom@),
        document == old(xot)@.next_node(),
        fragment_root(dom@) is Some ==> final(xot)@.first_child(document) is Some,
        dom@[ROOT as int].data is Document && (forall|j: int|
            0 <= j < dom@[ROOT as int].children.len() ==> is_margin(
                dom@,
                #[trigger] dom@[ROOT as int].children[j],
            )) ==> final(xot)@.document_element(document) is None,
        dom@[ROOT as int].data is Document && (forall|j: int|
            0 <= j < dom@[ROOT as int].children.len() ==> makes_nothing(
                dom@,
                #[trigger] dom@[ROOT as int].children[j],
            )) ==> final(xot)@.first_child(document) is None,
        forall|node: NodeId|
            #[trigger] final(xot)@.has_node(node) && !old(xot)@.has_node(node)
                ==> final(xot)@.is_ancestor_or_self(document, node),
        final(xot)@.has_node(document),
        !old(xot)@.has_node(document),
        final(xot)@.value(document) is Document,
        final(xot)@.parent(document) is None,
        extends(final(xot)@, old(xot)@),
        keeps_merged(old(xot)@, final(xot)@),
{
    let ghost t0 = xot@;
    let document_node = xot.new_document();
    let ghost t1 = xot@;
    let mut converter = DomConverter::new(xot);
    let ghost t2 = xot@;
    proof {
        lemma_add_node_extends(t0, ValueView::Document);
        lemma_seeded_extends(t1);
        lemma_extends_transitive(t0, t1, t2);
        lemma_keeps_merged_transitive(t0, t1, t2);
    }
    let ghost start = converter.walk(t2, seq![(ROOT, document_node)]);
    assert(converter.walk(t2, Seq::empty()) == first_state(t0));
    converter.convert_handle(xot, dom, ROOT, document_node);
    let ghost t3 = xot@;
    proof {
        lemma_extends_transitive(t0, t2, t3);
        lemma_keeps_merged_transitive(t0, t2, t3);
        assert(same_kind(t1.nodes[document_node.0 as int].value, t3.nodes[document_node.0 as int].value)) by {
            lemma_extends_transitive(t1, t2, t3);
        }
        assert forall|node: NodeId| #[trigger]
            t3.has_node(node) && !t0.has_node(node) implies t3.is_ancestor_or_self(
            document_node,
            node,
        ) by {
            if t2.has_node(node) {
                assert(node == document_node);
                assert(t3.ancestor(document_node, 0) == Some(document_node));
            }
        }
    }
    proof {
        if dom@[ROOT as int].data is Document && (forall|j: int|
            0 <= j < dom@[ROOT as int].children.len() ==> is_margin(
                dom@,
                #[trigger] dom@[ROOT as int].children[j],
            )) {
            lemma_dom_without_content_gives_no_element(t0, dom@);
        }
        if dom@[ROOT as int].data is Document && (forall|j: int|
            0 <= j < dom@[ROOT as int].children.len() ==> makes_nothing(
                dom@,
                #[trigger] dom@[ROOT as int].children[j],
            )) {
            assert forall|j: int| 0 <= j < dom@[ROOT as int].children.len() implies is_margin(
                dom@,
                #[trigger] dom@[ROOT as int].children[j],
            ) by {
                assert(makes_nothing(dom@, dom@[ROOT as int].children[j]));
            }
            lemma_dom_without_content_gives_no_element(t0, dom@);
        }
    }
    if xot.first_child(document_node).is_none() {
        proof {
            lemma_untouched_holds_no_fragment(dom@, start, converter.walk(t3, Seq::empty()));
        }
        match find_fragment_root(dom) {
            Some(root) => {
                converter.clear();
                let new_document_node = xot.new_document();
                converter.convert_handle(xot, dom, root, new_document_node);
                converter.clear();
                return new_document_node;
            },
            None => {},
        }
    }
    converter.clear();
    document_node
}

/// Tells whether the parser's diagnostics let the conversion go on: any
/// diagnostic is an error, which carries them all in their order.
pub fn check_diagnostics(diagnostics: Vec<String>) -> (result: Result<(), ParseError>)
    ensures
        diagnostics@.len() == 0 ==> result is Ok,
        diagnostics@.len() > 0 ==> (result matches Err(ParseError::HtmlParse(messages))
            && messages == diagnostics),
{
    if diagnostics.len() > 0 {
        Err(ParseError::HtmlParse(diagnostics))
    } else {
        Ok(())
    }
}

/// What parsing `html` into a tree owes: the tree `after`, and the result,
/// from the tree `before` and what the parser makes of the text.
///
/// If the text cannot be read to its end, the result is that error, with the
/// reader's message. Else, if the parser reports any diagnostic, the result
/// is the error that carries them all, in their order. In both cases the
/// tree is as it was. Else the result is the new document node, and the tree
/// is what converting the parser's DOM gives: the nodes that the parser
/// hands out level by level, put into a table.
pub open spec fn parse_outcome(
    before: XotView,
    html: Seq<char>,
    after: XotView,
    result: Result<NodeId, ParseError>,
) -> bool {
    match read_failure(html) {
        Some(message) => {
            &&& result matches Err(ParseError::Io(text))
            &&& text@ == message
            &&& after == before
        },
        None => if parser_diagnostics(html).len() > 0 {
            &&& result matches Err(ParseError::HtmlParse(messages))
            &&& messages@.map_values(|m: String| m@) == parser_diagnostics(html)
            &&& after == before
        } else {
            &&& result == Ok::<NodeId, ParseError>(before.next_node())
            &&& after == converted(before, usable(level_table(parser_dom(html))))
        },
    }
}

/// Parses an HTML text into a new document of the tree and returns the
/// document node.
///
/// The text is handed to the HTML parser. If the text cannot be read to its
/// end, or the parser reports any diagnostic, that is the error, and the
/// tree is as it was. Otherwise the DOM that the parser built is converted
/// as [`convert_document`] says. Doctypes and processing instructions leave
/// no trace in the tree.
pub fn parse_html(xot: &mut Xot, html: &str) -> (result: Result<NodeId, ParseError>)
    requires
        old(xot).wf(),
    ensures
        final(xot).wf(),
        parse_outcome(old(xot)@, html@, final(xot)@, result),
        result matches Ok(document) ==> {
            &&& final(xot)@.has_node(document)
            &&& !old(xot)@.has_node(document)
            &&& final(xot)@.value(document) is Document
            &&& forall|node: NodeId|
                #[trigger] final(xot)@.has_node(node) && !old(xot)@.has_node(node)
                    ==> final(xot)@.is_ancestor_or_self(document, node)
            &&& extends(final(xot)@, old(xot)@)
            &&& keeps_merged(old(xot)@, final(xot)@)
        },
{
    let (diagnostics, source) = match parse_source(html) {
        Ok(parsed) => parsed,
        Err(message) => {
            return Err(ParseError::Io(message));
        },
    };
    match check_diagnostics(diagnostics) {
        Ok(_) => {},
        Err(error) => {
            return Err(error);
        },
    }
    let dom = SourceDom::from_levels(source).usable();
    let document = convert_document(xot, &dom);
    Ok(document)
}

impl Xot {
    /// Parses an HTML text into a new document of this tree; see
    /// [`parse_html`].
    pub fn parse_html(&mut self, html: &str) -> (result: Result<NodeId, ParseError>)
        requires
            old(self).wf(),
        ensures
            final(self).wf(),
            parse_outcome(old(self)@, html@, final(self)@, result),
            result matches Ok(document) ==> {
                &&& final(self)@.has_node(document)
                &&& !old(self)@.has_node(document)
                &&& final(self)@.value(document) is Document
                &&& forall|node: NodeId|
                    #[trigger] final(self)@.has_node(node) && !old(self)@.has_node(node)
                        ==> final(self)@.is_ancestor_or_self(document, node)
                &&& extends(final(self)@, old(self)@)
                &&& keeps_merged(old(self)@, final(self)@)
            },
    {
        parse_html(self, html)
    }
}

} // verus!
