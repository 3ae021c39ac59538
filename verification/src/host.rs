//! The host document tree: an arena of nodes owned by the surrounding
//! environment. Components mirror parts of this tree in shadow state; the
//! host may also mutate it directly between calls, which is exactly what
//! `audit` exists to detect.
//!
//! Every node keeps its kind, character data, attributes, an ordered child
//! list, a parent link and an event-handler slot. Node identity is the arena
//! index; nodes are never deallocated, only detached.

use crate::attrs::AttrList;
use vstd::prelude::*;
use vstd::string::*;

verus! {

/// The element kinds the factory can produce.
#[derive(Clone, Copy, PartialEq, Eq, Structural, Debug)]
pub enum ElemTag {
    Div,
    Span,
    P,
    Br,
    Body,
}

/// A node is an element of some kind, or a text node.
#[derive(Clone, Copy, PartialEq, Eq, Structural, Debug)]
pub enum NodeKind {
    Element(ElemTag),
    Text,
}

/// The host's current selection: anchor and focus, each a node plus a
/// character offset within it.
#[derive(Clone, Copy, PartialEq, Eq, Structural, Debug)]
pub struct HostSelection {
    pub anchor_node: usize,
    pub anchor_offset: usize,
    pub focus_node: usize,
    pub focus_offset: usize,
}

/// One host node.
pub struct HostNode {
    kind: NodeKind,
    text: String,
    attrs: AttrList,
    children: Vec<usize>,
    parent: Option<usize>,
    handler: Option<u64>,
}

/// The mathematical value of one host node.
pub ghost struct NodeModel {
    pub kind: NodeKind,
    pub text: Seq<char>,
    pub attrs: Map<Seq<char>, Seq<char>>,
    pub children: Seq<usize>,
    pub parent: Option<usize>,
    pub handler: Option<u64>,
}

impl View for HostNode {
    type V = NodeModel;

    closed spec fn view(&self) -> NodeModel {
        NodeModel {
            kind: self.kind,
            text: self.text@,
            attrs: self.attrs@,
            children: self.children@,
            parent: self.parent,
            handler: self.handler,
        }
    }
}

/// The mathematical value of the whole host document.
pub ghost struct DocModel {
    pub nodes: Seq<NodeModel>,
    pub body: Option<usize>,
    pub selection: Option<HostSelection>,
}

/// `n` with another child list.
pub open spec fn with_children(n: NodeModel, cs: Seq<usize>) -> NodeModel {
    NodeModel { children: cs, ..n }
}

/// `n` with another parent link.
pub open spec fn with_parent(n: NodeModel, p: Option<usize>) -> NodeModel {
    NodeModel { parent: p, ..n }
}

/// `n` with other character data.
pub open spec fn with_text(n: NodeModel, t: Seq<char>) -> NodeModel {
    NodeModel { text: t, ..n }
}

/// `n` with another attribute map.
pub open spec fn with_attrs(n: NodeModel, a: Map<Seq<char>, Seq<char>>) -> NodeModel {
    NodeModel { attrs: a, ..n }
}

/// `n` with another handler slot.
pub open spec fn with_handler(n: NodeModel, h: Option<u64>) -> NodeModel {
    NodeModel { handler: h, ..n }
}

/// A freshly created element node: empty in every slot, detached.
pub open spec fn fresh_element_model(tag: ElemTag) -> NodeModel {
    NodeModel {
        kind: NodeKind::Element(tag),
        text: Seq::empty(),
        attrs: Map::empty(),
        children: Seq::empty(),
        parent: None,
        handler: None,
    }
}

/// A freshly created text node: empty character data, detached.
pub open spec fn fresh_text_model() -> NodeModel {
    NodeModel {
        kind: NodeKind::Text,
        text: Seq::empty(),
        attrs: Map::empty(),
        children: Seq::empty(),
        parent: None,
        handler: None,
    }
}

/// Every child reference points into the arena, back-links to its parent,
/// and is no self-reference.
#[verifier::opaque]
pub open spec fn children_linked(ns: Seq<NodeModel>) -> bool {
    forall|p: int, i: int|
        0 <= p < ns.len() && 0 <= i < ns[p].children.len() ==> {
            let c = #[trigger] ns[p].children[i];
            &&& c < ns.len()
            &&& c != p
            &&& ns[c as int].parent == Some(p as usize)
        }
}

/// No node occurs twice in one child list.
#[verifier::opaque]
pub open spec fn children_distinct(ns: Seq<NodeModel>) -> bool {
    forall|p: int, i: int, j: int|
        #![trigger ns[p].children[i], ns[p].children[j]]
        0 <= p < ns.len() && 0 <= i < j < ns[p].children.len() ==> ns[p].children[i]
            != ns[p].children[j]
}

/// Every parent link is answered by membership in that parent's child list.
#[verifier::opaque]
pub open spec fn parents_linked(ns: Seq<NodeModel>) -> bool {
    forall|c: int|
        0 <= c < ns.len() ==> match (#[trigger] ns[c]).parent {
            Some(p) => p < ns.len() && p != c && ns[p as int].children.contains(c as usize),
            None => true,
        }
}

/// Text nodes have no children.
#[verifier::opaque]
pub open spec fn text_nodes_leaf(ns: Seq<NodeModel>) -> bool {
    forall|n: int|
        0 <= n < ns.len() && (#[trigger] ns[n]).kind is Text ==> ns[n].children.len() == 0
}

impl DocModel {
    /// The body slot and the selection point into the arena.
    pub open spec fn roots_valid(self) -> bool {
        &&& match self.body {
            Some(b) => b < self.nodes.len(),
            None => true,
        }
        &&& match self.selection {
            Some(s) => s.anchor_node < self.nodes.len() && s.focus_node < self.nodes.len(),
            None => true,
        }
    }

    /// The host tree invariant, maintained by every host operation.
    pub open spec fn wf(self) -> bool {
        &&& children_linked(self.nodes)
        &&& children_distinct(self.nodes)
        &&& parents_linked(self.nodes)
        &&& text_nodes_leaf(self.nodes)
        &&& self.roots_valid()
    }
}

/// `d2` agrees with `d1` on every node of `s` (and `s` lies inside `d1`).
/// Parent links are exempt: components never read them, so reparenting a
/// subtree leaves every component over it undisturbed.
pub open spec fn agree_on(d1: Seq<NodeModel>, d2: Seq<NodeModel>, s: Set<usize>) -> bool {
    &&& d1.len() <= d2.len()
    &&& forall|n: usize|
        s.contains(n) ==> n < d1.len() && with_parent(#[trigger] d2[n as int], None) == with_parent(
            d1[n as int],
            None,
        )
}

/// The attribute lists of all nodes have distinct names.
#[verifier::opaque]
spec fn attr_lists_wf(ns: Seq<HostNode>) -> bool {
    forall|n: int| 0 <= n < ns.len() ==> (#[trigger] ns[n]).attrs.wf()
}

proof fn lemma_attr_lists_wf_push(ns1: Seq<HostNode>, ns2: Seq<HostNode>, h: HostNode)
    requires
        attr_lists_wf(ns1),
        h.attrs.wf(),
        ns2 == ns1.push(h),
    ensures
        attr_lists_wf(ns2),
{
    reveal(attr_lists_wf);
    assert forall|n: int| 0 <= n < ns2.len() implies (#[trigger] ns2[n]).attrs.wf() by {
        if n < ns1.len() {
            assert(ns2[n] == ns1[n]);
        }
    }
}

/// A change that leaves every node's attribute list alone keeps the
/// attribute-list invariant.
proof fn lemma_attr_lists_wf_kept(ns1: Seq<HostNode>, ns2: Seq<HostNode>)
    requires
        attr_lists_wf(ns1),
        ns2.len() == ns1.len(),
        forall|n: int| 0 <= n < ns2.len() ==> (#[trigger] ns2[n]).attrs == ns1[n].attrs,
    ensures
        attr_lists_wf(ns2),
{
    reveal(attr_lists_wf);
    assert forall|n: int| 0 <= n < ns2.len() implies (#[trigger] ns2[n]).attrs.wf() by {
        assert(ns1[n].attrs.wf());
    }
}

proof fn lemma_attr_lists_wf_update(ns1: Seq<HostNode>, ns2: Seq<HostNode>, i: int, h: HostNode)
    requires
        attr_lists_wf(ns1),
        h.attrs.wf(),
        0 <= i < ns1.len(),
        ns2 == ns1.update(i, h),
    ensures
        attr_lists_wf(ns2),
{
    reveal(attr_lists_wf);
    assert forall|n: int| 0 <= n < ns2.len() implies (#[trigger] ns2[n]).attrs.wf() by {
        if n != i {
            assert(ns2[n] == ns1[n]);
        }
    }
}

/// The host document.
pub struct HostDoc {
    nodes: Vec<HostNode>,
    body: Option<usize>,
    selection: Option<HostSelection>,
}

impl View for HostDoc {
    type V = DocModel;

    closed spec fn view(&self) -> DocModel {
        DocModel {
            nodes: self.nodes@.map_values(|hn: HostNode| hn@),
            body: self.body,
            selection: self.selection,
        }
    }
}

impl HostDoc {
    /// The attribute lists of all nodes have distinct names.
    pub closed spec fn attrs_wf(&self) -> bool {
        attr_lists_wf(self.nodes@)
    }

    /// The full host invariant: tree shape plus attribute-list shape.
    pub open spec fn wf(&self) -> bool {
        &&& self@.wf()
        &&& self.attrs_wf()
    }

    /// A node index that points into the arena.
    pub open spec fn valid(&self, n: usize) -> bool {
        n < self@.nodes.len()
    }

    /// An empty host document.
    pub fn new() -> (r: HostDoc)
        ensures
            r@.nodes.len() == 0,
            r@.body is None,
            r@.selection is None,
            r.wf(),
    {
        let r = HostDoc { nodes: Vec::new(), body: None, selection: None };
        proof {
            assert(r@.nodes =~= Seq::empty());
            reveal(children_linked);
            reveal(children_distinct);
            reveal(parents_linked);
            reveal(text_nodes_leaf);
            reveal(attr_lists_wf);
        }
        r
    }

    pub fn n_nodes(&self) -> (r: usize)
        ensures
            r == self@.nodes.len(),
    {
        self.nodes.len()
    }

    /// Create a detached element of the given kind; returns its identity.
    pub fn create_element(&mut self, tag: ElemTag) -> (id: usize)
        requires
            old(self).wf(),
        ensures
            final(self).wf(),
            id == old(self)@.nodes.len(),
            final(self)@.nodes == old(self)@.nodes.push(fresh_element_model(tag)),
            final(self)@.body == old(self)@.body,
            final(self)@.selection == old(self)@.selection,
    {
        let id = self.nodes.len();
        let node = HostNode {
            kind: NodeKind::Element(tag),
            text: String::new(),
            attrs: AttrList::new(),
            children: Vec::new(),
            parent: None,
            handler: None,
        };
        proof {
            assert(node@.children =~= Seq::<usize>::empty());
            assert(node@.text =~= Seq::<char>::empty());
            assert(node@ == fresh_element_model(tag));
        }
        self.nodes.push(node);
        proof {
            assert(final(self)@.nodes =~= old(self)@.nodes.push(fresh_element_model(tag)));
            lemma_wf_after_push(old(self)@, final(self)@, fresh_element_model(tag));
            lemma_attr_lists_wf_push(old(self).nodes@, final(self).nodes@, node);
        }
        id
    }

    /// Create a detached text node; returns its identity.
    pub fn create_text(&mut self) -> (id: usize)
        requires
            old(self).wf(),
        ensures
            final(self).wf(),
            id == old(self)@.nodes.len(),
            final(self)@.nodes == old(self)@.nodes.push(fresh_text_model()),
            final(self)@.body == old(self)@.body,
            final(self)@.selection == old(self)@.selection,
    {
        let id = self.nodes.len();
        let node = HostNode {
            kind: NodeKind::Text,
            text: String::new(),
            attrs: AttrList::new(),
            children: Vec::new(),
            parent: None,
            handler: None,
        };
        proof {
            assert(node@.children =~= Seq::<usize>::empty());
            assert(node@.text =~= Seq::<char>::empty());
            assert(node@ == fresh_text_model());
        }
        self.nodes.push(node);
        proof {
            assert(final(self)@.nodes =~= old(self)@.nodes.push(fresh_text_model()));
            lemma_wf_after_push(old(self)@, final(self)@, fresh_text_model());
            lemma_attr_lists_wf_push(old(self).nodes@, final(self).nodes@, node);
        }
        id
    }

    pub fn kind_of(&self, n: usize) -> (r: NodeKind)
        requires
            self.valid(n),
        ensures
            r == self@.nodes[n as int].kind,
    {
        self.nodes[n].kind
    }

    pub fn parent_of(&self, n: usize) -> (r: Option<usize>)
        requires
            self.valid(n),
        ensures
            r == self@.nodes[n as int].parent,
    {
        self.nodes[n].parent
    }

    pub fn handler_of(&self, n: usize) -> (r: Option<u64>)
        requires
            self.valid(n),
        ensures
            r == self@.nodes[n as int].handler,
    {
        self.nodes[n].handler
    }

    /// The character data of a node.
    pub fn text_of(&self, n: usize) -> (r: &String)
        requires
            self.valid(n),
        ensures
            r@ == self@.nodes[n as int].text,
    {
        &self.nodes[n].text
    }

    /// The attribute list of a node.
    pub fn attrs_of(&self, n: usize) -> (r: &AttrList)
        requires
            self.valid(n),
        ensures
            r@ == self@.nodes[n as int].attrs,
            self.wf() ==> r.wf(),
    {
        proof {
            reveal(attr_lists_wf);
        }
        &self.nodes[n].attrs
    }

    /// One attribute of a node.
    pub fn attr_of(&self, n: usize, name: &str) -> (r: Option<&String>)
        requires
            self.wf(),
            self.valid(n),
        ensures
            match r {
                Some(v) => self@.nodes[n as int].attrs.contains_key(name@) && v@
                    == self@.nodes[n as int].attrs[name@],
                None => !self@.nodes[n as int].attrs.contains_key(name@),
            },
    {
        proof {
            reveal(attr_lists_wf);
        }
        self.nodes[n].attrs.get(name)
    }

    pub fn child_count(&self, n: usize) -> (r: usize)
        requires
            self.valid(n),
        ensures
            r == self@.nodes[n as int].children.len(),
    {
        self.nodes[n].children.len()
    }

    pub fn child_at(&self, n: usize, i: usize) -> (r: usize)
        requires
            self.valid(n),
            i < self@.nodes[n as int].children.len(),
        ensures
            r == self@.nodes[n as int].children[i as int],
    {
        self.nodes[n].children[i]
    }

    /// A copy of a node's child list, in order.
    pub fn children_of(&self, n: usize) -> (r: Vec<usize>)
        requires
            self.valid(n),
        ensures
            r@ == self@.nodes[n as int].children,
    {
        let count = self.nodes[n].children.len();
        let mut r: Vec<usize> = Vec::new();
        let mut i: usize = 0;
        while i < count
            invariant
                i <= count,
                self.valid(n),
                count == self@.nodes[n as int].children.len(),
                r@ == self@.nodes[n as int].children.take(i as int),
            decreases count - i,
        {
            r.push(self.nodes[n].children[i]);
            proof {
                assert(r@ =~= self@.nodes[n as int].children.take(i + 1));
            }
            i = i + 1;
        }
        proof {
            assert(r@ =~= self@.nodes[n as int].children);
        }
        r
    }

    pub fn body_of(&self) -> (r: Option<usize>)
        ensures
            r == self@.body,
    {
        self.body
    }

    pub fn selection_of(&self) -> (r: Option<HostSelection>)
        ensures
            r == self@.selection,
    {
        self.selection
    }

    /// Write one attribute of an element.
    pub fn set_attribute(&mut self, n: usize, name: &str, value: &str)
        requires
            old(self).wf(),
            old(self).valid(n),
            old(self)@.nodes[n as int].kind is Element,
        ensures
            final(self).wf(),
            final(self)@.nodes == old(self)@.nodes.update(
                n as int,
                with_attrs(
                    old(self)@.nodes[n as int],
                    old(self)@.nodes[n as int].attrs.insert(name@, value@),
                ),
            ),
            final(self)@.body == old(self)@.body,
            final(self)@.selection == old(self)@.selection,
    {
        proof {
            reveal(attr_lists_wf);
        }
        let node = vstd::std_specs::vec::vec_index_mut(&mut self.nodes, n);
        node.attrs.set(name, value);
        proof {
            assert(final(self)@.nodes =~= old(self)@.nodes.update(
                n as int,
                with_attrs(
                    old(self)@.nodes[n as int],
                    old(self)@.nodes[n as int].attrs.insert(name@, value@),
                ),
            ));
            lemma_wf_nonstructural(old(self)@, final(self)@);
            lemma_attr_lists_wf_update(
                old(self).nodes@,
                final(self).nodes@,
                n as int,
                final(self).nodes@[n as int],
            );
        }
    }

    /// Remove one attribute of an element; the host may do this on its own.
    pub fn remove_attribute(&mut self, n: usize, name: &str)
        requires
            old(self).wf(),
            old(self).valid(n),
            old(self)@.nodes[n as int].kind is Element,
        ensures
            final(self).wf(),
            final(self)@.nodes == old(self)@.nodes.update(
                n as int,
                with_attrs(
                    old(self)@.nodes[n as int],
                    old(self)@.nodes[n as int].attrs.remove(name@),
                ),
            ),
            final(self)@.body == old(self)@.body,
            final(self)@.selection == old(self)@.selection,
    {
        proof {
            reveal(attr_lists_wf);
        }
        let node = vstd::std_specs::vec::vec_index_mut(&mut self.nodes, n);
        node.attrs.remove(name);
        proof {
            assert(final(self)@.nodes =~= old(self)@.nodes.update(
                n as int,
                with_attrs(
                    old(self)@.nodes[n as int],
                    old(self)@.nodes[n as int].attrs.remove(name@),
                ),
            ));
            lemma_wf_nonstructural(old(self)@, final(self)@);
            lemma_attr_lists_wf_update(
                old(self).nodes@,
                final(self).nodes@,
                n as int,
                final(self).nodes@[n as int],
            );
        }
    }

    /// Replace the character data of a text node.
    pub fn set_text(&mut self, n: usize, s: &str)
        requires
            old(self).wf(),
            old(self).valid(n),
            old(self)@.nodes[n as int].kind is Text,
        ensures
            final(self).wf(),
            final(self)@.nodes == old(self)@.nodes.update(
                n as int,
                with_text(old(self)@.nodes[n as int], s@),
            ),
            final(self)@.body == old(self)@.body,
            final(self)@.selection == old(self)@.selection,
    {
        proof {
            reveal(attr_lists_wf);
        }
        let node = vstd::std_specs::vec::vec_index_mut(&mut self.nodes, n);
        node.text = String::from_str(s);
        proof {
            assert(final(self)@.nodes =~= old(self)@.nodes.update(
                n as int,
                with_text(old(self)@.nodes[n as int], s@),
            ));
            lemma_wf_nonstructural(old(self)@, final(self)@);
            lemma_attr_lists_wf_update(
                old(self).nodes@,
                final(self).nodes@,
                n as int,
                final(self).nodes@[n as int],
            );
        }
    }

    /// Append to the character data of a text node.
    pub fn append_text(&mut self, n: usize, s: &str)
        requires
            old(self).wf(),
            old(self).valid(n),
            old(self)@.nodes[n as int].kind is Text,
        ensures
            final(self).wf(),
            final(self)@.nodes == old(self)@.nodes.update(
                n as int,
                with_text(old(self)@.nodes[n as int], old(self)@.nodes[n as int].text + s@),
            ),
            final(self)@.body == old(self)@.body,
            final(self)@.selection == old(self)@.selection,
    {
        proof {
            reveal(attr_lists_wf);
        }
        let node = vstd::std_specs::vec::vec_index_mut(&mut self.nodes, n);
        node.text.append(s);
        proof {
            assert(final(self)@.nodes =~= old(self)@.nodes.update(
                n as int,
                with_text(old(self)@.nodes[n as int], old(self)@.nodes[n as int].text + s@),
            ));
            lemma_wf_nonstructural(old(self)@, final(self)@);
            lemma_attr_lists_wf_update(
                old(self).nodes@,
                final(self).nodes@,
                n as int,
                final(self).nodes@[n as int],
            );
        }
    }

    /// Insert into the character data of a text node at a character index.
    pub fn insert_text(&mut self, n: usize, at: usize, s: &str)
        requires
            old(self).wf(),
            old(self).valid(n),
            old(self)@.nodes[n as int].kind is Text,
            at <= old(self)@.nodes[n as int].text.len(),
        ensures
            final(self).wf(),
            final(self)@.nodes == old(self)@.nodes.update(
                n as int,
                with_text(
                    old(self)@.nodes[n as int],
                    old(self)@.nodes[n as int].text.take(at as int) + s@ + old(
                        self,
                    )@.nodes[n as int].text.skip(at as int),
                ),
            ),
            final(self)@.body == old(self)@.body,
            final(self)@.selection == old(self)@.selection,
    {
        proof {
            reveal(attr_lists_wf);
        }
        let node = vstd::std_specs::vec::vec_index_mut(&mut self.nodes, n);
        let total = node.text.as_str().unicode_len();
        let prefix = node.text.as_str().substring_char(0, at);
        let mut built = String::from_str(prefix);
        built.append(s);
        let suffix = node.text.as_str().substring_char(at, total);
        built.append(suffix);
        node.text = built;
        proof {
            assert(final(self)@.nodes =~= old(self)@.nodes.update(
                n as int,
                with_text(
                    old(self)@.nodes[n as int],
                    old(self)@.nodes[n as int].text.take(at as int) + s@ + old(
                        self,
                    )@.nodes[n as int].text.skip(at as int),
                ),
            ));
            lemma_wf_nonstructural(old(self)@, final(self)@);
            lemma_attr_lists_wf_update(
                old(self).nodes@,
                final(self).nodes@,
                n as int,
                final(self).nodes@[n as int],
            );
        }
    }

    /// Set or clear the handler slot of an element.
    pub fn set_handler(&mut self, n: usize, h: Option<u64>)
        requires
            old(self).wf(),
            old(self).valid(n),
            old(self)@.nodes[n as int].kind is Element,
        ensures
            final(self).wf(),
            final(self)@.nodes == old(self)@.nodes.update(
                n as int,
                with_handler(old(self)@.nodes[n as int], h),
            ),
            final(self)@.body == old(self)@.body,
            final(self)@.selection == old(self)@.selection,
    {
        proof {
            reveal(attr_lists_wf);
        }
        let node = vstd::std_specs::vec::vec_index_mut(&mut self.nodes, n);
        node.handler = h;
        proof {
            assert(final(self)@.nodes =~= old(self)@.nodes.update(
                n as int,
                with_handler(old(self)@.nodes[n as int], h),
            ));
            lemma_wf_nonstructural(old(self)@, final(self)@);
            lemma_attr_lists_wf_update(
                old(self).nodes@,
                final(self).nodes@,
                n as int,
                final(self).nodes@[n as int],
            );
        }
    }

    /// Attach a detached node as the last child of an element.
    pub fn append_child(&mut self, p: usize, c: usize)
        requires
            old(self).wf(),
            old(self).valid(p),
            old(self).valid(c),
            c != p,
            old(self)@.nodes[p as int].kind is Element,
            old(self)@.nodes[c as int].parent is None,
        ensures
            final(self).wf(),
            final(self)@.nodes == old(self)@.nodes.update(
                p as int,
                with_children(
                    old(self)@.nodes[p as int],
                    old(self)@.nodes[p as int].children.push(c),
                ),
            ).update(c as int, with_parent(old(self)@.nodes[c as int], Some(p))),
            final(self)@.body == old(self)@.body,
            final(self)@.selection == old(self)@.selection,
    {
        let ghost oldm = old(self)@;
        proof {
            assert(vstd::std_specs::vec::spec_vec_len(&old(self).nodes) == old(self).nodes@.len());
            assert(oldm.nodes.len() <= usize::MAX);
        }
        let node_p = vstd::std_specs::vec::vec_index_mut(&mut self.nodes, p);
        node_p.children.push(c);
        let node_c = vstd::std_specs::vec::vec_index_mut(&mut self.nodes, c);
        node_c.parent = Some(p);
        proof {
            let d2 = final(self)@;
            assert(d2.nodes =~= oldm.nodes.update(
                p as int,
                with_children(oldm.nodes[p as int], oldm.nodes[p as int].children.push(c)),
            ).update(c as int, with_parent(oldm.nodes[c as int], Some(p))));
            assert(oldm.nodes[p as int].children.push(c) =~= oldm.nodes[p as int].children.insert(
                oldm.nodes[p as int].children.len() as int,
                c,
            ));
            lemma_wf_attach(oldm, d2, p, oldm.nodes[p as int].children.len() as int, c);
            let hs2 = final(self).nodes@;
            assert forall|n: int|
                0 <= n < hs2.len() implies (#[trigger] hs2[n]).attrs == old(self).nodes@[n].attrs
            by {}
            lemma_attr_lists_wf_kept(old(self).nodes@, hs2);
        }
    }

    /// Attach a detached node as child `at` of an element, shifting the
    /// children previously at `at` and after one place towards the end.
    pub fn insert_child(&mut self, p: usize, at: usize, c: usize)
        requires
            old(self).wf(),
            old(self).valid(p),
            old(self).valid(c),
            c != p,
            old(self)@.nodes[p as int].kind is Element,
            old(self)@.nodes[c as int].parent is None,
            at <= old(self)@.nodes[p as int].children.len(),
        ensures
            final(self).wf(),
            final(self)@.nodes == old(self)@.nodes.update(
                p as int,
                with_children(
                    old(self)@.nodes[p as int],
                    old(self)@.nodes[p as int].children.insert(at as int, c),
                ),
            ).update(c as int, with_parent(old(self)@.nodes[c as int], Some(p))),
            final(self)@.body == old(self)@.body,
            final(self)@.selection == old(self)@.selection,
    {
        let ghost oldm = old(self)@;
        proof {
            assert(vstd::std_specs::vec::spec_vec_len(&old(self).nodes) == old(self).nodes@.len());
            assert(oldm.nodes.len() <= usize::MAX);
        }
        let node_p = vstd::std_specs::vec::vec_index_mut(&mut self.nodes, p);
        node_p.children.insert(at, c);
        let node_c = vstd::std_specs::vec::vec_index_mut(&mut self.nodes, c);
        node_c.parent = Some(p);
        proof {
            let d2 = final(self)@;
            assert(d2.nodes =~= oldm.nodes.update(
                p as int,
                with_children(
                    oldm.nodes[p as int],
                    oldm.nodes[p as int].children.insert(at as int, c),
                ),
            ).update(c as int, with_parent(oldm.nodes[c as int], Some(p))));
            lemma_wf_attach(oldm, d2, p, at as int, c);
            let hs2 = final(self).nodes@;
            assert forall|n: int|
                0 <= n < hs2.len() implies (#[trigger] hs2[n]).attrs == old(self).nodes@[n].attrs
            by {}
            lemma_attr_lists_wf_kept(old(self).nodes@, hs2);
        }
    }

    /// Detach a node from its parent, if it has one. Detaching an already
    /// detached node is no error and changes nothing.
    #[verifier::rlimit(100)]
    pub fn remove_from_parent(&mut self, c: usize)
        requires
            old(self).wf(),
            old(self).valid(c),
        ensures
            final(self).wf(),
            final(self)@.body == old(self)@.body,
            final(self)@.selection == old(self)@.selection,
            old(self)@.nodes[c as int].parent is None ==> final(self)@.nodes == old(self)@.nodes,
            match old(self)@.nodes[c as int].parent {
                Some(p) => {
                    let k = old(self)@.nodes[p as int].children.index_of(c);
                    &&& 0 <= k < old(self)@.nodes[p as int].children.len()
                    &&& old(self)@.nodes[p as int].children[k] == c
                    &&& final(self)@.nodes == old(self)@.nodes.update(
                        p as int,
                        with_children(
                            old(self)@.nodes[p as int],
                            old(self)@.nodes[p as int].children.remove(k),
                        ),
                    ).update(c as int, with_parent(old(self)@.nodes[c as int], None))
                },
                None => true,
            },
    {
        let ghost oldm = old(self)@;
        proof {
            assert(vstd::std_specs::vec::spec_vec_len(&old(self).nodes) == old(self).nodes@.len());
            assert(oldm.nodes.len() <= usize::MAX);
        }
        let par = self.nodes[c].parent;
        match par {
            None => {},
            Some(p) => {
                let ghost kids = oldm.nodes[p as int].children;
                proof {
                    reveal(parents_linked);
                    assert(kids.contains(c));
                }
                let count = self.nodes[p].children.len();
                let mut k: usize = 0;
                while self.nodes[p].children[k] != c
                    invariant
                        self == old(self),
                        p < self@.nodes.len(),
                        kids == self@.nodes[p as int].children,
                        kids.contains(c),
                        count == kids.len(),
                        k < count,
                        forall|j: int| 0 <= j < k ==> kids[j] != c,
                    decreases count - k,
                {
                    k = k + 1;
                    proof {
                        if k == count {
                            let j = choose|j: int| 0 <= j < count && #[trigger] kids[j] == c;
                            assert(kids[j] != c);
                        }
                    }
                }
                proof {
                    assert(kids[k as int] == c);
                    assert(k as int == kids.index_of(c)) by {
                        reveal(children_distinct);
                        let k2 = kids.index_of(c);
                        assert(exists|j: int| 0 <= j < kids.len() && kids[j] == c);
                        assert(0 <= k2 < kids.len() && kids[k2] == c);
                        if k2 != k {
                            assert(oldm.nodes[p as int].children[k2] == oldm.nodes[p as int].children[k as int]);
                        }
                    }
                }
                let node_p = vstd::std_specs::vec::vec_index_mut(&mut self.nodes, p);
                node_p.children.remove(k);
                let node_c = vstd::std_specs::vec::vec_index_mut(&mut self.nodes, c);
                node_c.parent = None;
                proof {
                    let d2 = final(self)@;
                    assert(d2.nodes =~= oldm.nodes.update(
                        p as int,
                        with_children(
                            oldm.nodes[p as int],
                            oldm.nodes[p as int].children.remove(k as int),
                        ),
                    ).update(c as int, with_parent(oldm.nodes[c as int], None)));
                    lemma_wf_detach(oldm, d2, p, k as int, c);
                    let hs2 = final(self).nodes@;
                    assert forall|n: int|
                        0 <= n < hs2.len() implies (#[trigger] hs2[n]).attrs == old(self).nodes@[n].attrs
                    by {}
                    lemma_attr_lists_wf_kept(old(self).nodes@, hs2);
                }
            },
        }
    }

    /// Replace the whole child list of an element in one step: the old
    /// children end up detached, the given nodes become the children, in
    /// order.
    #[verifier::rlimit(100)]
    pub fn replace_children(&mut self, p: usize, ids: &Vec<usize>)
        requires
            old(self).wf(),
            old(self).valid(p),
            old(self)@.nodes[p as int].kind is Element,
            forall|k: int|
                0 <= k < ids@.len() ==> (#[trigger] ids@[k]) < old(self)@.nodes.len() && ids@[k]
                    != p && old(self)@.nodes[ids@[k] as int].parent is None,
            forall|k: int, l: int| 0 <= k < l < ids@.len() ==> ids@[k] != ids@[l],
        ensures
            final(self).wf(),
            final(self)@.body == old(self)@.body,
            final(self)@.selection == old(self)@.selection,
            final(self)@.nodes.len() == old(self)@.nodes.len(),
            forall|x: int|
                0 <= x < old(self)@.nodes.len() ==> #[trigger] final(self)@.nodes[x] == (if x
                    == p {
                    with_children(old(self)@.nodes[x], ids@)
                } else if ids@.contains(x as usize) {
                    with_parent(old(self)@.nodes[x], Some(p))
                } else if old(self)@.nodes[p as int].children.contains(x as usize) {
                    with_parent(old(self)@.nodes[x], None)
                } else {
                    old(self)@.nodes[x]
                }),
    {
        let ghost oldm = old(self)@;
        proof {
            assert(vstd::std_specs::vec::spec_vec_len(&old(self).nodes) == old(self).nodes@.len());
            assert(oldm.nodes.len() <= usize::MAX);
        }
        let ghost kids = oldm.nodes[p as int].children;
        proof {
            reveal(children_linked);
            assert(forall|i: int|
                0 <= i < kids.len() ==> (#[trigger] kids[i]) < oldm.nodes.len() && kids[i] != p);
        }
        let count = self.nodes[p].children.len();
        let mut k: usize = 0;
        while k < count
            invariant
                k <= count,
                oldm.nodes.len() <= usize::MAX,
                p < self@.nodes.len(),
                self@.nodes.len() == oldm.nodes.len(),
                oldm == old(self)@,
                kids == oldm.nodes[p as int].children,
                count == kids.len(),
                forall|i: int|
                    0 <= i < kids.len() ==> (#[trigger] kids[i]) < oldm.nodes.len() && kids[i]
                        != p,
                forall|x: int|
                    0 <= x < oldm.nodes.len() ==> #[trigger] self@.nodes[x] == (if kids.take(
                        k as int,
                    ).contains(x as usize) {
                        with_parent(oldm.nodes[x], None)
                    } else {
                        oldm.nodes[x]
                    }),
                forall|x: int|
                    0 <= x < oldm.nodes.len() ==> (#[trigger] self.nodes@[x]).attrs == old(
                        self,
                    ).nodes@[x].attrs,
                self@.body == oldm.body,
                self@.selection == oldm.selection,
            decreases count - k,
        {
            let ghost prev = self@.nodes;
            proof {
                lemma_take_not_contains(kids, k as int, p);
                assert(self@.nodes[p as int] == oldm.nodes[p as int]);
            }
            let ch = self.nodes[p].children[k];
            proof {
                assert(ch == kids[k as int]);
            }
            let node_ch = vstd::std_specs::vec::vec_index_mut(&mut self.nodes, ch);
            node_ch.parent = None;
            k = k + 1;
            proof {
                assert(self@.nodes =~= prev.update(
                    ch as int,
                    with_parent(prev[ch as int], None),
                ));
                lemma_detach_step(oldm.nodes, prev, self@.nodes, kids, k as int, ch);
            }
        }
        proof {
            assert(kids.take(count as int) =~= kids);
            // old children and new children are disjoint: the former are
            // attached to `p`, the latter detached
            assert forall|i: int| 0 <= i < ids@.len() implies !kids.contains(#[trigger] ids@[i]) by {
                if kids.contains(ids@[i]) {
                    let w = choose|w: int| 0 <= w < kids.len() && #[trigger] kids[w] == ids@[i];
                    assert(oldm.nodes[p as int].children[w] == ids@[i]);
                    reveal(children_linked);
                }
            }
        }
        let m = ids.len();
        let mut j: usize = 0;
        while j < m
            invariant
                j <= m,
                oldm.nodes.len() <= usize::MAX,
                p < self@.nodes.len(),
                self@.nodes.len() == oldm.nodes.len(),
                oldm == old(self)@,
                kids == oldm.nodes[p as int].children,
                m == ids@.len(),
                forall|i: int|
                    0 <= i < m ==> (#[trigger] ids@[i]) < oldm.nodes.len() && ids@[i] != p
                        && oldm.nodes[ids@[i] as int].parent is None,
                forall|i: int| 0 <= i < m ==> !kids.contains(#[trigger] ids@[i]),
                forall|x: int|
                    0 <= x < oldm.nodes.len() ==> #[trigger] self@.nodes[x] == (if ids@.take(
                        j as int,
                    ).contains(x as usize) {
                        with_parent(oldm.nodes[x], Some(p))
                    } else if kids.contains(x as usize) {
                        with_parent(oldm.nodes[x], None)
                    } else {
                        oldm.nodes[x]
                    }),
                forall|x: int|
                    0 <= x < oldm.nodes.len() ==> (#[trigger] self.nodes@[x]).attrs == old(
                        self,
                    ).nodes@[x].attrs,
                self@.body == oldm.body,
                self@.selection == oldm.selection,
            decreases m - j,
        {
            let ghost prev = self@.nodes;
            let target = ids[j];
            let node_t = vstd::std_specs::vec::vec_index_mut(&mut self.nodes, target);
            node_t.parent = Some(p);
            j = j + 1;
            proof {
                assert(ids@[j - 1] == target);
                assert(self@.nodes =~= prev.update(
                    target as int,
                    with_parent(prev[target as int], Some(p)),
                ));
                lemma_attach_step(oldm.nodes, prev, self@.nodes, kids, ids@, j as int, target, p);
            }
        }
        proof {
            assert(ids@.take(m as int) =~= ids@);
        }
        let mut fresh_children: Vec<usize> = Vec::new();
        let mut q: usize = 0;
        while q < m
            invariant
                q <= m,
                m == ids@.len(),
                fresh_children@ == ids@.take(q as int),
            decreases m - q,
        {
            fresh_children.push(ids[q]);
            proof {
                assert(fresh_children@ =~= ids@.take(q + 1));
            }
            q = q + 1;
        }
        proof {
            assert(fresh_children@ =~= ids@);
        }
        let ghost mid = self@;
        let node_p = vstd::std_specs::vec::vec_index_mut(&mut self.nodes, p);
        node_p.children = fresh_children;
        proof {
            assert(self@.nodes =~= mid.nodes.update(
                p as int,
                with_children(mid.nodes[p as int], ids@),
            ));
            assert(mid.nodes[p as int] == oldm.nodes[p as int]) by {
                assert(!ids@.contains(p)) by {
                    if ids@.contains(p) {
                        let w = choose|w: int| 0 <= w < ids@.len() && #[trigger] ids@[w] == p;
                    }
                }
                assert(!kids.contains(p)) by {
                    if kids.contains(p) {
                        let w = choose|w: int| 0 <= w < kids.len() && #[trigger] kids[w] == p;
                        assert(oldm.nodes[p as int].children[w] == p);
                        reveal(children_linked);
                    }
                }
            }
            assert forall|x: int|
                0 <= x < oldm.nodes.len() implies #[trigger] final(self)@.nodes[x] == (if x
                == p {
                with_children(oldm.nodes[x], ids@)
            } else if ids@.contains(x as usize) {
                with_parent(oldm.nodes[x], Some(p))
            } else if oldm.nodes[p as int].children.contains(x as usize) {
                with_parent(oldm.nodes[x], None)
            } else {
                oldm.nodes[x]
            }) by {
                if x != p {
                    assert(final(self)@.nodes[x] == mid.nodes[x]);
                }
            }
            lemma_wf_replace(oldm, final(self)@, p, ids@);
            let hs2 = final(self).nodes@;
            assert forall|n: int|
                0 <= n < hs2.len() implies (#[trigger] hs2[n]).attrs == old(self).nodes@[n].attrs
            by {}
            lemma_attr_lists_wf_kept(old(self).nodes@, hs2);
        }
    }

    /// Install a detached element as the document body.
    pub fn set_body(&mut self, b: usize)
        requires
            old(self).wf(),
            old(self).valid(b),
            old(self)@.nodes[b as int].kind is Element,
            old(self)@.nodes[b as int].parent is None,
        ensures
            final(self).wf(),
            final(self)@.nodes == old(self)@.nodes,
            final(self)@.body == Some(b),
            final(self)@.selection == old(self)@.selection,
    {
        self.body = Some(b);
    }

    /// Move the host selection; the host does this on its own between calls.
    pub fn set_selection(&mut self, sel: Option<HostSelection>)
        requires
            old(self).wf(),
            match sel {
                Some(s) => old(self).valid(s.anchor_node) && old(self).valid(s.focus_node),
                None => true,
            },
        ensures
            final(self).wf(),
            final(self)@.nodes == old(self)@.nodes,
            final(self)@.body == old(self)@.body,
            final(self)@.selection == sel,
    {
        self.selection = sel;
    }
}

/// The push and the nonstructural update both leave old nodes' shape alone;
/// this common hypothesis is what the per-predicate lemmas consume.
spec fn shape_kept(ns1: Seq<NodeModel>, ns2: Seq<NodeModel>) -> bool {
    &&& ns1.len() <= ns2.len()
    &&& forall|n: int|
        0 <= n < ns1.len() ==> (#[trigger] ns2[n]).kind == ns1[n].kind && ns2[n].children
            == ns1[n].children && ns2[n].parent == ns1[n].parent
}

/// Any appended nodes are detached and childless.
spec fn appended_detached(ns1: Seq<NodeModel>, ns2: Seq<NodeModel>) -> bool {
    forall|n: int|
        ns1.len() <= n < ns2.len() ==> (#[trigger] ns2[n]).children.len() == 0 && ns2[n].parent
            is None
}

proof fn lemma_children_linked_kept(ns1: Seq<NodeModel>, ns2: Seq<NodeModel>)
    requires
        children_linked(ns1),
        shape_kept(ns1, ns2),
        appended_detached(ns1, ns2),
    ensures
        children_linked(ns2),
{
    reveal(children_linked);
    assert forall|p: int, i: int|
        0 <= p < ns2.len() && 0 <= i < ns2[p].children.len() implies {
        let c = #[trigger] ns2[p].children[i];
        &&& c < ns2.len()
        &&& c != p
        &&& ns2[c as int].parent == Some(p as usize)
    } by {
        if p < ns1.len() {
            assert(ns2[p].children == ns1[p].children);
            let c = ns1[p].children[i];
            assert(c < ns1.len());
            assert(ns2[c as int].parent == ns1[c as int].parent);
        }
    }
}

proof fn lemma_children_distinct_kept(ns1: Seq<NodeModel>, ns2: Seq<NodeModel>)
    requires
        children_distinct(ns1),
        shape_kept(ns1, ns2),
        appended_detached(ns1, ns2),
    ensures
        children_distinct(ns2),
{
    reveal(children_distinct);
    assert forall|p: int, i: int, j: int|
        #![trigger ns2[p].children[i], ns2[p].children[j]]
        0 <= p < ns2.len() && 0 <= i < j < ns2[p].children.len() implies ns2[p].children[i]
        != ns2[p].children[j] by {
        if p < ns1.len() {
            assert(ns2[p].children == ns1[p].children);
        }
    }
}

proof fn lemma_parents_linked_kept(ns1: Seq<NodeModel>, ns2: Seq<NodeModel>)
    requires
        parents_linked(ns1),
        shape_kept(ns1, ns2),
        appended_detached(ns1, ns2),
    ensures
        parents_linked(ns2),
{
    reveal(parents_linked);
    assert forall|c: int| 0 <= c < ns2.len() implies match (#[trigger] ns2[c]).parent {
        Some(p) => p < ns2.len() && p != c && ns2[p as int].children.contains(c as usize),
        None => true,
    } by {
        if c < ns1.len() {
            assert(ns2[c].parent == ns1[c].parent);
            match ns1[c].parent {
                Some(p) => {
                    assert(ns1[p as int].children.contains(c as usize));
                    assert(ns2[p as int].children == ns1[p as int].children);
                },
                None => {},
            }
        }
    }
}

proof fn lemma_text_nodes_leaf_kept(ns1: Seq<NodeModel>, ns2: Seq<NodeModel>)
    requires
        text_nodes_leaf(ns1),
        shape_kept(ns1, ns2),
        appended_detached(ns1, ns2),
    ensures
        text_nodes_leaf(ns2),
{
    reveal(text_nodes_leaf);
    assert forall|n: int|
        0 <= n < ns2.len() && (#[trigger] ns2[n]).kind is Text implies ns2[n].children.len()
        == 0 by {
        if n < ns1.len() {
            assert(ns2[n].kind == ns1[n].kind);
            assert(ns2[n].children == ns1[n].children);
        }
    }
}

/// A change that keeps every old node's kind, children and parent, and adds
/// only detached childless nodes, keeps the tree invariant.
proof fn lemma_wf_shape_kept(d1: DocModel, d2: DocModel)
    requires
        d1.wf(),
        shape_kept(d1.nodes, d2.nodes),
        appended_detached(d1.nodes, d2.nodes),
        d2.body == d1.body,
        d2.selection == d1.selection,
    ensures
        d2.wf(),
{
    lemma_children_linked_kept(d1.nodes, d2.nodes);
    lemma_children_distinct_kept(d1.nodes, d2.nodes);
    lemma_parents_linked_kept(d1.nodes, d2.nodes);
    lemma_text_nodes_leaf_kept(d1.nodes, d2.nodes);
}

/// Appending a fresh detached leaf keeps the tree invariant.
proof fn lemma_wf_after_push(d1: DocModel, d2: DocModel, added: NodeModel)
    requires
        d1.wf(),
        added.children.len() == 0,
        added.parent is None,
        d2.nodes == d1.nodes.push(added),
        d2.body == d1.body,
        d2.selection == d1.selection,
    ensures
        d2.wf(),
{
    assert forall|n: int| 0 <= n < d1.nodes.len() implies (#[trigger] d2.nodes[n]).kind
        == d1.nodes[n].kind && d2.nodes[n].children == d1.nodes[n].children && d2.nodes[n].parent
        == d1.nodes[n].parent by {
        assert(d2.nodes[n] == d1.nodes[n]);
    }
    lemma_wf_shape_kept(d1, d2);
}

/// Attach helper facts: the arena change when node `c` becomes child `at`
/// of element `p`.
spec fn attach_shape(d1: DocModel, d2: DocModel, p: usize, at: int, c: usize) -> bool {
    &&& d1.nodes.len() <= usize::MAX
    &&& p < d1.nodes.len()
    &&& c < d1.nodes.len()
    &&& c != p
    &&& d1.nodes[p as int].kind is Element
    &&& d1.nodes[c as int].parent is None
    &&& 0 <= at <= d1.nodes[p as int].children.len()
    &&& d2.nodes == d1.nodes.update(
        p as int,
        with_children(d1.nodes[p as int], d1.nodes[p as int].children.insert(at, c)),
    ).update(c as int, with_parent(d1.nodes[c as int], Some(p)))
}

#[verifier::rlimit(100)]
proof fn lemma_attach_children_linked(d1: DocModel, d2: DocModel, p: usize, at: int, c: usize)
    requires
        children_linked(d1.nodes),
        attach_shape(d1, d2, p, at, c),
    ensures
        children_linked(d2.nodes),
{
    let ns1 = d1.nodes;
    let ns2 = d2.nodes;
    let newkids = ns1[p as int].children.insert(at, c);
    ns1[p as int].children.insert_ensures(at, c);
    assert forall|q: int, i: int|
        0 <= q < ns1.len() && 0 <= i < ns1[q].children.len() implies (#[trigger] ns1[q].children[i])
        != c by {
        reveal(children_linked);
    }
    reveal(children_linked);
    assert forall|q: int, i: int|
        0 <= q < ns2.len() && 0 <= i < ns2[q].children.len() implies {
        let x = #[trigger] ns2[q].children[i];
        &&& x < ns2.len()
        &&& x != q
        &&& ns2[x as int].parent == Some(q as usize)
    } by {
        if q == p {
            assert(ns2[q].children == newkids);
            let x = newkids[i];
            if i == at {
                assert(x == c);
            } else {
                let i0 = if i < at {
                    i
                } else {
                    i - 1
                };
                assert(x == ns1[p as int].children[i0]);
                assert(x != c);
                assert(ns1[x as int].parent == Some(p as usize));
            }
        } else {
            assert(ns2[q].children == ns1[q].children);
            let x = ns1[q].children[i];
            assert(x != c);
            assert(ns2[x as int].parent == ns1[x as int].parent);
        }
    }
}

#[verifier::rlimit(100)]
proof fn lemma_attach_children_distinct(d1: DocModel, d2: DocModel, p: usize, at: int, c: usize)
    requires
        children_linked(d1.nodes),
        children_distinct(d1.nodes),
        attach_shape(d1, d2, p, at, c),
    ensures
        children_distinct(d2.nodes),
{
    let ns1 = d1.nodes;
    let ns2 = d2.nodes;
    let newkids = ns1[p as int].children.insert(at, c);
    ns1[p as int].children.insert_ensures(at, c);
    assert forall|i: int|
        0 <= i < ns1[p as int].children.len() implies (#[trigger] ns1[p as int].children[i])
        != c by {
        reveal(children_linked);
    }
    reveal(children_distinct);
    assert forall|q: int, i: int, j: int|
        #![trigger ns2[q].children[i], ns2[q].children[j]]
        0 <= q < ns2.len() && 0 <= i < j < ns2[q].children.len() implies ns2[q].children[i]
        != ns2[q].children[j] by {
        if q == p {
            assert(ns2[q].children == newkids);
            if i == at {
                let j0 = j - 1;
                assert(newkids[j] == ns1[p as int].children[j0]);
            } else if j == at {
                assert(newkids[i] == ns1[p as int].children[i]);
            } else {
                let i0 = if i < at {
                    i
                } else {
                    i - 1
                };
                let j0 = if j < at {
                    j
                } else {
                    j - 1
                };
                assert(newkids[i] == ns1[p as int].children[i0]);
                assert(newkids[j] == ns1[p as int].children[j0]);
                assert(i0 < j0);
            }
        } else {
            assert(ns2[q].children == ns1[q].children);
        }
    }
}

#[verifier::rlimit(100)]
#[verifier::spinoff_prover]
proof fn lemma_attach_parents_linked(d1: DocModel, d2: DocModel, p: usize, at: int, c: usize)
    requires
        parents_linked(d1.nodes),
        attach_shape(d1, d2, p, at, c),
    ensures
        parents_linked(d2.nodes),
{
    let ns1 = d1.nodes;
    let ns2 = d2.nodes;
    let newkids = ns1[p as int].children.insert(at, c);
    ns1[p as int].children.insert_ensures(at, c);
    reveal(parents_linked);
    assert forall|x: int| 0 <= x < ns2.len() implies match (#[trigger] ns2[x]).parent {
        Some(q) => q < ns2.len() && q != x && ns2[q as int].children.contains(x as usize),
        None => true,
    } by {
        if x == c {
            assert(ns2[x].parent == Some(p));
            assert(newkids[at] == c);
            assert(ns2[p as int].children.contains(c)) by {
                assert(ns2[p as int].children[at] == c);
            }
        } else {
            assert(ns2[x].parent == ns1[x].parent);
            match ns1[x].parent {
                Some(q) => {
                    assert(ns1[q as int].children.contains(x as usize));
                    let kq = ns1[q as int].children;
                    let i = choose|i: int| 0 <= i < kq.len() && #[trigger] kq[i] == x as usize;
                    if q == p {
                        let i2 = if i < at {
                            i
                        } else {
                            i + 1
                        };
                        assert(newkids[i2] == x as usize);
                        assert(ns2[q as int].children.contains(x as usize));
                    } else {
                        assert(ns2[q as int].children == ns1[q as int].children);
                    }
                },
                None => {},
            }
        }
    }
}

/// Attaching a detached node `c` at position `at` of element `p` keeps the
/// tree invariant.
proof fn lemma_wf_attach(d1: DocModel, d2: DocModel, p: usize, at: int, c: usize)
    requires
        d1.nodes.len() <= usize::MAX,
        d1.wf(),
        p < d1.nodes.len(),
        c < d1.nodes.len(),
        c != p,
        d1.nodes[p as int].kind is Element,
        d1.nodes[c as int].parent is None,
        0 <= at <= d1.nodes[p as int].children.len(),
        d2.nodes == d1.nodes.update(
            p as int,
            with_children(d1.nodes[p as int], d1.nodes[p as int].children.insert(at, c)),
        ).update(c as int, with_parent(d1.nodes[c as int], Some(p))),
        d2.body == d1.body,
        d2.selection == d1.selection,
    ensures
        d2.wf(),
{
    let ns1 = d1.nodes;
    let ns2 = d2.nodes;
    lemma_attach_children_linked(d1, d2, p, at, c);
    lemma_attach_children_distinct(d1, d2, p, at, c);
    lemma_attach_parents_linked(d1, d2, p, at, c);
    assert(text_nodes_leaf(ns2)) by {
        reveal(text_nodes_leaf);
        assert forall|n: int|
            0 <= n < ns2.len() && (#[trigger] ns2[n]).kind is Text implies ns2[n].children.len()
            == 0 by {
            if n != p {
                assert(ns2[n].children == ns1[n].children);
                assert(ns2[n].kind == ns1[n].kind);
            }
        }
    }
}


/// The arena is a vector, so its length fits in `usize`.
pub proof fn lemma_arena_bound(doc: &HostDoc)
    ensures
        doc@.nodes.len() <= usize::MAX,
{
    assert(vstd::std_specs::vec::spec_vec_len(&doc.nodes) == doc.nodes@.len());
}

/// A well-formed arena's parent links stay inside the arena and are never
/// self-referential.
pub proof fn lemma_parent_facts(d: DocModel, c: usize)
    requires
        d.wf(),
        c < d.nodes.len(),
    ensures
        match d.nodes[c as int].parent {
            Some(p) => p < d.nodes.len() && p != c,
            None => true,
        },
{
    reveal(parents_linked);
}

/// A value absent from a sequence is absent from each of its prefixes.
proof fn lemma_take_not_contains(s: Seq<usize>, k: int, v: usize)
    requires
        0 <= k <= s.len(),
        forall|i: int| 0 <= i < s.len() ==> (#[trigger] s[i]) != v,
    ensures
        !s.take(k).contains(v),
{
    if s.take(k).contains(v) {
        let tk = s.take(k);
        let i = choose|i: int| 0 <= i < tk.len() && #[trigger] tk[i] == v;
        assert(s[i] == v);
    }
}

/// One step of detaching the old children: clearing the parent of child
/// `k - 1` extends the detached prefix by one.
#[verifier::rlimit(100)]
proof fn lemma_detach_step(
    ns0: Seq<NodeModel>,
    prev: Seq<NodeModel>,
    cur: Seq<NodeModel>,
    kids: Seq<usize>,
    k: int,
    ch: usize,
)
    requires
        ns0.len() <= usize::MAX,
        0 < k <= kids.len(),
        kids[k - 1] == ch,
        ch < ns0.len(),
        prev.len() == ns0.len(),
        forall|x: int|
            0 <= x < ns0.len() ==> #[trigger] prev[x] == (if kids.take(k - 1).contains(
                x as usize,
            ) {
                with_parent(ns0[x], None)
            } else {
                ns0[x]
            }),
        cur == prev.update(ch as int, with_parent(prev[ch as int], None)),
    ensures
        forall|x: int|
            0 <= x < ns0.len() ==> #[trigger] cur[x] == (if kids.take(k).contains(x as usize) {
                with_parent(ns0[x], None)
            } else {
                ns0[x]
            }),
{
    let tk = kids.take(k);
    let tk1 = kids.take(k - 1);
    assert(tk =~= tk1.push(ch));
    assert forall|x: int|
        0 <= x < ns0.len() implies #[trigger] cur[x] == (if tk.contains(x as usize) {
        with_parent(ns0[x], None)
    } else {
        ns0[x]
    }) by {
        if x == ch {
            assert(tk[k - 1] == ch);
            assert(tk.contains(ch));
            assert(cur[x] == with_parent(prev[ch as int], None));
            assert(with_parent(prev[ch as int], None) == with_parent(ns0[x], None));
        } else {
            assert(cur[x] == prev[x]);
            assert(tk.contains(x as usize) <==> tk1.contains(x as usize)) by {
                if tk.contains(x as usize) {
                    let i = choose|i: int| 0 <= i < tk.len() && #[trigger] tk[i] == x as usize;
                    if i < k - 1 {
                        assert(tk1[i] == x as usize);
                    }
                } else if tk1.contains(x as usize) {
                    let i = choose|i: int| 0 <= i < tk1.len() && #[trigger] tk1[i] == x as usize;
                    assert(tk[i] == x as usize);
                }
            }
        }
    }
}

/// One step of attaching the new children: setting the parent of id `j - 1`
/// extends the attached prefix by one.
#[verifier::rlimit(100)]
proof fn lemma_attach_step(
    ns0: Seq<NodeModel>,
    prev: Seq<NodeModel>,
    cur: Seq<NodeModel>,
    kids: Seq<usize>,
    ids: Seq<usize>,
    j: int,
    t: usize,
    p: usize,
)
    requires
        ns0.len() <= usize::MAX,
        0 < j <= ids.len(),
        ids[j - 1] == t,
        t < ns0.len(),
        prev.len() == ns0.len(),
        forall|x: int|
            0 <= x < ns0.len() ==> #[trigger] prev[x] == (if ids.take(j - 1).contains(
                x as usize,
            ) {
                with_parent(ns0[x], Some(p))
            } else if kids.contains(x as usize) {
                with_parent(ns0[x], None)
            } else {
                ns0[x]
            }),
        cur == prev.update(t as int, with_parent(prev[t as int], Some(p))),
    ensures
        forall|x: int|
            0 <= x < ns0.len() ==> #[trigger] cur[x] == (if ids.take(j).contains(x as usize) {
                with_parent(ns0[x], Some(p))
            } else if kids.contains(x as usize) {
                with_parent(ns0[x], None)
            } else {
                ns0[x]
            }),
{
    let tj = ids.take(j);
    let tj1 = ids.take(j - 1);
    assert(tj =~= tj1.push(t));
    assert forall|x: int|
        0 <= x < ns0.len() implies #[trigger] cur[x] == (if tj.contains(x as usize) {
        with_parent(ns0[x], Some(p))
    } else if kids.contains(x as usize) {
        with_parent(ns0[x], None)
    } else {
        ns0[x]
    }) by {
        if x == t {
            assert(tj[j - 1] == t);
            assert(tj.contains(t));
            assert(cur[x] == with_parent(prev[t as int], Some(p)));
            // whichever branch `prev[t]` came from, it differs from `ns0[t]`
            // at most in the parent link
            assert(with_parent(prev[t as int], Some(p)) == with_parent(ns0[x], Some(p)));
        } else {
            assert(cur[x] == prev[x]);
            assert(tj.contains(x as usize) <==> tj1.contains(x as usize)) by {
                if tj.contains(x as usize) {
                    let i = choose|i: int| 0 <= i < tj.len() && #[trigger] tj[i] == x as usize;
                    if i < j - 1 {
                        assert(tj1[i] == x as usize);
                    }
                } else if tj1.contains(x as usize) {
                    let i = choose|i: int| 0 <= i < tj1.len() && #[trigger] tj1[i] == x as usize;
                    assert(tj[i] == x as usize);
                }
            }
        }
    }
}

/// Detach helper facts: `c` sits only at index `at` of `p`'s list and in no
/// other list.
spec fn detach_shape(d1: DocModel, d2: DocModel, p: usize, at: int, c: usize) -> bool {
    &&& d1.nodes.len() <= usize::MAX
    &&& p < d1.nodes.len()
    &&& c < d1.nodes.len()
    &&& d1.nodes[c as int].parent == Some(p)
    &&& 0 <= at < d1.nodes[p as int].children.len()
    &&& d1.nodes[p as int].children[at] == c
    &&& d2.nodes == d1.nodes.update(
        p as int,
        with_children(d1.nodes[p as int], d1.nodes[p as int].children.remove(at)),
    ).update(c as int, with_parent(d1.nodes[c as int], None))
    &&& c != p
}

#[verifier::rlimit(100)]
proof fn lemma_detach_children_linked(d1: DocModel, d2: DocModel, p: usize, at: int, c: usize)
    requires
        children_linked(d1.nodes),
        children_distinct(d1.nodes),
        detach_shape(d1, d2, p, at, c),
    ensures
        children_linked(d2.nodes),
{
    let ns1 = d1.nodes;
    let ns2 = d2.nodes;
    let newkids = ns1[p as int].children.remove(at);
    ns1[p as int].children.remove_ensures(at);
    assert forall|i: int|
        0 <= i < ns1[p as int].children.len() && i != at implies (
        #[trigger] ns1[p as int].children[i]) != c by {
        reveal(children_distinct);
    }
    assert forall|q: int, i: int|
        0 <= q < ns1.len() && q != p && 0 <= i < ns1[q].children.len() implies (
        #[trigger] ns1[q].children[i]) != c by {
        reveal(children_linked);
    }
    reveal(children_linked);
    assert forall|q: int, i: int|
        0 <= q < ns2.len() && 0 <= i < ns2[q].children.len() implies {
        let x = #[trigger] ns2[q].children[i];
        &&& x < ns2.len()
        &&& x != q
        &&& ns2[x as int].parent == Some(q as usize)
    } by {
        if q == p {
            assert(ns2[q].children == newkids);
            let i0 = if i < at {
                i
            } else {
                i + 1
            };
            let x = ns1[p as int].children[i0];
            assert(newkids[i] == x);
            assert(x != c);
            assert(ns2[x as int].parent == ns1[x as int].parent);
        } else {
            assert(ns2[q].children == ns1[q].children);
            let x = ns1[q].children[i];
            assert(x != c);
            assert(ns2[x as int].parent == ns1[x as int].parent);
        }
    }
}

#[verifier::rlimit(100)]
proof fn lemma_detach_children_distinct(d1: DocModel, d2: DocModel, p: usize, at: int, c: usize)
    requires
        children_distinct(d1.nodes),
        detach_shape(d1, d2, p, at, c),
    ensures
        children_distinct(d2.nodes),
{
    let ns1 = d1.nodes;
    let ns2 = d2.nodes;
    let newkids = ns1[p as int].children.remove(at);
    ns1[p as int].children.remove_ensures(at);
    reveal(children_distinct);
    assert forall|q: int, i: int, j: int|
        #![trigger ns2[q].children[i], ns2[q].children[j]]
        0 <= q < ns2.len() && 0 <= i < j < ns2[q].children.len() implies ns2[q].children[i]
        != ns2[q].children[j] by {
        if q == p {
            assert(ns2[q].children == newkids);
            let i0 = if i < at {
                i
            } else {
                i + 1
            };
            let j0 = if j < at {
                j
            } else {
                j + 1
            };
            assert(newkids[i] == ns1[p as int].children[i0]);
            assert(newkids[j] == ns1[p as int].children[j0]);
            assert(i0 < j0);
        } else {
            assert(ns2[q].children == ns1[q].children);
        }
    }
}

#[verifier::rlimit(100)]
proof fn lemma_detach_parents_linked(d1: DocModel, d2: DocModel, p: usize, at: int, c: usize)
    requires
        parents_linked(d1.nodes),
        children_distinct(d1.nodes),
        detach_shape(d1, d2, p, at, c),
    ensures
        parents_linked(d2.nodes),
{
    let ns1 = d1.nodes;
    let ns2 = d2.nodes;
    let newkids = ns1[p as int].children.remove(at);
    ns1[p as int].children.remove_ensures(at);
    assert forall|i: int|
        0 <= i < ns1[p as int].children.len() && i != at implies (
        #[trigger] ns1[p as int].children[i]) != c by {
        reveal(children_distinct);
    }
    reveal(parents_linked);
    assert forall|x: int| 0 <= x < ns2.len() implies match (#[trigger] ns2[x]).parent {
        Some(q) => q < ns2.len() && q != x && ns2[q as int].children.contains(x as usize),
        None => true,
    } by {
        if x == c {
            assert(ns2[x].parent is None);
        } else {
            assert(ns2[x].parent == ns1[x].parent);
            match ns1[x].parent {
                Some(q) => {
                    assert(ns1[q as int].children.contains(x as usize));
                    let kq = ns1[q as int].children;
                    let i = choose|i: int| 0 <= i < kq.len() && #[trigger] kq[i] == x as usize;
                    if q == p {
                        assert(i != at);
                        let i2 = if i < at {
                            i
                        } else {
                            i - 1
                        };
                        assert(newkids[i2] == x as usize);
                        assert(ns2[q as int].children.contains(x as usize));
                    } else {
                        assert(ns2[q as int].children == ns1[q as int].children);
                    }
                },
                None => {},
            }
        }
    }
}

/// Detaching child `at` (which is `c`) from its parent `p` keeps the tree
/// invariant.
proof fn lemma_wf_detach(d1: DocModel, d2: DocModel, p: usize, at: int, c: usize)
    requires
        d1.nodes.len() <= usize::MAX,
        d1.wf(),
        p < d1.nodes.len(),
        c < d1.nodes.len(),
        d1.nodes[c as int].parent == Some(p),
        0 <= at < d1.nodes[p as int].children.len(),
        d1.nodes[p as int].children[at] == c,
        d2.nodes == d1.nodes.update(
            p as int,
            with_children(d1.nodes[p as int], d1.nodes[p as int].children.remove(at)),
        ).update(c as int, with_parent(d1.nodes[c as int], None)),
        d2.body == d1.body,
        d2.selection == d1.selection,
    ensures
        d2.wf(),
{
    assert(c != p) by {
        reveal(children_linked);
    }
    lemma_detach_children_linked(d1, d2, p, at, c);
    lemma_detach_children_distinct(d1, d2, p, at, c);
    lemma_detach_parents_linked(d1, d2, p, at, c);
    assert(text_nodes_leaf(d2.nodes)) by {
        reveal(text_nodes_leaf);
        assert forall|n: int|
            0 <= n < d2.nodes.len() && (#[trigger] d2.nodes[n]).kind is Text implies d2.nodes[n].children.len()
            == 0 by {
            if n != p {
                assert(d2.nodes[n].children == d1.nodes[n].children);
                assert(d2.nodes[n].kind == d1.nodes[n].kind);
            } else {
                assert(d1.nodes[n].kind == d2.nodes[n].kind);
                assert(d1.nodes[n].children.len() > 0);
            }
        }
    }
}

/// Replace helper facts: the pointwise relation between the old and the new
/// arena.
spec fn replace_shape(d1: DocModel, d2: DocModel, p: usize, ids: Seq<usize>) -> bool {
    &&& d1.nodes.len() <= usize::MAX
    &&& p < d1.nodes.len()
    &&& forall|k: int|
        0 <= k < ids.len() ==> (#[trigger] ids[k]) < d1.nodes.len() && ids[k] != p
            && d1.nodes[ids[k] as int].parent is None
    &&& forall|k: int, l: int| 0 <= k < l < ids.len() ==> ids[k] != ids[l]
    &&& d2.nodes.len() == d1.nodes.len()
    &&& forall|x: int|
        0 <= x < d1.nodes.len() ==> #[trigger] d2.nodes[x] == (if x == p {
            with_children(d1.nodes[x], ids)
        } else if ids.contains(x as usize) {
            with_parent(d1.nodes[x], Some(p))
        } else if d1.nodes[p as int].children.contains(x as usize) {
            with_parent(d1.nodes[x], None)
        } else {
            d1.nodes[x]
        })
}

#[verifier::rlimit(100)]
proof fn lemma_replace_children_linked(d1: DocModel, d2: DocModel, p: usize, ids: Seq<usize>)
    requires
        children_linked(d1.nodes),
        replace_shape(d1, d2, p, ids),
    ensures
        children_linked(d2.nodes),
{
    let ns1 = d1.nodes;
    let ns2 = d2.nodes;
    assert forall|q: int, i: int|
        0 <= q < ns1.len() && 0 <= i < ns1[q].children.len() implies !ids.contains(
        #[trigger] ns1[q].children[i]) by {
        reveal(children_linked);
        if ids.contains(ns1[q].children[i]) {
            let k = choose|k: int| 0 <= k < ids.len() && #[trigger] ids[k] == ns1[q].children[i];
        }
    }
    reveal(children_linked);
    assert forall|q: int, i: int|
        0 <= q < ns2.len() && 0 <= i < ns2[q].children.len() implies {
        let x = #[trigger] ns2[q].children[i];
        &&& x < ns2.len()
        &&& x != q
        &&& ns2[x as int].parent == Some(q as usize)
    } by {
        if q == p {
            assert(ns2[q].children == ids);
            let x = ids[i];
            assert(ids.contains(x));
            assert(ns2[x as int] == with_parent(ns1[x as int], Some(p)));
        } else {
            assert(ns2[q].children == ns1[q].children);
            let x = ns1[q].children[i];
            assert(!ids.contains(x));
            assert(ns1[x as int].parent == Some(q as usize));
            if ns1[p as int].children.contains(x) {
                let kp = ns1[p as int].children;
                let k = choose|k: int| 0 <= k < kp.len() && #[trigger] kp[k] == x;
                assert(ns1[x as int].parent == Some(p));
                assert(q == p);
            }
            assert(ns2[x as int].parent == ns1[x as int].parent) by {
                if x != p {
                    assert(ns2[x as int] == ns1[x as int]);
                }
            }
        }
    }
}

#[verifier::rlimit(100)]
#[verifier::spinoff_prover]
proof fn lemma_replace_parent_case_root(d1: DocModel, d2: DocModel, p: usize, ids: Seq<usize>)
    requires
        parents_linked(d1.nodes),
        replace_shape(d1, d2, p, ids),
    ensures
        match d2.nodes[p as int].parent {
            Some(q) => q < d2.nodes.len() && q != p as int && d2.nodes[q as int].children.contains(
                p,
            ),
            None => true,
        },
{
    let ns1 = d1.nodes;
    let ns2 = d2.nodes;
    assert(!ids.contains(p));
    assert(ns2[p as int] == with_children(ns1[p as int], ids));
    reveal(parents_linked);
    match ns1[p as int].parent {
        Some(q) => {
            assert(ns1[q as int].children.contains(p));
            assert(q != p);
            assert(ns2[q as int].children == ns1[q as int].children) by {
                assert(ns2[q as int] == ns1[q as int] || ns2[q as int] == with_parent(
                    ns1[q as int],
                    Some(p),
                ) || ns2[q as int] == with_parent(ns1[q as int], None));
            }
        },
        None => {},
    }
}

#[verifier::rlimit(100)]
#[verifier::spinoff_prover]
proof fn lemma_replace_parent_case_adopted(
    d1: DocModel,
    d2: DocModel,
    p: usize,
    ids: Seq<usize>,
    x: int,
)
    requires
        replace_shape(d1, d2, p, ids),
        0 <= x < d2.nodes.len(),
        x != p,
        ids.contains(x as usize),
    ensures
        match d2.nodes[x].parent {
            Some(q) => q < d2.nodes.len() && q != x && d2.nodes[q as int].children.contains(
                x as usize,
            ),
            None => true,
        },
{
    let ns2 = d2.nodes;
    assert(ns2[x] == with_parent(d1.nodes[x], Some(p)));
    let k = choose|k: int| 0 <= k < ids.len() && #[trigger] ids[k] == x as usize;
    assert(ns2[p as int] == with_children(d1.nodes[p as int], ids));
    assert(ns2[p as int].children[k] == x as usize);
    assert(ns2[p as int].children.contains(x as usize));
}

#[verifier::rlimit(100)]
#[verifier::spinoff_prover]
proof fn lemma_replace_parent_case_orphaned(
    d1: DocModel,
    d2: DocModel,
    p: usize,
    ids: Seq<usize>,
    x: int,
)
    requires
        replace_shape(d1, d2, p, ids),
        0 <= x < d2.nodes.len(),
        x != p,
        !ids.contains(x as usize),
        d1.nodes[p as int].children.contains(x as usize),
    ensures
        d2.nodes[x].parent is None,
{
    assert(d2.nodes[x] == with_parent(d1.nodes[x], None));
}

#[verifier::rlimit(100)]
#[verifier::spinoff_prover]
proof fn lemma_replace_parent_case_other(
    d1: DocModel,
    d2: DocModel,
    p: usize,
    ids: Seq<usize>,
    x: int,
)
    requires
        parents_linked(d1.nodes),
        replace_shape(d1, d2, p, ids),
        0 <= x < d2.nodes.len(),
        x != p,
        !ids.contains(x as usize),
        !d1.nodes[p as int].children.contains(x as usize),
    ensures
        match d2.nodes[x].parent {
            Some(q) => q < d2.nodes.len() && q != x && d2.nodes[q as int].children.contains(
                x as usize,
            ),
            None => true,
        },
{
    let ns1 = d1.nodes;
    let ns2 = d2.nodes;
    assert(ns2[x] == ns1[x]);
    reveal(parents_linked);
    match ns1[x].parent {
        Some(q) => {
            assert(ns1[q as int].children.contains(x as usize));
            if q == p {
                assert(ns1[p as int].children.contains(x as usize));
            }
            assert(q != p);
            assert(q != x);
            assert(ns2[q as int].children == ns1[q as int].children) by {
                assert(ns2[q as int] == ns1[q as int] || ns2[q as int] == with_parent(
                    ns1[q as int],
                    Some(p),
                ) || ns2[q as int] == with_parent(ns1[q as int], None));
            }
        },
        None => {},
    }
}

#[verifier::rlimit(100)]
#[verifier::spinoff_prover]
proof fn lemma_replace_parents_linked(d1: DocModel, d2: DocModel, p: usize, ids: Seq<usize>)
    requires
        parents_linked(d1.nodes),
        children_linked(d1.nodes),
        replace_shape(d1, d2, p, ids),
    ensures
        parents_linked(d2.nodes),
{
    let ns2 = d2.nodes;
    assert forall|x: int| 0 <= x < ns2.len() implies match (#[trigger] ns2[x]).parent {
        Some(q) => q < ns2.len() && q != x && ns2[q as int].children.contains(x as usize),
        None => true,
    } by {
        if x == p {
            lemma_replace_parent_case_root(d1, d2, p, ids);
        } else if ids.contains(x as usize) {
            lemma_replace_parent_case_adopted(d1, d2, p, ids, x);
        } else if d1.nodes[p as int].children.contains(x as usize) {
            lemma_replace_parent_case_orphaned(d1, d2, p, ids, x);
        } else {
            lemma_replace_parent_case_other(d1, d2, p, ids, x);
        }
    }
    assert(parents_linked(ns2)) by {
        reveal(parents_linked);
    }
}


/// Atomically replacing the child list of element `p` with the detached,
/// pairwise distinct nodes `ids` keeps the tree invariant.
#[verifier::rlimit(100)]
proof fn lemma_wf_replace(d1: DocModel, d2: DocModel, p: usize, ids: Seq<usize>)
    requires
        d1.nodes.len() <= usize::MAX,
        d1.wf(),
        p < d1.nodes.len(),
        d1.nodes[p as int].kind is Element,
        forall|k: int|
            0 <= k < ids.len() ==> (#[trigger] ids[k]) < d1.nodes.len() && ids[k] != p
                && d1.nodes[ids[k] as int].parent is None,
        forall|k: int, l: int| 0 <= k < l < ids.len() ==> ids[k] != ids[l],
        d2.nodes.len() == d1.nodes.len(),
        forall|x: int|
            0 <= x < d1.nodes.len() ==> #[trigger] d2.nodes[x] == (if x == p {
                with_children(d1.nodes[x], ids)
            } else if ids.contains(x as usize) {
                with_parent(d1.nodes[x], Some(p))
            } else if d1.nodes[p as int].children.contains(x as usize) {
                with_parent(d1.nodes[x], None)
            } else {
                d1.nodes[x]
            }),
        d2.body == d1.body,
        d2.selection == d1.selection,
    ensures
        d2.wf(),
{
    let ns1 = d1.nodes;
    let ns2 = d2.nodes;
    lemma_replace_children_linked(d1, d2, p, ids);
    lemma_replace_parents_linked(d1, d2, p, ids);
    assert(children_distinct(ns2)) by {
        reveal(children_distinct);
        assert forall|q: int, i: int, j: int|
            #![trigger ns2[q].children[i], ns2[q].children[j]]
            0 <= q < ns2.len() && 0 <= i < j < ns2[q].children.len() implies ns2[q].children[i]
            != ns2[q].children[j] by {
            if q == p {
                assert(ns2[q].children == ids);
            } else {
                assert(ns2[q].children == ns1[q].children) by {
                    assert(ns2[q] == ns1[q] || ns2[q] == with_parent(ns1[q], Some(p)) || ns2[q]
                        == with_parent(ns1[q], None));
                }
            }
        }
    }
    assert(text_nodes_leaf(ns2)) by {
        reveal(text_nodes_leaf);
        assert forall|n: int|
            0 <= n < ns2.len() && (#[trigger] ns2[n]).kind is Text implies ns2[n].children.len()
            == 0 by {
            if n != p {
                assert(ns2[n].children == ns1[n].children && ns2[n].kind == ns1[n].kind) by {
                    assert(ns2[n] == ns1[n] || ns2[n] == with_parent(ns1[n], Some(p)) || ns2[n]
                        == with_parent(ns1[n], None));
                }
            }
        }
    }
}

/// A change that leaves every node's kind, children and parent alone keeps
/// the tree invariant.
proof fn lemma_wf_nonstructural(d1: DocModel, d2: DocModel)
    requires
        d1.wf(),
        d2.nodes.len() == d1.nodes.len(),
        forall|n: int|
            0 <= n < d1.nodes.len() ==> (#[trigger] d2.nodes[n]).kind == d1.nodes[n].kind
                && d2.nodes[n].children == d1.nodes[n].children && d2.nodes[n].parent
                == d1.nodes[n].parent,
        d2.body == d1.body,
        d2.selection == d1.selection,
    ensures
        d2.wf(),
{
    lemma_wf_shape_kept(d1, d2);
}

} // verus!
