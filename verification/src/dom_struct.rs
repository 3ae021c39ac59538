//! A fixed-shape container: one owning element plus a compile-time list of
//! heterogeneous child components, built as nested pairs terminated by `()`.
//! Construction installs every member's node into a pre-sized array and
//! attaches the array to the owning element in one atomic replace, so the
//! host never observes a partially built child list.

use crate::host::{agree_on, with_children, with_parent, HostDoc, NodeModel};
use crate::web_support::{
    AccessToken, ArrayHandle, AuditError, Component, ElementComponent, ElementHandle, ElementRef,
    NodeListHandle, NodeRef,
};
use vstd::prelude::*;

verus! {

/// A statically shaped sequence of components: nested pairs ended by `()`.
///
/// `install` writes the members' node identities into consecutive slots of a
/// pre-sized array, and succeeds exactly when the offset plus the static
/// length equals the array's length. `audit` checks a host child list
/// against the members' nodes at the corresponding offsets and then audits
/// each member.
pub trait Structure: Sized {
    /// The static member count.
    spec fn spec_len() -> nat;

    /// The members' root identities, in order.
    spec fn roots(&self) -> Seq<usize>;

    /// The union of the members' footprints.
    spec fn owned(&self) -> Set<usize>;

    /// The members' footprints are pairwise disjoint.
    spec fn owned_wf(&self) -> bool;

    /// Every member matches the host arena.
    spec fn consistent(&self, ns: Seq<NodeModel>) -> bool;

    /// There are as many roots as members.
    proof fn lemma_len(&self)
        ensures
            self.roots().len() == Self::spec_len(),
    ;

    /// Each root is part of the footprint.
    proof fn lemma_roots_owned(&self)
        ensures
            forall|i: int|
                0 <= i < self.roots().len() ==> self.owned().contains(#[trigger] self.roots()[i]),
    ;

    /// Disjoint footprints give pairwise distinct roots.
    proof fn lemma_roots_distinct(&self)
        requires
            self.owned_wf(),
        ensures
            forall|i: int, j: int|
                0 <= i < j < self.roots().len() ==> self.roots()[i] != self.roots()[j],
    ;

    /// A consistent sequence's footprint lies inside the arena.
    proof fn lemma_owned_in_range(&self, ns: Seq<NodeModel>)
        requires
            self.consistent(ns),
        ensures
            forall|n: usize| self.owned().contains(n) ==> n < ns.len(),
    ;

    /// Consistency depends only on the owned nodes' data.
    proof fn lemma_frame(&self, d1: Seq<NodeModel>, d2: Seq<NodeModel>)
        requires
            self.consistent(d1),
            agree_on(d1, d2, self.owned()),
        ensures
            self.consistent(d2),
    ;

    /// The static member count, as a value.
    fn length() -> (r: usize)
        requires
            Self::spec_len() <= usize::MAX,
        ensures
            r == Self::spec_len(),
    ;

    /// Write the members' nodes into `nodes[index ..]`. Succeeds exactly
    /// when the members fill the array to its end; on failure the array is
    /// untouched.
    fn install(&self, nodes: &mut ArrayHandle, index: usize) -> (r: Result<(), AuditError>)
        requires
            Self::spec_len() <= usize::MAX,
        ensures
            r is Ok <==> index + Self::spec_len() == old(nodes)@.len(),
            r is Ok ==> final(nodes)@.len() == old(nodes)@.len() && (forall|j: int|
                0 <= j < index ==> final(nodes)@[j] == old(nodes)@[j]) && (forall|j: int|
                index <= j < old(nodes)@.len() ==> final(nodes)@[j] == Some(
                    self.roots()[j - index],
                )),
            !(r is Ok) ==> final(nodes)@ == old(nodes)@,
    ;

    /// Check that `node_list[index ..]` consists exactly of the members'
    /// nodes, in order, and audit each member.
    fn audit(&self, node_list: &NodeListHandle, doc: &HostDoc, index: usize) -> (r: Result<
        (),
        AuditError,
    >)
        requires
            doc.wf(),
            self.owned_wf(),
        ensures
            r is Ok <==> index + Self::spec_len() == node_list@.len() && (forall|j: int|
                index <= j < node_list@.len() ==> node_list@[j] == self.roots()[j - index])
                && self.consistent(doc@.nodes),
    ;
}

impl Structure for () {
    open spec fn spec_len() -> nat {
        0
    }

    open spec fn roots(&self) -> Seq<usize> {
        Seq::empty()
    }

    open spec fn owned(&self) -> Set<usize> {
        Set::empty()
    }

    open spec fn owned_wf(&self) -> bool {
        true
    }

    open spec fn consistent(&self, ns: Seq<NodeModel>) -> bool {
        true
    }

    proof fn lemma_len(&self) {
    }

    proof fn lemma_roots_owned(&self) {
    }

    proof fn lemma_roots_distinct(&self) {
    }

    proof fn lemma_owned_in_range(&self, ns: Seq<NodeModel>) {
    }

    proof fn lemma_frame(&self, d1: Seq<NodeModel>, d2: Seq<NodeModel>) {
    }

    fn length() -> (r: usize) {
        0
    }

    fn install(&self, nodes: &mut ArrayHandle, index: usize) -> (r: Result<(), AuditError>) {
        let total = nodes.length();
        if index == total {
            Ok(())
        } else {
            Err(AuditError::Length { offset: index, length: total })
        }
    }

    fn audit(&self, node_list: &NodeListHandle, doc: &HostDoc, index: usize) -> (r: Result<
        (),
        AuditError,
    >) {
        let total = node_list.length();
        if index == total {
            Ok(())
        } else {
            Err(AuditError::Length { offset: index, length: total })
        }
    }
}

impl<First: Component, Rest: Structure> Structure for (First, Rest) {
    open spec fn spec_len() -> nat {
        Rest::spec_len() + 1
    }

    open spec fn roots(&self) -> Seq<usize> {
        seq![self.0.root_id()] + self.1.roots()
    }

    open spec fn owned(&self) -> Set<usize> {
        self.0.owned().union(self.1.owned())
    }

    open spec fn owned_wf(&self) -> bool {
        &&& self.0.owned_wf()
        &&& self.1.owned_wf()
        &&& self.0.owned().disjoint(self.1.owned())
    }

    open spec fn consistent(&self, ns: Seq<NodeModel>) -> bool {
        &&& self.0.consistent(ns)
        &&& self.1.consistent(ns)
    }

    proof fn lemma_len(&self) {
        self.1.lemma_len();
    }

    proof fn lemma_roots_owned(&self) {
        self.0.lemma_root_owned();
        self.1.lemma_roots_owned();
        assert forall|i: int|
            0 <= i < self.roots().len() implies self.owned().contains(
            #[trigger] self.roots()[i],
        ) by {
            if i == 0 {
                assert(self.roots()[0] == self.0.root_id());
            } else {
                assert(self.roots()[i] == self.1.roots()[i - 1]);
                assert(self.1.owned().contains(self.1.roots()[i - 1]));
            }
        }
    }

    proof fn lemma_roots_distinct(&self) {
        self.0.lemma_root_owned();
        self.1.lemma_roots_owned();
        self.1.lemma_roots_distinct();
        assert forall|i: int, j: int|
            0 <= i < j < self.roots().len() implies self.roots()[i] != self.roots()[j] by {
            if i == 0 {
                assert(self.roots()[0] == self.0.root_id());
                assert(self.roots()[j] == self.1.roots()[j - 1]);
                assert(self.1.owned().contains(self.1.roots()[j - 1]));
            } else {
                assert(self.roots()[i] == self.1.roots()[i - 1]);
                assert(self.roots()[j] == self.1.roots()[j - 1]);
            }
        }
    }

    proof fn lemma_owned_in_range(&self, ns: Seq<NodeModel>) {
        self.0.lemma_owned_in_range(ns);
        self.1.lemma_owned_in_range(ns);
    }

    proof fn lemma_frame(&self, d1: Seq<NodeModel>, d2: Seq<NodeModel>) {
        assert(agree_on(d1, d2, self.0.owned()));
        assert(agree_on(d1, d2, self.1.owned()));
        self.0.lemma_frame(d1, d2);
        self.1.lemma_frame(d1, d2);
    }

    fn length() -> (r: usize) {
        let rest = Rest::length();
        rest + 1
    }

    fn install(&self, nodes: &mut ArrayHandle, index: usize) -> (r: Result<(), AuditError>) {
        let total = nodes.length();
        let expected = Self::length();
        if !(index <= total && total - index == expected) {
            return Err(AuditError::Length { offset: index, length: total });
        }
        nodes.set(index, &self.0);
        let rest = self.1.install(nodes, index + 1);
        match rest {
            Ok(()) => {
                proof {
                    self.1.lemma_len();
                    assert forall|j: int|
                        index <= j < old(nodes)@.len() implies final(nodes)@[j] == Some(
                        self.roots()[j - index],
                    ) by {
                        assert(seq![self.0.root_id()].len() == 1);
                        if j == index {
                            assert(self.roots()[0] == self.0.root_id());
                        } else {
                            assert(self.roots() == seq![self.0.root_id()] + self.1.roots());
                            assert((seq![self.0.root_id()] + self.1.roots())[j - index]
                                == self.1.roots()[j - index - 1]);
                        }
                    }
                }
                Ok(())
            },
            Err(e) => {
                proof {
                    assert(false);
                }
                Err(e)
            },
        }
    }

    fn audit(&self, node_list: &NodeListHandle, doc: &HostDoc, index: usize) -> (r: Result<
        (),
        AuditError,
    >) {
        let total = node_list.length();
        match node_list.audit_node(index, &self.0) {
            Ok(()) => {},
            Err(e) => {
                proof {
                    self.lemma_len();
                    self.1.lemma_len();
                }
                return Err(e);
            },
        }
        match self.0.audit(doc) {
            Ok(()) => {},
            Err(e) => {
                return Err(e);
            },
        }
        let rest = self.1.audit(node_list, doc, index + 1);
        proof {
            self.lemma_len();
            self.1.lemma_len();
            if rest is Ok {
                assert forall|j: int|
                    index <= j < node_list@.len() implies node_list@[j] == self.roots()[j
                    - index] by {
                    if j == index {
                        assert(self.roots()[0] == self.0.root_id());
                    } else {
                        assert(self.roots()[j - index] == self.1.roots()[j - index - 1]);
                    }
                }
            } else {
                if index + Self::spec_len() == node_list@.len() && (forall|j: int|
                    index <= j < node_list@.len() ==> node_list@[j] == self.roots()[j - index])
                    && self.consistent(doc@.nodes) {
                    assert forall|j: int|
                        index + 1 <= j < node_list@.len() implies node_list@[j]
                        == self.1.roots()[j - (index + 1)] by {
                        assert(node_list@[j] == self.roots()[j - index]);
                        assert(self.roots()[j - index] == self.1.roots()[j - index - 1]);
                    }
                    assert(false);
                }
            }
        }
        rest
    }
}

/// A product-shaped component: one owning element plus a fixed structure of
/// children, installed atomically at construction.
pub struct DomStruct<Child: Structure> {
    contents: Child,
    elem: ElementHandle,
}

impl<Child: Structure> DomStruct<Child> {
    /// The child structure.
    pub closed spec fn spec_contents(&self) -> Child {
        self.contents
    }

    /// The owning element handle.
    pub closed spec fn spec_elem(&self) -> ElementHandle {
        self.elem
    }

    /// What a fresh construction or a full replacement requires of the
    /// children: consistent, disjointly owned, detached, and clear of the
    /// owning element.
    pub open spec fn children_ready(contents: Child, elem_id: usize, ns: Seq<NodeModel>) -> bool {
        &&& contents.consistent(ns)
        &&& contents.owned_wf()
        &&& !contents.owned().contains(elem_id)
        &&& forall|i: int|
            0 <= i < contents.roots().len() ==> ns[#[trigger] contents.roots()[i] as int].parent
                is None
    }

    /// Build the full child array, attach it to the owning element in one
    /// atomic replace, and take ownership of both.
    pub fn new(contents: Child, elem: ElementHandle, doc: &mut HostDoc) -> (r: DomStruct<Child>)
        requires
            Child::spec_len() <= usize::MAX,
            old(doc).wf(),
            elem.wf(),
            elem.consistent(old(doc)@.nodes),
            old(doc)@.nodes[elem.id() as int].children.len() == 0,
            Self::children_ready(contents, elem.id(), old(doc)@.nodes),
        ensures
            final(doc).wf(),
            r.spec_contents() == contents,
            r.spec_elem() == elem,
            r.root_id() == elem.id(),
            r.owned() == contents.owned().insert(elem.id()),
            r.owned_wf(),
            r.consistent(final(doc)@.nodes),
            final(doc)@.body == old(doc)@.body,
            final(doc)@.selection == old(doc)@.selection,
            final(doc)@.nodes.len() == old(doc)@.nodes.len(),
            final(doc)@.nodes[elem.id() as int] == with_children(
                old(doc)@.nodes[elem.id() as int],
                contents.roots(),
            ),
            forall|x: int|
                0 <= x < old(doc)@.nodes.len() && x != elem.id() ==> with_parent(
                    #[trigger] final(doc)@.nodes[x],
                    None,
                ) == with_parent(old(doc)@.nodes[x], None),
            forall|x: int|
                0 <= x < old(doc)@.nodes.len() && x != elem.id() && !contents.roots().contains(
                    x as usize,
                ) ==> #[trigger] final(doc)@.nodes[x] == old(doc)@.nodes[x],
    {
        let mut child_nodes = ArrayHandle::new_with_length(Child::length());
        let installed = contents.install(&mut child_nodes, 0);
        match installed {
            Ok(()) => {},
            Err(_) => {
                proof {
                    assert(false);
                }
            },
        }
        proof {
            contents.lemma_len();
            contents.lemma_roots_owned();
            contents.lemma_roots_distinct();
            contents.lemma_owned_in_range(old(doc)@.nodes);
            assert forall|k: int, l: int|
                0 <= k < l < child_nodes@.len() implies #[trigger] child_nodes@[k]
                != #[trigger] child_nodes@[l] by {
                assert(child_nodes@[k] == Some(contents.roots()[k]));
                assert(child_nodes@[l] == Some(contents.roots()[l]));
            }
            assert forall|k: int|
                0 <= k < child_nodes@.len() implies (#[trigger] child_nodes@[k]) matches Some(id)
                && id < old(doc)@.nodes.len() && id != elem.id() && old(
                doc,
            )@.nodes[id as int].parent is None by {
                assert(child_nodes@[k] == Some(contents.roots()[k]));
                assert(contents.owned().contains(contents.roots()[k]));
            }
        }
        let ghost before = doc@.nodes;
        elem.attach_nodes(child_nodes, doc);
        let r = DomStruct { contents, elem };
        proof {
            let after = doc@.nodes;
            assert(after[elem.id() as int].children =~= contents.roots());
            assert(after[elem.id() as int] == with_children(
                before[elem.id() as int],
                contents.roots(),
            ));
            assert forall|x: int|
                0 <= x < before.len() && x != elem.id() implies with_parent(
                #[trigger] after[x],
                None,
            ) == with_parent(before[x], None) by {}
            assert(agree_on(before, after, contents.owned())) by {
                assert forall|n: usize| contents.owned().contains(n) implies n < before.len()
                    && with_parent(after[n as int], None) == with_parent(
                    before[n as int],
                    None,
                ) by {
                    assert(n != elem.id());
                }
            }
            contents.lemma_frame(before, after);
            assert forall|x: int|
                0 <= x < before.len() && x != elem.id() && !contents.roots().contains(x as usize)
                implies #[trigger] after[x] == before[x] by {
                crate::host::lemma_arena_bound(doc);
                if child_nodes@.contains(Some(x as usize)) {
                    let k = choose|k: int|
                        0 <= k < child_nodes@.len() && #[trigger] child_nodes@[k] == Some(
                            x as usize,
                        );
                    assert(contents.roots()[k] == x as usize);
                    assert(contents.roots().contains(x as usize));
                }
            }
        }
        r
    }

    /// Read access to the child structure.
    pub fn get(&self) -> (r: &Child)
        ensures
            r == self.spec_contents(),
    {
        &self.contents
    }

    /// Targeted mutation of the child structure; the caller re-establishes
    /// consistency through the children's own contracts.
    pub fn get_mut(&mut self) -> (r: &mut Child)
        ensures
            *r == old(self).spec_contents(),
            final(self).spec_contents() == *final(r),
            final(self).spec_elem() == old(self).spec_elem(),
    {
        &mut self.contents
    }

    /// Replace the whole child structure, repeating the atomic installation.
    pub fn set_contents(&mut self, new_contents: Child, doc: &mut HostDoc)
        requires
            Child::spec_len() <= usize::MAX,
            old(doc).wf(),
            old(self).spec_elem().wf(),
            old(self).consistent(old(doc)@.nodes),
            old(self).owned_wf(),
            Self::children_ready(new_contents, old(self).spec_elem().id(), old(doc)@.nodes),
        ensures
            final(doc).wf(),
            final(self).spec_contents() == new_contents,
            final(self).spec_elem() == old(self).spec_elem(),
            final(self).root_id() == old(self).root_id(),
            final(self).owned() == new_contents.owned().insert(old(self).spec_elem().id()),
            final(self).owned_wf(),
            final(self).consistent(final(doc)@.nodes),
            final(doc)@.body == old(doc)@.body,
            final(doc)@.selection == old(doc)@.selection,
            final(doc)@.nodes.len() == old(doc)@.nodes.len(),
    {
        let mut child_nodes = ArrayHandle::new_with_length(Child::length());
        let installed = new_contents.install(&mut child_nodes, 0);
        match installed {
            Ok(()) => {},
            Err(_) => {
                proof {
                    assert(false);
                }
            },
        }
        proof {
            new_contents.lemma_len();
            new_contents.lemma_roots_owned();
            new_contents.lemma_roots_distinct();
            new_contents.lemma_owned_in_range(old(doc)@.nodes);
            assert forall|k: int, l: int|
                0 <= k < l < child_nodes@.len() implies #[trigger] child_nodes@[k]
                != #[trigger] child_nodes@[l] by {
                assert(child_nodes@[k] == Some(new_contents.roots()[k]));
                assert(child_nodes@[l] == Some(new_contents.roots()[l]));
            }
            assert forall|k: int|
                0 <= k < child_nodes@.len() implies (#[trigger] child_nodes@[k]) matches Some(id)
                && id < old(doc)@.nodes.len() && id != self.elem.id() && old(
                doc,
            )@.nodes[id as int].parent is None by {
                assert(child_nodes@[k] == Some(new_contents.roots()[k]));
                assert(new_contents.owned().contains(new_contents.roots()[k]));
            }
        }
        let ghost before = doc@.nodes;
        self.elem.attach_nodes(child_nodes, doc);
        self.contents = new_contents;
        proof {
            let after = doc@.nodes;
            assert(after[self.elem.id() as int].children =~= new_contents.roots());
            assert(after[self.elem.id() as int] == with_children(
                before[self.elem.id() as int],
                new_contents.roots(),
            ));
            assert(agree_on(before, after, new_contents.owned())) by {
                assert forall|n: usize| new_contents.owned().contains(n) implies n < before.len()
                    && with_parent(after[n as int], None) == with_parent(
                    before[n as int],
                    None,
                ) by {
                    assert(n != self.elem.id());
                }
            }
            new_contents.lemma_frame(before, after);
        }
    }

    /// Record an attribute on the owning element, shadow and external.
    pub fn set_attribute(&mut self, doc: &mut HostDoc, name: &str, value: &str)
        requires
            old(doc).wf(),
            old(self).owned_wf(),
            old(self).consistent(old(doc)@.nodes),
        ensures
            final(doc).wf(),
            final(self).spec_elem().wf(),
            final(self).spec_contents() == old(self).spec_contents(),
            final(self).root_id() == old(self).root_id(),
            final(self).owned() == old(self).owned(),
            final(self).owned_wf(),
            final(self).consistent(final(doc)@.nodes),
            final(self).spec_elem().shadow_attrs() == old(self).spec_elem().shadow_attrs().insert(
                name@,
                value@,
            ),
            final(doc)@.nodes == old(doc)@.nodes.update(
                old(self).root_id() as int,
                crate::host::with_attrs(
                    old(doc)@.nodes[old(self).root_id() as int],
                    old(doc)@.nodes[old(self).root_id() as int].attrs.insert(name@, value@),
                ),
            ),
            final(doc)@.body == old(doc)@.body,
            final(doc)@.selection == old(doc)@.selection,
    {
        let ghost before = doc@.nodes;
        self.elem.set_attribute(doc, name, value);
        proof {
            let after = doc@.nodes;
            assert(self.elem.id() < before.len());
            assert(agree_on(before, after, self.contents.owned())) by {
                self.contents.lemma_owned_in_range(before);
                assert forall|n: usize| self.contents.owned().contains(n) implies n < before.len()
                    && with_parent(after[n as int], None) == with_parent(
                    before[n as int],
                    None,
                ) by {
                    assert(n != self.elem.id());
                    assert(after[n as int] == before[n as int]);
                }
            }
            self.contents.lemma_frame(before, after);
        }
    }

    /// Register the handler on the owning element, shadow and external.
    pub fn set_onbeforeinput(&mut self, doc: &mut HostDoc, handler: u64)
        requires
            old(doc).wf(),
            old(self).owned_wf(),
            old(self).consistent(old(doc)@.nodes),
        ensures
            final(doc).wf(),
            final(self).spec_elem().wf(),
            final(self).spec_contents() == old(self).spec_contents(),
            final(self).root_id() == old(self).root_id(),
            final(self).owned() == old(self).owned(),
            final(self).owned_wf(),
            final(self).consistent(final(doc)@.nodes),
            final(self).spec_elem().shadow_handler() == Some(handler),
            final(doc)@.nodes == old(doc)@.nodes.update(
                old(self).root_id() as int,
                crate::host::with_handler(
                    old(doc)@.nodes[old(self).root_id() as int],
                    Some(handler),
                ),
            ),
            final(doc)@.body == old(doc)@.body,
            final(doc)@.selection == old(doc)@.selection,
    {
        let ghost before = doc@.nodes;
        self.elem.set_onbeforeinput(doc, handler);
        proof {
            let after = doc@.nodes;
            assert(self.elem.id() < before.len());
            assert(agree_on(before, after, self.contents.owned())) by {
                self.contents.lemma_owned_in_range(before);
                assert forall|n: usize| self.contents.owned().contains(n) implies n < before.len()
                    && with_parent(after[n as int], None) == with_parent(
                    before[n as int],
                    None,
                ) by {
                    assert(n != self.elem.id());
                    assert(after[n as int] == before[n as int]);
                }
            }
            self.contents.lemma_frame(before, after);
        }
    }
}

impl<Child: Structure> Component for DomStruct<Child> {
    open spec fn root_id(&self) -> usize {
        self.spec_elem().id()
    }

    open spec fn owned(&self) -> Set<usize> {
        self.spec_contents().owned().insert(self.spec_elem().id())
    }

    open spec fn owned_wf(&self) -> bool {
        &&& self.spec_elem().wf()
        &&& self.spec_contents().owned_wf()
        &&& !self.spec_contents().owned().contains(self.spec_elem().id())
    }

    open spec fn consistent(&self, ns: Seq<NodeModel>) -> bool {
        &&& self.spec_elem().consistent(ns)
        &&& ns[self.spec_elem().id() as int].children == self.spec_contents().roots()
        &&& self.spec_contents().consistent(ns)
    }

    proof fn lemma_root_owned(&self) {
    }

    proof fn lemma_owned_in_range(&self, ns: Seq<NodeModel>) {
        self.spec_contents().lemma_owned_in_range(ns);
    }

    proof fn lemma_frame(&self, d1: Seq<NodeModel>, d2: Seq<NodeModel>) {
        let id = self.spec_elem().id();
        assert(self.owned().contains(id));
        assert(with_parent(d2[id as int], None) == with_parent(d1[id as int], None));
        assert(d2[id as int].kind == d1[id as int].kind);
        assert(d2[id as int].attrs == d1[id as int].attrs);
        assert(d2[id as int].handler == d1[id as int].handler);
        assert(d2[id as int].children == d1[id as int].children);
        assert(agree_on(d1, d2, self.spec_contents().owned()));
        self.spec_contents().lemma_frame(d1, d2);
    }

    fn node(&self, tok: AccessToken) -> (n: NodeRef) {
        self.elem.node(tok)
    }

    fn audit(&self, doc: &HostDoc) -> (r: Result<(), AuditError>) {
        match self.elem.audit(doc) {
            Ok(()) => {},
            Err(e) => {
                return Err(e);
            },
        }
        let dom_children = self.elem.get_child_node_list(doc);
        let rest = self.contents.audit(&dom_children, doc, 0);
        proof {
            self.contents.lemma_len();
            if rest is Ok {
                assert(doc@.nodes[self.spec_elem().id() as int].children
                    =~= self.spec_contents().roots());
            } else {
                if self.consistent(doc@.nodes) {
                    assert forall|j: int|
                        0 <= j < dom_children@.len() implies dom_children@[j]
                        == self.spec_contents().roots()[j] by {}
                    assert(false);
                }
            }
        }
        rest
    }

    fn detach(&self, doc: &mut HostDoc) {
        let ghost before = doc@.nodes;
        self.elem.detach(doc);
        proof {
            let after = doc@.nodes;
            let root = self.spec_elem().id();
            assert(agree_on(before, after, self.owned())) by {
                crate::host::lemma_parent_facts(old(doc)@, root);
                self.spec_contents().lemma_owned_in_range(before);
                match before[root as int].parent {
                    Some(p) => {
                        let kids = before[p as int].children;
                        let k = kids.index_of(root);
                        assert(after == before.update(
                            p as int,
                            with_children(before[p as int], kids.remove(k)),
                        ).update(root as int, with_parent(before[root as int], None)));
                        assert forall|n: usize| self.owned().contains(n) implies n < before.len()
                            && with_parent(after[n as int], None) == with_parent(
                            before[n as int],
                            None,
                        ) by {
                            if n == root {
                            } else {
                                assert(n != p);
                                assert(after[n as int] == before[n as int]);
                            }
                        }
                    },
                    None => {},
                }
            }
            self.lemma_frame(before, after);
        }
    }
}

impl<Child: Structure> ElementComponent for DomStruct<Child> {
    fn element(&self, tok: AccessToken) -> (e: ElementRef) {
        self.elem.element(tok)
    }

    proof fn lemma_root_element(&self, ns: Seq<NodeModel>) {
    }
}

} // verus!
