//! A variable-length, homogeneously typed container: one owning element
//! plus an ordered sequence of child components. The external child order
//! mirrors the logical sequence exactly between calls; push and insert make
//! one corresponding external insertion, and removal hands the child back
//! to the caller, whose later explicit detach performs the external removal.

use crate::host::{agree_on, with_children, with_parent, HostDoc, NodeModel};
use crate::web_support::{
    AccessToken, AuditError, Component, ElementComponent, ElementHandle, ElementRef, NodeRef,
};
use vstd::prelude::*;

verus! {

/// An ordered, growable collection of one component kind under one element.
pub struct DomVec<C: Component> {
    contents: Vec<C>,
    elem: ElementHandle,
}

impl<C: Component> DomVec<C> {
    /// The logical children.
    pub closed spec fn spec_contents(&self) -> Seq<C> {
        self.contents@
    }

    /// The owning element handle.
    pub closed spec fn spec_elem(&self) -> ElementHandle {
        self.elem
    }

    /// The children's root identities, in logical order.
    pub open spec fn roots(&self) -> Seq<usize> {
        self.spec_contents().map_values(|c: C| c.root_id())
    }

    /// What a child must bring along to be adopted: consistent, disciplined
    /// ownership, detached, and a footprint clear of everything this
    /// container already owns.
    pub open spec fn child_ready(&self, child: C, ns: Seq<NodeModel>) -> bool {
        &&& child.consistent(ns)
        &&& child.owned_wf()
        &&& ns[child.root_id() as int].parent is None
        &&& self.owned().disjoint(child.owned())
    }

    /// An empty collection under a fresh, childless element.
    pub fn new(elem: ElementHandle, doc: &HostDoc) -> (r: DomVec<C>)
        requires
            doc.wf(),
            elem.wf(),
            elem.consistent(doc@.nodes),
            doc@.nodes[elem.id() as int].children.len() == 0,
        ensures
            r.spec_contents() == Seq::<C>::empty(),
            r.spec_elem() == elem,
            r.root_id() == elem.id(),
            r.owned_wf(),
            r.consistent(doc@.nodes),
            forall|n: usize| r.owned().contains(n) ==> n == elem.id(),
    {
        let r = DomVec { contents: Vec::new(), elem };
        proof {
            assert(r.roots() =~= Seq::<usize>::empty());
            assert(doc@.nodes[elem.id() as int].children =~= r.roots());
        }
        r
    }

    pub fn len(&self) -> (r: usize)
        ensures
            r == self.spec_contents().len(),
    {
        self.contents.len()
    }

    pub fn get(&self, index: usize) -> (r: Option<&C>)
        ensures
            match r {
                Some(c) => index < self.spec_contents().len() && *c == self.spec_contents()[index as int],
                None => index >= self.spec_contents().len(),
            },
    {
        if index < self.contents.len() {
            Some(&self.contents[index])
        } else {
            None
        }
    }

    pub fn get_mut(&mut self, index: usize) -> (r: Option<&mut C>)
        ensures
            index < old(self).spec_contents().len() <==> r is Some,
            r is None ==> *final(self) == *old(self),
            r matches Some(c) ==> *c == old(self).spec_contents()[index as int]
                && final(self).spec_contents() == old(self).spec_contents().update(
                index as int,
                *final(c),
            ) && final(self).spec_elem() == old(self).spec_elem(),
    {
        if index < self.contents.len() {
            Some(vstd::std_specs::vec::vec_index_mut(&mut self.contents, index))
        } else {
            None
        }
    }

    pub fn last(&self) -> (r: Option<&C>)
        ensures
            match r {
                Some(c) => self.spec_contents().len() > 0 && *c == self.spec_contents().last(),
                None => self.spec_contents().len() == 0,
            },
    {
        let n = self.contents.len();
        if n > 0 {
            Some(&self.contents[n - 1])
        } else {
            None
        }
    }

    /// Append one child, logically and externally in the same call.
    pub fn push(&mut self, child: C, doc: &mut HostDoc)
        requires
            old(doc).wf(),
            old(self).owned_wf(),
            old(self).consistent(old(doc)@.nodes),
            old(self).child_ready(child, old(doc)@.nodes),
        ensures
            final(doc).wf(),
            final(self).spec_contents() == old(self).spec_contents().push(child),
            final(self).spec_elem() == old(self).spec_elem(),
            final(self).root_id() == old(self).root_id(),
            final(self).owned_wf(),
            final(self).consistent(final(doc)@.nodes),
            final(doc)@.body == old(doc)@.body,
            final(doc)@.selection == old(doc)@.selection,
            final(doc)@.nodes == old(doc)@.nodes.update(
                old(self).root_id() as int,
                with_children(
                    old(doc)@.nodes[old(self).root_id() as int],
                    old(doc)@.nodes[old(self).root_id() as int].children.push(child.root_id()),
                ),
            ).update(
                child.root_id() as int,
                with_parent(old(doc)@.nodes[child.root_id() as int], Some(old(self).root_id())),
            ),
    {
        proof {
            child.lemma_root_owned();
        }
        self.elem.append_node(&child, doc);
        self.contents.push(child);
        proof {
            let me = old(self).spec_elem().id();
            let n = old(self).spec_contents().len() as int;
            assert(old(doc)@.nodes[me as int].children.len() == n);
            assert(old(doc)@.nodes[me as int].children.push(child.root_id())
                =~= old(doc)@.nodes[me as int].children.insert(n, child.root_id()));
            assert(old(self).spec_contents().push(child) =~= old(self).spec_contents().insert(
                n,
                child,
            ));
            lemma_adopt::<C>(
                *old(self),
                *self,
                child,
                old(doc)@.nodes,
                doc@.nodes,
                old(self).spec_contents().len() as int,
            );
        }
    }

    /// Insert one child at `index`, logically and externally in the same
    /// call; children previously at `index` and after shift one place.
    pub fn insert(&mut self, index: usize, child: C, doc: &mut HostDoc)
        requires
            old(doc).wf(),
            old(self).owned_wf(),
            old(self).consistent(old(doc)@.nodes),
            old(self).child_ready(child, old(doc)@.nodes),
            index <= old(self).spec_contents().len(),
        ensures
            final(doc).wf(),
            final(self).spec_contents() == old(self).spec_contents().insert(index as int, child),
            final(self).spec_elem() == old(self).spec_elem(),
            final(self).root_id() == old(self).root_id(),
            final(self).owned_wf(),
            final(self).consistent(final(doc)@.nodes),
            final(doc)@.body == old(doc)@.body,
            final(doc)@.selection == old(doc)@.selection,
            final(doc)@.nodes == old(doc)@.nodes.update(
                old(self).root_id() as int,
                with_children(
                    old(doc)@.nodes[old(self).root_id() as int],
                    old(doc)@.nodes[old(self).root_id() as int].children.insert(
                        index as int,
                        child.root_id(),
                    ),
                ),
            ).update(
                child.root_id() as int,
                with_parent(old(doc)@.nodes[child.root_id() as int], Some(old(self).root_id())),
            ),
    {
        proof {
            child.lemma_root_owned();
        }
        self.elem.insert_node(index, &child, doc);
        self.contents.insert(index, child);
        proof {
            lemma_adopt::<C>(*old(self), *self, child, old(doc)@.nodes, doc@.nodes, index as int);
        }
    }

    /// Remove the child at `index` from the logical sequence and hand it to
    /// the caller. The external tree is untouched: the child's node leaves
    /// its external parent only when the caller explicitly detaches (or
    /// re-attaches) the returned component.
    pub fn remove(&mut self, index: usize) -> (r: C)
        requires
            index < old(self).spec_contents().len(),
        ensures
            r == old(self).spec_contents()[index as int],
            final(self).spec_contents() == old(self).spec_contents().remove(index as int),
            final(self).spec_elem() == old(self).spec_elem(),
            final(self).root_id() == old(self).root_id(),
            old(self).owned_wf() ==> final(self).owned_wf(),
            old(self).owned_wf() ==> final(self).owned().disjoint(r.owned()),
            old(self).owned_wf() ==> r.owned_wf(),
    {
        let r = self.contents.remove(index);
        proof {
            if old(self).owned_wf() {
                assert forall|n: usize|
                    final(self).owned().contains(n) implies !r.owned().contains(n) by {
                    if n == self.elem.id() {
                    } else {
                        let i = choose|i: int|
                            0 <= i < self.contents@.len() && (#[trigger] self.contents@[i]).owned().contains(n);
                        let iorig = if i < index {
                            i
                        } else {
                            i + 1
                        };
                        assert(old(self).spec_contents()[iorig] == self.contents@[i]);
                    }
                }
            }
        }
        r
    }

    /// Atomically replace the entire sequence with a single child: one
    /// external replace, no transient state in between.
    pub fn set_contents(&mut self, child: C, doc: &mut HostDoc)
        requires
            old(doc).wf(),
            old(self).owned_wf(),
            old(self).consistent(old(doc)@.nodes),
            old(self).child_ready(child, old(doc)@.nodes),
        ensures
            final(doc).wf(),
            final(self).spec_contents() == seq![child],
            final(self).spec_elem() == old(self).spec_elem(),
            final(self).root_id() == old(self).root_id(),
            final(self).owned_wf(),
            final(self).consistent(final(doc)@.nodes),
            final(doc)@.body == old(doc)@.body,
            final(doc)@.selection == old(doc)@.selection,
            final(doc)@.nodes.len() == old(doc)@.nodes.len(),
            final(doc)@.nodes[old(self).root_id() as int].children == seq![child.root_id()],
            forall|x: int|
                0 <= x < old(doc)@.nodes.len() ==> #[trigger] final(doc)@.nodes[x] == (if x
                    == old(self).root_id() {
                    with_children(old(doc)@.nodes[x], seq![child.root_id()])
                } else if x == child.root_id() {
                    with_parent(old(doc)@.nodes[x], Some(old(self).root_id()))
                } else if old(doc)@.nodes[old(self).root_id() as int].children.contains(
                    x as usize,
                ) {
                    with_parent(old(doc)@.nodes[x], None)
                } else {
                    old(doc)@.nodes[x]
                }),
    {
        proof {
            child.lemma_root_owned();
            child.lemma_owned_in_range(old(doc)@.nodes);
        }
        let ghost before = doc@.nodes;
        self.elem.attach_node(&child, doc);
        let mut fresh: Vec<C> = Vec::new();
        fresh.push(child);
        self.contents = fresh;
        proof {
            let after = doc@.nodes;
            let me = self.elem.id();
            assert(self.roots() =~= seq![self.contents@[0].root_id()]);
            assert(after[me as int].children == self.roots());
            assert(agree_on(before, after, self.contents@[0].owned())) by {
                self.contents@[0].lemma_owned_in_range(before);
                assert forall|n: usize|
                    self.contents@[0].owned().contains(n) implies n < before.len() && with_parent(
                    after[n as int],
                    None,
                ) == with_parent(before[n as int], None) by {
                    assert(n != me);
                }
            }
            self.contents@[0].lemma_frame(before, after);
            assert forall|i: int|
                0 <= i < self.contents@.len() implies (#[trigger] self.contents@[i]).consistent(
                after,
            ) by {
                assert(self.contents@[i] == self.contents@[0]);
            }
        }
    }

    /// Record an attribute on the owning element, shadow and external.
    pub fn set_attribute(&mut self, doc: &mut HostDoc, name: &str, value: &str)
        requires
            old(doc).wf(),
            old(self).owned_wf(),
            old(self).consistent(old(doc)@.nodes),
        ensures
            final(doc).wf(),
            final(self).spec_contents() == old(self).spec_contents(),
            final(self).root_id() == old(self).root_id(),
            final(self).owned() == old(self).owned(),
            final(self).owned_wf(),
            final(self).consistent(final(doc)@.nodes),
            final(self).spec_elem().shadow_attrs() == old(self).spec_elem().shadow_attrs().insert(
                name@,
                value@,
            ),
            final(doc)@.body == old(doc)@.body,
            final(doc)@.selection == old(doc)@.selection,
            final(doc)@.nodes == old(doc)@.nodes.update(
                old(self).root_id() as int,
                crate::host::with_attrs(
                    old(doc)@.nodes[old(self).root_id() as int],
                    old(doc)@.nodes[old(self).root_id() as int].attrs.insert(name@, value@),
                ),
            ),
    {
        let ghost before = doc@.nodes;
        self.elem.set_attribute(doc, name, value);
        proof {
            lemma_members_untouched::<C>(*old(self), *self, before, doc@.nodes);
        }
    }

    /// Register the handler on the owning element, shadow and external.
    pub fn set_onbeforeinput(&mut self, doc: &mut HostDoc, handler: u64)
        requires
            old(doc).wf(),
            old(self).owned_wf(),
            old(self).consistent(old(doc)@.nodes),
        ensures
            final(doc).wf(),
            final(self).spec_contents() == old(self).spec_contents(),
            final(self).root_id() == old(self).root_id(),
            final(self).owned() == old(self).owned(),
            final(self).owned_wf(),
            final(self).consistent(final(doc)@.nodes),
            final(self).spec_elem().shadow_handler() == Some(handler),
            final(doc)@.body == old(doc)@.body,
            final(doc)@.selection == old(doc)@.selection,
            final(doc)@.nodes == old(doc)@.nodes.update(
                old(self).root_id() as int,
                crate::host::with_handler(
                    old(doc)@.nodes[old(self).root_id() as int],
                    Some(handler),
                ),
            ),
    {
        let ghost before = doc@.nodes;
        self.elem.set_onbeforeinput(doc, handler);
        proof {
            lemma_members_untouched::<C>(*old(self), *self, before, doc@.nodes);
        }
    }
}

/// After a change that rewrote only the owning element's own data, every
/// member is still consistent.
proof fn lemma_members_untouched<C: Component>(
    v1: DomVec<C>,
    v2: DomVec<C>,
    before: Seq<NodeModel>,
    after: Seq<NodeModel>,
)
    requires
        v1.owned_wf(),
        v1.consistent(before),
        v2.spec_contents() == v1.spec_contents(),
        v2.spec_elem().id() == v1.spec_elem().id(),
        after.len() == before.len(),
        forall|x: int|
            0 <= x < before.len() && x != v1.spec_elem().id() ==> #[trigger] after[x] == before[x],
    ensures
        forall|i: int|
            0 <= i < v2.spec_contents().len() ==> (#[trigger] v2.spec_contents()[i]).consistent(
                after,
            ),
{
    assert forall|i: int|
        0 <= i < v2.spec_contents().len() implies (#[trigger] v2.spec_contents()[i]).consistent(
        after,
    ) by {
        let c = v1.spec_contents()[i];
        assert(c.consistent(before));
        c.lemma_owned_in_range(before);
        assert(agree_on(before, after, c.owned())) by {
            assert forall|n: usize| c.owned().contains(n) implies n < before.len() && with_parent(
                after[n as int],
                None,
            ) == with_parent(before[n as int], None) by {
                assert(v1.owned().contains(n));
                assert(n != v1.spec_elem().id());
                assert(after[n as int] == before[n as int]);
            }
        }
        c.lemma_frame(before, after);
    }
}

/// After adopting `child` at position `at` (one external insertion), the
/// container is consistent again.
proof fn lemma_adopt<C: Component>(
    v1: DomVec<C>,
    v2: DomVec<C>,
    child: C,
    before: Seq<NodeModel>,
    after: Seq<NodeModel>,
    at: int,
)
    requires
        v1.owned_wf(),
        v1.consistent(before),
        child.consistent(before),
        child.owned_wf(),
        v1.owned().disjoint(child.owned()),
        0 <= at <= v1.spec_contents().len(),
        v2.spec_contents() == v1.spec_contents().insert(at, child),
        v2.spec_elem() == v1.spec_elem(),
        after == before.update(
            v1.spec_elem().id() as int,
            with_children(
                before[v1.spec_elem().id() as int],
                before[v1.spec_elem().id() as int].children.insert(at, child.root_id()),
            ),
        ).update(
            child.root_id() as int,
            with_parent(before[child.root_id() as int], Some(v1.spec_elem().id())),
        ),
    ensures
        v2.owned_wf(),
        v2.consistent(after),
{
    let me = v1.spec_elem().id();
    child.lemma_root_owned();
    child.lemma_owned_in_range(before);
    assert(child.root_id() != me);
    assert(me < before.len());
    // the element's own data, parents aside, is unchanged
    assert(with_parent(after[me as int], None).attrs == before[me as int].attrs);
    assert(v2.spec_elem().consistent(after));
    // the new child list mirrors the new logical sequence
    assert(after[me as int].children =~= v2.roots()) by {
        assert(v1.spec_contents().insert(at, child).map_values(|c: C| c.root_id())
            =~= v1.roots().insert(at, child.root_id()));
    }
    // every member, old or new, is consistent afterwards
    assert forall|i: int|
        0 <= i < v2.spec_contents().len() implies (#[trigger] v2.spec_contents()[i]).consistent(
        after,
    ) by {
        let c = v2.spec_contents()[i];
        if i == at {
            assert(c == child);
        } else {
            let iorig = if i < at {
                i
            } else {
                i - 1
            };
            assert(c == v1.spec_contents()[iorig]);
        }
        assert(c.consistent(before));
        c.lemma_owned_in_range(before);
        assert(agree_on(before, after, c.owned())) by {
            assert forall|n: usize| c.owned().contains(n) implies n < before.len() && with_parent(
                after[n as int],
                None,
            ) == with_parent(before[n as int], None) by {
                if i == at {
                    assert(!v1.owned().contains(n));
                    assert(n != me);
                } else {
                    let iorig = if i < at {
                        i
                    } else {
                        i - 1
                    };
                    assert((#[trigger] v1.spec_contents()[iorig]).owned().contains(n));
                    assert(v1.owned().contains(n));
                    assert(n != me);
                    assert(!child.owned().contains(n));
                    assert(n != child.root_id());
                    assert(after[n as int] == before[n as int]);
                }
            }
        }
        c.lemma_frame(before, after);
    }
    // ownership bookkeeping carries over
    assert(v2.owned_wf()) by {
        assert forall|i: int, j: int|
            0 <= i < j < v2.spec_contents().len() implies (#[trigger] v2.spec_contents()[i]).owned().disjoint(
            (#[trigger] v2.spec_contents()[j]).owned(),
        ) by {
            lemma_adopt_disjoint::<C>(v1, v2, child, at, i, j);
        }
        assert forall|i: int|
            0 <= i < v2.spec_contents().len() implies !(#[trigger] v2.spec_contents()[i]).owned().contains(
            me,
        ) by {
            if i == at {
                assert(v1.owned().contains(me));
            } else {
                let iorig = if i < at {
                    i
                } else {
                    i - 1
                };
                assert(v1.spec_contents()[iorig] == v2.spec_contents()[i]);
            }
        }
        assert forall|i: int|
            0 <= i < v2.spec_contents().len() implies (#[trigger] v2.spec_contents()[i]).owned_wf() by {
            if i != at {
                let iorig = if i < at {
                    i
                } else {
                    i - 1
                };
                assert((#[trigger] v1.spec_contents()[iorig]).owned_wf());
                assert(v1.spec_contents()[iorig] == v2.spec_contents()[i]);
            }
        }
    }
}

/// Two distinct members of the sequence after adoption have disjoint
/// footprints.
proof fn lemma_adopt_disjoint<C: Component>(
    v1: DomVec<C>,
    v2: DomVec<C>,
    child: C,
    at: int,
    i: int,
    j: int,
)
    requires
        v1.owned_wf(),
        v1.owned().disjoint(child.owned()),
        0 <= at <= v1.spec_contents().len(),
        v2.spec_contents() == v1.spec_contents().insert(at, child),
        0 <= i < j < v2.spec_contents().len(),
    ensures
        v2.spec_contents()[i].owned().disjoint(v2.spec_contents()[j].owned()),
{
    let iorig = if i < at {
        i
    } else {
        i - 1
    };
    let jorig = if j < at {
        j
    } else {
        j - 1
    };
    if i == at {
        assert(v2.spec_contents()[i] == child);
        assert(v2.spec_contents()[j] == v1.spec_contents()[jorig]);
        assert forall|n: usize|
            child.owned().contains(n) implies !(#[trigger] v1.spec_contents()[jorig].owned().contains(
            n,
        )) by {
            if v1.spec_contents()[jorig].owned().contains(n) {
                assert(v1.owned().contains(n));
            }
        }
        assert(child.owned().disjoint(v1.spec_contents()[jorig].owned()));
    } else if j == at {
        assert(v2.spec_contents()[j] == child);
        assert(v2.spec_contents()[i] == v1.spec_contents()[iorig]);
        assert forall|n: usize|
            v1.spec_contents()[iorig].owned().contains(n) implies !child.owned().contains(n) by {
            assert(v1.owned().contains(n));
        }
        assert(v1.spec_contents()[iorig].owned().disjoint(child.owned()));
    } else {
        assert(v2.spec_contents()[i] == v1.spec_contents()[iorig]);
        assert(v2.spec_contents()[j] == v1.spec_contents()[jorig]);
        assert(iorig < jorig);
        assert(v1.spec_contents()[iorig].owned().disjoint(v1.spec_contents()[jorig].owned()));
    }
}

impl<C: Component> Component for DomVec<C> {
    open spec fn root_id(&self) -> usize {
        self.spec_elem().id()
    }

    open spec fn owned(&self) -> Set<usize> {
        Set::new(
            |n: usize|
                n == self.spec_elem().id() || exists|i: int|
                    0 <= i < self.spec_contents().len() && (#[trigger] self.spec_contents()[i]).owned().contains(n),
        )
    }

    open spec fn owned_wf(&self) -> bool {
        &&& self.spec_elem().wf()
        &&& forall|i: int|
            0 <= i < self.spec_contents().len() ==> (#[trigger] self.spec_contents()[i]).owned_wf()
        &&& forall|i: int, j: int|
            0 <= i < j < self.spec_contents().len() ==> (#[trigger] self.spec_contents()[i]).owned().disjoint(
                (#[trigger] self.spec_contents()[j]).owned(),
            )
        &&& forall|i: int|
            0 <= i < self.spec_contents().len() ==> !(#[trigger] self.spec_contents()[i]).owned().contains(
                self.spec_elem().id(),
            )
    }

    open spec fn consistent(&self, ns: Seq<NodeModel>) -> bool {
        &&& self.spec_elem().consistent(ns)
        &&& ns[self.spec_elem().id() as int].children == self.roots()
        &&& forall|i: int|
            0 <= i < self.spec_contents().len() ==> (#[trigger] self.spec_contents()[i]).consistent(
                ns,
            )
    }

    proof fn lemma_root_owned(&self) {
    }

    proof fn lemma_owned_in_range(&self, ns: Seq<NodeModel>) {
        assert forall|n: usize| self.owned().contains(n) implies n < ns.len() by {
            if n != self.spec_elem().id() {
                let i = choose|i: int|
                    0 <= i < self.spec_contents().len() && (#[trigger] self.spec_contents()[i]).owned().contains(
                        n,
                    );
                self.spec_contents()[i].lemma_owned_in_range(ns);
            }
        }
    }

    proof fn lemma_frame(&self, d1: Seq<NodeModel>, d2: Seq<NodeModel>) {
        let me = self.spec_elem().id();
        assert(self.owned().contains(me));
        assert(with_parent(d2[me as int], None) == with_parent(d1[me as int], None));
        assert forall|i: int|
            0 <= i < self.spec_contents().len() implies (#[trigger] self.spec_contents()[i]).consistent(
            d2,
        ) by {
            let c = self.spec_contents()[i];
            assert(agree_on(d1, d2, c.owned())) by {
                assert forall|n: usize| c.owned().contains(n) implies n < d1.len() && with_parent(
                    d2[n as int],
                    None,
                ) == with_parent(d1[n as int], None) by {
                    assert(self.owned().contains(n));
                }
            }
            c.lemma_frame(d1, d2);
        }
    }

    fn node(&self, tok: AccessToken) -> (n: NodeRef) {
        self.elem.node(tok)
    }

    fn audit(&self, doc: &HostDoc) -> (r: Result<(), AuditError>) {
        match self.elem.audit(doc) {
            Ok(()) => {},
            Err(e) => {
                return Err(e);
            },
        }
        let dom_children = self.elem.get_child_node_list(doc);
        let expected = self.contents.len();
        let actual = dom_children.length();
        if actual != expected {
            proof {
                assert(self.roots().len() == expected);
            }
            return Err(AuditError::ChildCount { expected, actual });
        }
        let mut index: usize = 0;
        while index < expected
            invariant
                doc.wf(),
                self.owned_wf(),
                expected == self.spec_contents().len(),
                index <= expected,
                self.spec_elem().consistent(doc@.nodes),
                dom_children@ == doc@.nodes[self.spec_elem().id() as int].children,
                dom_children@.len() == expected,
                forall|j: int|
                    0 <= j < index ==> (#[trigger] dom_children@[j])
                        == self.spec_contents()[j].root_id(),
                forall|j: int|
                    0 <= j < index ==> (#[trigger] self.spec_contents()[j]).consistent(doc@.nodes),
            decreases expected - index,
        {
            let member = &self.contents[index];
            match dom_children.audit_node(index, member) {
                Ok(()) => {},
                Err(e) => {
                    proof {
                        if self.consistent(doc@.nodes) {
                            assert(doc@.nodes[self.spec_elem().id() as int].children[index as int]
                                == self.roots()[index as int]);
                        }
                    }
                    return Err(e);
                },
            }
            match member.audit(doc) {
                Ok(()) => {},
                Err(e) => {
                    return Err(e);
                },
            }
            index = index + 1;
        }
        proof {
            assert(doc@.nodes[self.spec_elem().id() as int].children =~= self.roots());
        }
        Ok(())
    }

    fn detach(&self, doc: &mut HostDoc) {
        let ghost before = doc@.nodes;
        self.elem.detach(doc);
        proof {
            let after = doc@.nodes;
            let root = self.spec_elem().id();
            assert(agree_on(before, after, self.owned())) by {
                crate::host::lemma_parent_facts(old(doc)@, root);
                self.lemma_owned_in_range(before);
                match before[root as int].parent {
                    Some(p) => {
                        let kids = before[p as int].children;
                        let k = kids.index_of(root);
                        assert(after == before.update(
                            p as int,
                            with_children(before[p as int], kids.remove(k)),
                        ).update(root as int, with_parent(before[root as int], None)));
                        assert forall|n: usize| self.owned().contains(n) implies n < before.len()
                            && with_parent(after[n as int], None) == with_parent(
                            before[n as int],
                            None,
                        ) by {
                            if n == root {
                            } else {
                                assert(n != p);
                                assert(after[n as int] == before[n as int]);
                            }
                        }
                    },
                    None => {},
                }
            }
            self.lemma_frame(before, after);
        }
    }
}

impl<C: Component> ElementComponent for DomVec<C> {
    fn element(&self, tok: AccessToken) -> (e: ElementRef) {
        self.elem.element(tok)
    }

    proof fn lemma_root_element(&self, ns: Seq<NodeModel>) {
    }
}

} // verus!
