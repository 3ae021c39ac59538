//! Handles and capability layer over the host document.
//!
//! Raw node identities travel only inside [`NodeRef`]/[`ElementRef`] values,
//! which other modules can obtain solely through the [`Component`] interface
//! and can consume only by handing them back to functions of this module.
//! The [`AccessToken`] needed to extract an identity is constructible here
//! alone, so a component can never reach into a sibling's nodes: the only
//! sanctioned path is the sibling's own interface.

use crate::attrs::{audit_attrs, AttrList, AttrMismatch};
use crate::host::{
    agree_on, fresh_element_model, with_attrs, with_children, with_handler, with_parent, ElemTag,
    HostDoc, NodeKind, NodeModel,
};
use vstd::prelude::*;
use vstd::string::*;

verus! {

/// Proof that the caller is the trusted core: only this module can mint one.
pub struct AccessToken {
    hidden: (),
}

impl AccessToken {
    fn mint() -> AccessToken {
        AccessToken { hidden: () }
    }
}

/// A borrowed view of one external node, usable only with this module.
pub struct NodeRef {
    id: usize,
}

impl View for NodeRef {
    type V = usize;

    closed spec fn view(&self) -> usize {
        self.id
    }
}

/// A borrowed view of one external element, usable only with this module.
pub struct ElementRef {
    id: usize,
}

impl View for ElementRef {
    type V = usize;

    closed spec fn view(&self) -> usize {
        self.id
    }
}

/// The ways an audit can fail; each variant locates the offending entry.
#[derive(Debug)]
pub enum AuditError {
    /// The shadow and external attribute sets disagree.
    Attr(AttrMismatch),
    /// The shadow and external handler slots disagree.
    Handler { expected: Option<u64>, actual: Option<u64> },
    /// An owned node identity no longer names a node of the expected kind.
    StaleNode,
    /// The external child-list length differs from the logical length.
    ChildCount { expected: usize, actual: usize },
    /// The external child at this index is not the expected node.
    NodeMismatch { index: usize },
    /// Shadow text and external character data disagree.
    Text { expected: String, actual: String },
    /// A sequence was asked to check slots beyond the target's length.
    Length { offset: usize, length: usize },
    /// A body component is installed but the external document has no body.
    MissingBody,
    /// The external document has a body but no component is installed.
    UnexpectedBody,
}

/// A composable unit owning a subtree of the host document.
///
/// `consistent` states that the shadow state matches the host arena; it never
/// reads any parent link, so reparenting a component does not disturb it.
/// `owned` is the footprint: the set of host nodes the component answers
/// for; `owned_wf` is the construction-time discipline that the footprints
/// of the parts do not overlap.
pub trait Component: Sized {
    /// The identity of the subtree's root node.
    spec fn root_id(&self) -> usize;

    /// The identities of all host nodes this component owns.
    spec fn owned(&self) -> Set<usize>;

    /// Ownership discipline: the footprints of the parts are disjoint.
    spec fn owned_wf(&self) -> bool;

    /// The shadow state matches the host arena (parent links excepted).
    spec fn consistent(&self, ns: Seq<NodeModel>) -> bool;

    /// The root is part of the footprint.
    proof fn lemma_root_owned(&self)
        ensures
            self.owned().contains(self.root_id()),
    ;

    /// A consistent component's footprint lies inside the arena.
    proof fn lemma_owned_in_range(&self, ns: Seq<NodeModel>)
        requires
            self.consistent(ns),
        ensures
            forall|n: usize| self.owned().contains(n) ==> n < ns.len(),
    ;

    /// Consistency depends only on the owned nodes' data.
    proof fn lemma_frame(&self, d1: Seq<NodeModel>, d2: Seq<NodeModel>)
        requires
            self.consistent(d1),
            agree_on(d1, d2, self.owned()),
        ensures
            self.consistent(d2),
    ;

    /// Expose the root node; only the core can present the token.
    fn node(&self, tok: AccessToken) -> (n: NodeRef)
        ensures
            n@ == self.root_id(),
    ;

    /// Verify recursively that shadow state equals external state.
    /// `owned_wf` is the construction-time bookkeeping discipline; every
    /// constructor establishes it and every mutator keeps it, so it holds
    /// of any tree built through this core, whatever the host did.
    fn audit(&self, doc: &HostDoc) -> (r: Result<(), AuditError>)
        requires
            doc.wf(),
            self.owned_wf(),
        ensures
            r is Ok <==> self.consistent(doc@.nodes),
    ;

    /// Detach the root from its external parent, if any; the subtree and the
    /// shadow state are untouched.
    fn detach(&self, doc: &mut HostDoc)
        requires
            old(doc).wf(),
            self.consistent(old(doc)@.nodes),
            match old(doc)@.nodes[self.root_id() as int].parent {
                Some(p) => !self.owned().contains(p),
                None => true,
            },
        ensures
            final(doc).wf(),
            self.consistent(final(doc)@.nodes),
            final(doc)@.body == old(doc)@.body,
            final(doc)@.selection == old(doc)@.selection,
            final(doc)@.nodes.len() == old(doc)@.nodes.len(),
            final(doc)@.nodes[self.root_id() as int].parent is None,
            old(doc)@.nodes[self.root_id() as int].parent is None ==> final(doc)@.nodes == old(
                doc,
            )@.nodes,
            match old(doc)@.nodes[self.root_id() as int].parent {
                Some(p) => {
                    let kids = old(doc)@.nodes[p as int].children;
                    let k = kids.index_of(self.root_id());
                    &&& 0 <= k < kids.len()
                    &&& kids[k] == self.root_id()
                    &&& final(doc)@.nodes == old(doc)@.nodes.update(
                        p as int,
                        with_children(old(doc)@.nodes[p as int], kids.remove(k)),
                    ).update(
                        self.root_id() as int,
                        with_parent(old(doc)@.nodes[self.root_id() as int], None),
                    )
                },
                None => true,
            },
    ;
}

/// A component whose root is an element, not mere text.
pub trait ElementComponent: Component {
    /// Expose the root element; only the core can present the token.
    fn element(&self, tok: AccessToken) -> (e: ElementRef)
        ensures
            e@ == self.root_id(),
    ;

    /// A consistent root is an element node.
    proof fn lemma_root_element(&self, ns: Seq<NodeModel>)
        requires
            self.consistent(ns),
        ensures
            self.root_id() < ns.len(),
            ns[self.root_id() as int].kind is Element,
    ;
}

/// Exclusive owner of one external text node. The shadow copy of the
/// character data lives with the component that owns this handle.
pub struct TextHandle {
    node: usize,
}

impl TextHandle {
    /// The identity of the owned text node.
    pub closed spec fn id(&self) -> usize {
        self.node
    }

    /// The owned node exists and is a text node.
    pub open spec fn consistent(&self, ns: Seq<NodeModel>) -> bool {
        &&& self.id() < ns.len()
        &&& ns[self.id() as int].kind is Text
    }

    /// Create a fresh, detached, empty external text node and own it.
    pub fn new(doc: &mut HostDoc) -> (r: TextHandle)
        requires
            old(doc).wf(),
        ensures
            final(doc).wf(),
            r.id() == old(doc)@.nodes.len(),
            final(doc)@.nodes == old(doc)@.nodes.push(crate::host::fresh_text_model()),
            final(doc)@.body == old(doc)@.body,
            final(doc)@.selection == old(doc)@.selection,
            r.consistent(final(doc)@.nodes),
    {
        let id = doc.create_text();
        TextHandle { node: id }
    }

    pub fn node(&self, tok: AccessToken) -> (n: NodeRef)
        ensures
            n@ == self.id(),
    {
        NodeRef { id: self.node }
    }

    /// The external character data, as the host currently has it.
    pub fn data<'a>(&self, doc: &'a HostDoc) -> (r: &'a String)
        requires
            self.consistent(doc@.nodes),
        ensures
            r@ == doc@.nodes[self.id() as int].text,
    {
        doc.text_of(self.node)
    }

    /// Replace the external character data.
    pub fn set_data(&self, doc: &mut HostDoc, s: &str)
        requires
            old(doc).wf(),
            self.consistent(old(doc)@.nodes),
        ensures
            final(doc).wf(),
            final(doc)@.nodes == old(doc)@.nodes.update(
                self.id() as int,
                crate::host::with_text(old(doc)@.nodes[self.id() as int], s@),
            ),
            final(doc)@.body == old(doc)@.body,
            final(doc)@.selection == old(doc)@.selection,
    {
        doc.set_text(self.node, s);
    }

    /// Append to the external character data.
    pub fn append_data(&self, doc: &mut HostDoc, s: &str)
        requires
            old(doc).wf(),
            self.consistent(old(doc)@.nodes),
        ensures
            final(doc).wf(),
            final(doc)@.nodes == old(doc)@.nodes.update(
                self.id() as int,
                crate::host::with_text(
                    old(doc)@.nodes[self.id() as int],
                    old(doc)@.nodes[self.id() as int].text + s@,
                ),
            ),
            final(doc)@.body == old(doc)@.body,
            final(doc)@.selection == old(doc)@.selection,
    {
        doc.append_text(self.node, s);
    }

    /// Insert into the external character data at a character index.
    pub fn insert_data(&self, doc: &mut HostDoc, at: usize, s: &str)
        requires
            old(doc).wf(),
            self.consistent(old(doc)@.nodes),
            at <= old(doc)@.nodes[self.id() as int].text.len(),
        ensures
            final(doc).wf(),
            final(doc)@.nodes == old(doc)@.nodes.update(
                self.id() as int,
                crate::host::with_text(
                    old(doc)@.nodes[self.id() as int],
                    old(doc)@.nodes[self.id() as int].text.take(at as int) + s@ + old(
                        doc,
                    )@.nodes[self.id() as int].text.skip(at as int),
                ),
            ),
            final(doc)@.body == old(doc)@.body,
            final(doc)@.selection == old(doc)@.selection,
    {
        doc.insert_text(self.node, at, s);
    }

    /// Check that the owned node still is a text node and carries exactly
    /// the expected character data.
    pub fn audit_data(&self, doc: &HostDoc, expected: &str) -> (r: Result<(), AuditError>)
        requires
            doc.wf(),
        ensures
            r is Ok <==> self.consistent(doc@.nodes) && doc@.nodes[self.id() as int].text
                == expected@,
    {
        if self.node >= doc.n_nodes() {
            return Err(AuditError::StaleNode);
        }
        let is_text = match doc.kind_of(self.node) {
            NodeKind::Text => true,
            NodeKind::Element(_) => false,
        };
        if !is_text {
            return Err(AuditError::StaleNode);
        }
        let actual = doc.text_of(self.node);
        if crate::text::str_eq(expected, actual.as_str()) {
            Ok(())
        } else {
            Err(AuditError::Text {
                expected: String::from_str(expected),
                actual: String::from_str(actual.as_str()),
            })
        }
    }

    /// Detach the owned node from its external parent, if any.
    pub fn detach(&self, doc: &mut HostDoc)
        requires
            old(doc).wf(),
            self.id() < old(doc)@.nodes.len(),
        ensures
            final(doc).wf(),
            final(doc)@.body == old(doc)@.body,
            final(doc)@.selection == old(doc)@.selection,
            final(doc)@.nodes.len() == old(doc)@.nodes.len(),
            final(doc)@.nodes[self.id() as int].parent is None,
            old(doc)@.nodes[self.id() as int].parent is None ==> final(doc)@.nodes == old(
                doc,
            )@.nodes,
            match old(doc)@.nodes[self.id() as int].parent {
                Some(p) => {
                    let kids = old(doc)@.nodes[p as int].children;
                    let k = kids.index_of(self.id());
                    &&& 0 <= k < kids.len()
                    &&& kids[k] == self.id()
                    &&& final(doc)@.nodes == old(doc)@.nodes.update(
                        p as int,
                        with_children(old(doc)@.nodes[p as int], kids.remove(k)),
                    ).update(
                        self.id() as int,
                        with_parent(old(doc)@.nodes[self.id() as int], None),
                    )
                },
                None => true,
            },
    {
        let ghost oldm = old(doc)@;
        doc.remove_from_parent(self.node);
        proof {
            crate::host::lemma_parent_facts(oldm, self.id());
            match oldm.nodes[self.id() as int].parent {
                Some(p) => {
                    let kids = oldm.nodes[p as int].children;
                    let k = kids.index_of(self.id());
                    assert(doc@.nodes == oldm.nodes.update(
                        p as int,
                        with_children(oldm.nodes[p as int], kids.remove(k)),
                    ).update(self.id() as int, with_parent(oldm.nodes[self.id() as int], None)));
                    assert(doc@.nodes.len() == oldm.nodes.len());
                    assert(doc@.nodes[self.id() as int] == with_parent(
                        oldm.nodes[self.id() as int],
                        None,
                    ));
                },
                None => {
                    assert(doc@.nodes == oldm.nodes);
                },
            }
        }
    }
}

/// Exclusive owner of one external element: shadow attribute map, one
/// shadow handler slot, and the only legal paths to the element's external
/// attributes, children and handler.
pub struct ElementHandle {
    elem: usize,
    tag: ElemTag,
    attributes: AttrList,
    handler: Option<u64>,
}

impl ElementHandle {
    /// The identity of the owned element.
    pub closed spec fn id(&self) -> usize {
        self.elem
    }

    /// The element kind this handle was created with.
    pub closed spec fn spec_tag(&self) -> ElemTag {
        self.tag
    }

    /// The shadow attribute map.
    pub closed spec fn shadow_attrs(&self) -> Map<Seq<char>, Seq<char>> {
        self.attributes@
    }

    /// The shadow handler slot.
    pub closed spec fn shadow_handler(&self) -> Option<u64> {
        self.handler
    }

    /// Shadow bookkeeping is well formed.
    pub closed spec fn wf(&self) -> bool {
        self.attributes.wf()
    }

    /// The owned element exists, has the right kind, and its external
    /// attributes and handler equal the shadow copies.
    pub open spec fn consistent(&self, ns: Seq<NodeModel>) -> bool {
        &&& self.id() < ns.len()
        &&& ns[self.id() as int].kind == NodeKind::Element(self.spec_tag())
        &&& ns[self.id() as int].attrs == self.shadow_attrs()
        &&& ns[self.id() as int].handler == self.shadow_handler()
    }

    /// Create a fresh, detached element of the given kind and own it.
    fn new(doc: &mut HostDoc, tag: ElemTag) -> (r: ElementHandle)
        requires
            old(doc).wf(),
        ensures
            final(doc).wf(),
            r.id() == old(doc)@.nodes.len(),
            r.spec_tag() == tag,
            r.wf(),
            r.shadow_attrs() == Map::<Seq<char>, Seq<char>>::empty(),
            r.shadow_handler() is None,
            final(doc)@.nodes == old(doc)@.nodes.push(fresh_element_model(tag)),
            final(doc)@.body == old(doc)@.body,
            final(doc)@.selection == old(doc)@.selection,
            r.consistent(final(doc)@.nodes),
    {
        let id = doc.create_element(tag);
        ElementHandle { elem: id, tag, attributes: AttrList::new(), handler: None }
    }

    /// Append one component's root node to the owned element's children.
    pub fn append_node<C: Component>(&self, child: &C, doc: &mut HostDoc)
        requires
            old(doc).wf(),
            self.consistent(old(doc)@.nodes),
            child.consistent(old(doc)@.nodes),
            old(doc)@.nodes[child.root_id() as int].parent is None,
            child.root_id() != self.id(),
        ensures
            final(doc).wf(),
            final(doc)@.nodes == old(doc)@.nodes.update(
                self.id() as int,
                with_children(
                    old(doc)@.nodes[self.id() as int],
                    old(doc)@.nodes[self.id() as int].children.push(child.root_id()),
                ),
            ).update(
                child.root_id() as int,
                with_parent(old(doc)@.nodes[child.root_id() as int], Some(self.id())),
            ),
            final(doc)@.body == old(doc)@.body,
            final(doc)@.selection == old(doc)@.selection,
    {
        proof {
            child.lemma_root_owned();
            child.lemma_owned_in_range(old(doc)@.nodes);
        }
        let child_node = child.node(AccessToken::mint());
        doc.append_child(self.elem, child_node.id);
    }

    /// Insert one component's root node at the given index of the owned
    /// element's children.
    pub fn insert_node<C: Component>(&self, index: usize, child: &C, doc: &mut HostDoc)
        requires
            old(doc).wf(),
            self.consistent(old(doc)@.nodes),
            child.consistent(old(doc)@.nodes),
            old(doc)@.nodes[child.root_id() as int].parent is None,
            child.root_id() != self.id(),
            index <= old(doc)@.nodes[self.id() as int].children.len(),
        ensures
            final(doc).wf(),
            final(doc)@.nodes == old(doc)@.nodes.update(
                self.id() as int,
                with_children(
                    old(doc)@.nodes[self.id() as int],
                    old(doc)@.nodes[self.id() as int].children.insert(
                        index as int,
                        child.root_id(),
                    ),
                ),
            ).update(
                child.root_id() as int,
                with_parent(old(doc)@.nodes[child.root_id() as int], Some(self.id())),
            ),
            final(doc)@.body == old(doc)@.body,
            final(doc)@.selection == old(doc)@.selection,
    {
        proof {
            child.lemma_root_owned();
            child.lemma_owned_in_range(old(doc)@.nodes);
        }
        let child_node = child.node(AccessToken::mint());
        doc.insert_child(self.elem, index, child_node.id);
    }

    /// Atomically make one component's root node the only child.
    pub fn attach_node<C: Component>(&self, child: &C, doc: &mut HostDoc)
        requires
            old(doc).wf(),
            self.consistent(old(doc)@.nodes),
            child.consistent(old(doc)@.nodes),
            old(doc)@.nodes[child.root_id() as int].parent is None,
            child.root_id() != self.id(),
        ensures
            final(doc).wf(),
            final(doc)@.body == old(doc)@.body,
            final(doc)@.selection == old(doc)@.selection,
            final(doc)@.nodes.len() == old(doc)@.nodes.len(),
            final(doc)@.nodes[self.id() as int].children == seq![child.root_id()],
            forall|x: int|
                0 <= x < old(doc)@.nodes.len() ==> #[trigger] final(doc)@.nodes[x] == (if x
                    == self.id() {
                    with_children(old(doc)@.nodes[x], seq![child.root_id()])
                } else if x == child.root_id() {
                    with_parent(old(doc)@.nodes[x], Some(self.id()))
                } else if old(doc)@.nodes[self.id() as int].children.contains(x as usize) {
                    with_parent(old(doc)@.nodes[x], None)
                } else {
                    old(doc)@.nodes[x]
                }),
    {
        proof {
            child.lemma_root_owned();
            child.lemma_owned_in_range(old(doc)@.nodes);
        }
        let child_node = child.node(AccessToken::mint());
        let ids_vec: Vec<usize> = vec![child_node.id];
        proof {
            assert(ids_vec@ =~= seq![child.root_id()]);
        }
        doc.replace_children(self.elem, &ids_vec);
        proof {
            assert forall|x: int|
                0 <= x < old(doc)@.nodes.len() implies #[trigger] final(doc)@.nodes[x] == (if x
                == self.id() {
                with_children(old(doc)@.nodes[x], seq![child.root_id()])
            } else if x == child.root_id() {
                with_parent(old(doc)@.nodes[x], Some(self.id()))
            } else if old(doc)@.nodes[self.id() as int].children.contains(x as usize) {
                with_parent(old(doc)@.nodes[x], None)
            } else {
                old(doc)@.nodes[x]
            }) by {
                if x != self.id() {
                    crate::host::lemma_arena_bound(doc);
                    if ids_vec@.contains(x as usize) {
                        let i = choose|i: int|
                            0 <= i < ids_vec@.len() && #[trigger] ids_vec@[i] == x as usize;
                        assert(i == 0);
                        assert(x == child.root_id());
                    } else {
                        assert(x != child.root_id()) by {
                            if x == child.root_id() {
                                assert(ids_vec@[0] == x as usize);
                                assert(ids_vec@.contains(x as usize));
                            }
                        }
                    }
                }
            }
        }
    }

    /// Atomically replace the owned element's external children with exactly
    /// the nodes recorded in the array, in order.
    pub fn attach_nodes(&self, children: ArrayHandle, doc: &mut HostDoc)
        requires
            old(doc).wf(),
            self.consistent(old(doc)@.nodes),
            forall|k: int|
                0 <= k < children@.len() ==> ((#[trigger] children@[k]) matches Some(id)
                    && id < old(doc)@.nodes.len() && id != self.id() && old(
                    doc,
                )@.nodes[id as int].parent is None),
            forall|k: int, l: int|
                0 <= k < l < children@.len() ==> #[trigger] children@[k] != #[trigger] children@[l],
        ensures
            final(doc).wf(),
            final(doc)@.body == old(doc)@.body,
            final(doc)@.selection == old(doc)@.selection,
            final(doc)@.nodes.len() == old(doc)@.nodes.len(),
            final(doc)@.nodes[self.id() as int].children.len() == children@.len(),
            forall|k: int|
                0 <= k < children@.len() ==> Some(
                    #[trigger] final(doc)@.nodes[self.id() as int].children[k],
                ) == children@[k],
            forall|x: int|
                0 <= x < old(doc)@.nodes.len() ==> #[trigger] final(doc)@.nodes[x] == (if x
                    == self.id() {
                    with_children(
                        old(doc)@.nodes[x],
                        final(doc)@.nodes[self.id() as int].children,
                    )
                } else if children@.contains(Some(x as usize)) {
                    with_parent(old(doc)@.nodes[x], Some(self.id()))
                } else if old(doc)@.nodes[self.id() as int].children.contains(x as usize) {
                    with_parent(old(doc)@.nodes[x], None)
                } else {
                    old(doc)@.nodes[x]
                }),
    {
        let n = children.length();
        let mut ids_vec: Vec<usize> = Vec::new();
        let mut i: usize = 0;
        while i < n
            invariant
                i <= n,
                n == children@.len(),
                ids_vec@.len() == i,
                forall|k: int|
                    0 <= k < children@.len() ==> ((#[trigger] children@[k]) matches Some(id) && id
                        < old(doc)@.nodes.len() && id != self.id() && old(
                        doc,
                    )@.nodes[id as int].parent is None),
                forall|k: int| 0 <= k < i ==> Some(#[trigger] ids_vec@[k]) == children@[k],
            decreases n - i,
        {
            let entry = children.get(i);
            match entry {
                Some(id) => {
                    ids_vec.push(id);
                },
                None => {
                    proof {
                        assert(children@[i as int] matches Some(_));
                    }
                    // unreachable: every slot was checked to be filled
                    proof {
                        assert(false);
                    }
                },
            }
            i = i + 1;
        }
        proof {
            assert forall|k: int, l: int| 0 <= k < l < ids_vec@.len() implies ids_vec@[k]
                != ids_vec@[l] by {
                assert(Some(ids_vec@[k]) == children@[k]);
                assert(Some(ids_vec@[l]) == children@[l]);
            }
        }
        let ghost before = doc@;
        doc.replace_children(self.elem, &ids_vec);
        proof {
            assert(final(doc)@.nodes[self.id() as int].children == ids_vec@);
            assert forall|x: int|
                0 <= x < before.nodes.len() implies #[trigger] final(doc)@.nodes[x] == (if x
                == self.id() {
                with_children(old(doc)@.nodes[x], final(doc)@.nodes[self.id() as int].children)
            } else if children@.contains(Some(x as usize)) {
                with_parent(old(doc)@.nodes[x], Some(self.id()))
            } else if old(doc)@.nodes[self.id() as int].children.contains(x as usize) {
                with_parent(old(doc)@.nodes[x], None)
            } else {
                old(doc)@.nodes[x]
            }) by {
                assert(ids_vec@.contains(x as usize) <==> children@.contains(Some(x as usize)))
                    by {
                    if ids_vec@.contains(x as usize) {
                        let k = choose|k: int|
                            0 <= k < ids_vec@.len() && #[trigger] ids_vec@[k] == x as usize;
                        assert(children@[k] == Some(x as usize));
                    } else if children@.contains(Some(x as usize)) {
                        let k = choose|k: int|
                            0 <= k < children@.len() && #[trigger] children@[k] == Some(
                                x as usize,
                            );
                        assert(ids_vec@[k] == x as usize);
                    }
                }
            }
        }
    }

    /// Record an attribute in the shadow map and write it through to the
    /// external element. Always succeeds.
    pub fn set_attribute(&mut self, doc: &mut HostDoc, name: &str, value: &str)
        requires
            old(doc).wf(),
            old(self).wf(),
            old(self).consistent(old(doc)@.nodes),
        ensures
            final(self).wf(),
            final(doc).wf(),
            final(self).id() == old(self).id(),
            final(self).spec_tag() == old(self).spec_tag(),
            final(self).shadow_handler() == old(self).shadow_handler(),
            final(self).shadow_attrs() == old(self).shadow_attrs().insert(name@, value@),
            final(self).consistent(final(doc)@.nodes),
            final(doc)@.nodes == old(doc)@.nodes.update(
                old(self).id() as int,
                with_attrs(
                    old(doc)@.nodes[old(self).id() as int],
                    old(doc)@.nodes[old(self).id() as int].attrs.insert(name@, value@),
                ),
            ),
            final(doc)@.body == old(doc)@.body,
            final(doc)@.selection == old(doc)@.selection,
    {
        self.attributes.set(name, value);
        doc.set_attribute(self.elem, name, value);
    }

    /// Record the one handler slot in the shadow state and register it
    /// externally.
    pub fn set_onbeforeinput(&mut self, doc: &mut HostDoc, handler: u64)
        requires
            old(doc).wf(),
            old(self).wf(),
            old(self).consistent(old(doc)@.nodes),
        ensures
            final(self).wf(),
            final(doc).wf(),
            final(self).id() == old(self).id(),
            final(self).spec_tag() == old(self).spec_tag(),
            final(self).shadow_attrs() == old(self).shadow_attrs(),
            final(self).shadow_handler() == Some(handler),
            final(self).consistent(final(doc)@.nodes),
            final(doc)@.nodes == old(doc)@.nodes.update(
                old(self).id() as int,
                with_handler(old(doc)@.nodes[old(self).id() as int], Some(handler)),
            ),
            final(doc)@.body == old(doc)@.body,
            final(doc)@.selection == old(doc)@.selection,
    {
        self.handler = Some(handler);
        doc.set_handler(self.elem, Some(handler));
    }

    /// Check the shadow attributes and handler against the external element:
    /// every shadow attribute must be present externally with the identical
    /// value, every external attribute must have a shadow counterpart, and
    /// the handler slots must agree.
    pub fn audit(&self, doc: &HostDoc) -> (r: Result<(), AuditError>)
        requires
            doc.wf(),
            self.wf(),
        ensures
            r is Ok <==> self.consistent(doc@.nodes),
    {
        if self.elem >= doc.n_nodes() {
            return Err(AuditError::StaleNode);
        }
        let kind_ok = match doc.kind_of(self.elem) {
            NodeKind::Element(t) => t == self.tag,
            NodeKind::Text => false,
        };
        if !kind_ok {
            return Err(AuditError::StaleNode);
        }
        let external = doc.attrs_of(self.elem);
        match audit_attrs(&self.attributes, external) {
            Ok(()) => {},
            Err(m) => {
                return Err(AuditError::Attr(m));
            },
        }
        let external_handler = doc.handler_of(self.elem);
        let handler_ok = match (self.handler, external_handler) {
            (Some(a), Some(b)) => a == b,
            (None, None) => true,
            _ => false,
        };
        if !handler_ok {
            return Err(AuditError::Handler { expected: self.handler, actual: external_handler });
        }
        Ok(())
    }

    pub fn element(&self, tok: AccessToken) -> (e: ElementRef)
        ensures
            e@ == self.id(),
    {
        ElementRef { id: self.elem }
    }

    pub fn node(&self, tok: AccessToken) -> (n: NodeRef)
        ensures
            n@ == self.id(),
    {
        NodeRef { id: self.elem }
    }

    /// A snapshot of the owned element's external child list.
    pub fn get_child_node_list(&self, doc: &HostDoc) -> (r: NodeListHandle)
        requires
            self.id() < doc@.nodes.len(),
        ensures
            r@ == doc@.nodes[self.id() as int].children,
    {
        NodeListHandle { items: doc.children_of(self.elem) }
    }

    /// Detach the owned element from its external parent, if any.
    pub fn detach(&self, doc: &mut HostDoc)
        requires
            old(doc).wf(),
            self.id() < old(doc)@.nodes.len(),
        ensures
            final(doc).wf(),
            final(doc)@.body == old(doc)@.body,
            final(doc)@.selection == old(doc)@.selection,
            final(doc)@.nodes.len() == old(doc)@.nodes.len(),
            final(doc)@.nodes[self.id() as int].parent is None,
            old(doc)@.nodes[self.id() as int].parent is None ==> final(doc)@.nodes == old(
                doc,
            )@.nodes,
            match old(doc)@.nodes[self.id() as int].parent {
                Some(p) => {
                    let kids = old(doc)@.nodes[p as int].children;
                    let k = kids.index_of(self.id());
                    &&& 0 <= k < kids.len()
                    &&& kids[k] == self.id()
                    &&& final(doc)@.nodes == old(doc)@.nodes.update(
                        p as int,
                        with_children(old(doc)@.nodes[p as int], kids.remove(k)),
                    ).update(
                        self.id() as int,
                        with_parent(old(doc)@.nodes[self.id() as int], None),
                    )
                },
                None => true,
            },
    {
        let ghost oldm = old(doc)@;
        doc.remove_from_parent(self.elem);
        proof {
            crate::host::lemma_parent_facts(oldm, self.id());
            match oldm.nodes[self.id() as int].parent {
                Some(p) => {
                    let kids = oldm.nodes[p as int].children;
                    let k = kids.index_of(self.id());
                    assert(doc@.nodes == oldm.nodes.update(
                        p as int,
                        with_children(oldm.nodes[p as int], kids.remove(k)),
                    ).update(self.id() as int, with_parent(oldm.nodes[self.id() as int], None)));
                    assert(doc@.nodes.len() == oldm.nodes.len());
                    assert(doc@.nodes[self.id() as int] == with_parent(
                        oldm.nodes[self.id() as int],
                        None,
                    ));
                },
                None => {
                    assert(doc@.nodes == oldm.nodes);
                },
            }
        }
    }
}

/// A read-only snapshot of an external node list.
pub struct NodeListHandle {
    items: Vec<usize>,
}

impl View for NodeListHandle {
    type V = Seq<usize>;

    closed spec fn view(&self) -> Seq<usize> {
        self.items@
    }
}

impl NodeListHandle {
    pub fn length(&self) -> (r: usize)
        ensures
            r == self@.len(),
    {
        self.items.len()
    }

    /// Check that entry `index` is exactly the given component's root node.
    pub fn audit_node<C: Component>(&self, index: usize, child: &C) -> (r: Result<
        (),
        AuditError,
    >)
        ensures
            r is Ok <==> index < self@.len() && self@[index as int] == child.root_id(),
    {
        let child_node = child.node(AccessToken::mint());
        if index < self.items.len() && self.items[index] == child_node.id {
            Ok(())
        } else {
            Err(AuditError::NodeMismatch { index })
        }
    }
}

/// A pre-sized array of node slots, filled one identity at a time and then
/// attached in a single atomic replace.
pub struct ArrayHandle {
    slots: Vec<Option<usize>>,
}

impl View for ArrayHandle {
    type V = Seq<Option<usize>>;

    closed spec fn view(&self) -> Seq<Option<usize>> {
        self.slots@
    }
}

impl ArrayHandle {
    pub fn length(&self) -> (r: usize)
        ensures
            r == self@.len(),
    {
        self.slots.len()
    }

    /// A new array with the given number of empty slots.
    pub fn new_with_length(len: usize) -> (r: ArrayHandle)
        ensures
            r@.len() == len,
            forall|k: int| 0 <= k < len ==> (#[trigger] r@[k]) is None,
    {
        let slots: Vec<Option<usize>> = vec![None; len];
        ArrayHandle { slots }
    }

    pub fn get(&self, index: usize) -> (r: Option<usize>)
        requires
            index < self@.len(),
        ensures
            r == self@[index as int],
    {
        self.slots[index]
    }

    /// Record a component's root node in slot `index`.
    pub fn set<C: Component>(&mut self, index: usize, child: &C)
        requires
            index < old(self)@.len(),
        ensures
            final(self)@ == old(self)@.update(index as int, Some(child.root_id())),
    {
        let child_node = child.node(AccessToken::mint());
        self.slots[index] = Some(child_node.id);
    }
}

/// A reader over a node the core does not own, used to walk up from
/// host-selected nodes.
pub struct NodeReader {
    id: usize,
}

impl View for NodeReader {
    type V = usize;

    closed spec fn view(&self) -> usize {
        self.id
    }
}

impl NodeReader {
    /// The node's external parent, if any.
    pub fn parent_node(&self, doc: &HostDoc) -> (r: Option<NodeReader>)
        requires
            self@ < doc@.nodes.len(),
        ensures
            match r {
                Some(n) => doc@.nodes[self@ as int].parent == Some(n@),
                None => doc@.nodes[self@ as int].parent is None,
            },
    {
        match doc.parent_of(self.id) {
            Some(p) => Some(NodeReader { id: p }),
            None => None,
        }
    }

    /// The node's external parent, if it exists and is an element.
    pub fn parent_lement(&self, doc: &HostDoc) -> (r: Option<ElementReader>)
        requires
            doc.wf(),
            self@ < doc@.nodes.len(),
        ensures
            match r {
                Some(e) => doc@.nodes[self@ as int].parent == Some(e@) && e@ < doc@.nodes.len()
                    && doc@.nodes[e@ as int].kind is Element,
                None => doc@.nodes[self@ as int].parent is None || !(doc@.nodes[doc@.nodes[self@ as int].parent->Some_0 as int].kind is Element),
            },
    {
        proof {
            crate::host::lemma_parent_facts(doc@, self.id);
        }
        match doc.parent_of(self.id) {
            Some(p) => match doc.kind_of(p) {
                NodeKind::Element(_) => Some(ElementReader { id: p }),
                NodeKind::Text => None,
            },
            None => None,
        }
    }
}

/// A reader over an element the core does not own.
pub struct ElementReader {
    id: usize,
}

impl View for ElementReader {
    type V = usize;

    closed spec fn view(&self) -> usize {
        self.id
    }
}

impl ElementReader {
    /// View a node reader as an element reader, when the node is an
    /// element; hand the node reader back otherwise.
    pub fn from_node(value: NodeReader, doc: &HostDoc) -> (r: Result<ElementReader, NodeReader>)
        requires
            value@ < doc@.nodes.len(),
        ensures
            match r {
                Ok(e) => e@ == value@ && doc@.nodes[value@ as int].kind is Element,
                Err(n) => n@ == value@ && !(doc@.nodes[value@ as int].kind is Element),
            },
    {
        match doc.kind_of(value.id) {
            NodeKind::Element(_) => Ok(ElementReader { id: value.id }),
            NodeKind::Text => Err(value),
        }
    }

    pub fn parent_node(&self, doc: &HostDoc) -> (r: Option<NodeReader>)
        requires
            self@ < doc@.nodes.len(),
        ensures
            match r {
                Some(n) => doc@.nodes[self@ as int].parent == Some(n@),
                None => doc@.nodes[self@ as int].parent is None,
            },
    {
        match doc.parent_of(self.id) {
            Some(p) => Some(NodeReader { id: p }),
            None => None,
        }
    }

    pub fn parent_lement(&self, doc: &HostDoc) -> (r: Option<ElementReader>)
        requires
            doc.wf(),
            self@ < doc@.nodes.len(),
        ensures
            match r {
                Some(e) => doc@.nodes[self@ as int].parent == Some(e@) && e@ < doc@.nodes.len()
                    && doc@.nodes[e@ as int].kind is Element,
                None => doc@.nodes[self@ as int].parent is None || !(doc@.nodes[doc@.nodes[self@ as int].parent->Some_0 as int].kind is Element),
            },
    {
        proof {
            crate::host::lemma_parent_facts(doc@, self.id);
        }
        match doc.parent_of(self.id) {
            Some(p) => match doc.kind_of(p) {
                NodeKind::Element(_) => Some(ElementReader { id: p }),
                NodeKind::Text => None,
            },
            None => None,
        }
    }

    /// Read one attribute of the viewed element.
    pub fn get_attr(&self, doc: &HostDoc, attr: &str) -> (r: Option<String>)
        requires
            doc.wf(),
            self@ < doc@.nodes.len(),
        ensures
            match r {
                Some(v) => doc@.nodes[self@ as int].attrs.contains_key(attr@) && v@
                    == doc@.nodes[self@ as int].attrs[attr@],
                None => !doc@.nodes[self@ as int].attrs.contains_key(attr@),
            },
    {
        match doc.attr_of(self.id, attr) {
            Some(v) => Some(String::from_str(v.as_str())),
            None => None,
        }
    }
}

/// A view of the host's current selection.
pub struct SelectionHandle {
    hidden: (),
}

impl SelectionHandle {
    pub fn get_focus_node(&self, doc: &HostDoc) -> (r: Option<NodeReader>)
        ensures
            match r {
                Some(n) => doc@.selection matches Some(s) && n@ == s.focus_node,
                None => doc@.selection is None,
            },
    {
        match doc.selection_of() {
            Some(s) => Some(NodeReader { id: s.focus_node }),
            None => None,
        }
    }

    pub fn get_anchor_node(&self, doc: &HostDoc) -> (r: Option<NodeReader>)
        ensures
            match r {
                Some(n) => doc@.selection matches Some(s) && n@ == s.anchor_node,
                None => doc@.selection is None,
            },
    {
        match doc.selection_of() {
            Some(s) => Some(NodeReader { id: s.anchor_node }),
            None => None,
        }
    }

    pub fn get_focus_offset(&self, doc: &HostDoc) -> (r: usize)
        ensures
            r == (match doc@.selection {
                Some(s) => s.focus_offset,
                None => 0usize,
            }),
    {
        match doc.selection_of() {
            Some(s) => s.focus_offset,
            None => 0,
        }
    }

    pub fn get_anchor_offset(&self, doc: &HostDoc) -> (r: usize)
        ensures
            r == (match doc@.selection {
                Some(s) => s.anchor_offset,
                None => 0usize,
            }),
    {
        match doc.selection_of() {
            Some(s) => s.anchor_offset,
            None => 0,
        }
    }
}

/// The factory for owned element handles; the only construction path.
#[derive(Clone)]
pub struct ElementFactory {
    hidden: bool,
}

impl ElementFactory {
    pub fn div(&self, doc: &mut HostDoc) -> (r: ElementHandle)
        requires
            old(doc).wf(),
        ensures
            final(doc).wf(),
            r.id() == old(doc)@.nodes.len(),
            r.spec_tag() == ElemTag::Div,
            r.wf(),
            r.shadow_attrs() == Map::<Seq<char>, Seq<char>>::empty(),
            r.shadow_handler() is None,
            final(doc)@.nodes == old(doc)@.nodes.push(fresh_element_model(ElemTag::Div)),
            final(doc)@.body == old(doc)@.body,
            final(doc)@.selection == old(doc)@.selection,
            r.consistent(final(doc)@.nodes),
    {
        ElementHandle::new(doc, ElemTag::Div)
    }

    pub fn span(&self, doc: &mut HostDoc) -> (r: ElementHandle)
        requires
            old(doc).wf(),
        ensures
            final(doc).wf(),
            r.id() == old(doc)@.nodes.len(),
            r.spec_tag() == ElemTag::Span,
            r.wf(),
            r.shadow_attrs() == Map::<Seq<char>, Seq<char>>::empty(),
            r.shadow_handler() is None,
            final(doc)@.nodes == old(doc)@.nodes.push(fresh_element_model(ElemTag::Span)),
            final(doc)@.body == old(doc)@.body,
            final(doc)@.selection == old(doc)@.selection,
            r.consistent(final(doc)@.nodes),
    {
        ElementHandle::new(doc, ElemTag::Span)
    }

    pub fn p(&self, doc: &mut HostDoc) -> (r: ElementHandle)
        requires
            old(doc).wf(),
        ensures
            final(doc).wf(),
            r.id() == old(doc)@.nodes.len(),
            r.spec_tag() == ElemTag::P,
            r.wf(),
            r.shadow_attrs() == Map::<Seq<char>, Seq<char>>::empty(),
            r.shadow_handler() is None,
            final(doc)@.nodes == old(doc)@.nodes.push(fresh_element_model(ElemTag::P)),
            final(doc)@.body == old(doc)@.body,
            final(doc)@.selection == old(doc)@.selection,
            r.consistent(final(doc)@.nodes),
    {
        ElementHandle::new(doc, ElemTag::P)
    }

    pub fn br(&self, doc: &mut HostDoc) -> (r: ElementHandle)
        requires
            old(doc).wf(),
        ensures
            final(doc).wf(),
            r.id() == old(doc)@.nodes.len(),
            r.spec_tag() == ElemTag::Br,
            r.wf(),
            r.shadow_attrs() == Map::<Seq<char>, Seq<char>>::empty(),
            r.shadow_handler() is None,
            final(doc)@.nodes == old(doc)@.nodes.push(fresh_element_model(ElemTag::Br)),
            final(doc)@.body == old(doc)@.body,
            final(doc)@.selection == old(doc)@.selection,
            r.consistent(final(doc)@.nodes),
    {
        ElementHandle::new(doc, ElemTag::Br)
    }

    pub fn body(&self, doc: &mut HostDoc) -> (r: ElementHandle)
        requires
            old(doc).wf(),
        ensures
            final(doc).wf(),
            r.id() == old(doc)@.nodes.len(),
            r.spec_tag() == ElemTag::Body,
            r.wf(),
            r.shadow_attrs() == Map::<Seq<char>, Seq<char>>::empty(),
            r.shadow_handler() is None,
            final(doc)@.nodes == old(doc)@.nodes.push(fresh_element_model(ElemTag::Body)),
            final(doc)@.body == old(doc)@.body,
            final(doc)@.selection == old(doc)@.selection,
            r.consistent(final(doc)@.nodes),
    {
        ElementHandle::new(doc, ElemTag::Body)
    }
}

/// The root: owns at most one body component and the top-level audit.
pub struct DocumentHandle<B: ElementComponent> {
    body: Option<B>,
}

impl<B: ElementComponent> Default for DocumentHandle<B> {
    /// An empty root: no body installed yet.
    fn default() -> (r: Self)
        ensures
            r.spec_body() is None,
    {
        DocumentHandle { body: None }
    }
}

impl<B: ElementComponent> DocumentHandle<B> {
    /// If a body component is installed, the external document's body is
    /// exactly its root, and the component is consistent.
    pub open spec fn consistent(&self, d: crate::host::DocModel) -> bool {
        match self.spec_body() {
            Some(b) => d.body == Some(b.root_id()) && b.consistent(d.nodes),
            None => d.body is None,
        }
    }

    pub closed spec fn spec_body(&self) -> Option<B> {
        self.body
    }


    pub fn body(&self) -> (r: Option<&B>)
        ensures
            match r {
                Some(b) => self.spec_body() == Some(*b),
                None => self.spec_body() is None,
            },
    {
        self.body.as_ref()
    }

    pub fn body_mut(&mut self) -> (r: Option<&mut B>)
        ensures
            old(self).spec_body() is Some <==> r is Some,
            r is None ==> *final(self) == *old(self),
            r matches Some(b) ==> *b == old(self).spec_body()->Some_0 && final(self).spec_body()
                == Some(*final(b)),
    {
        match &mut self.body {
            Some(b) => Some(b),
            None => None,
        }
    }

    /// Install a component as the document body, replacing any previous one.
    pub fn set_body(&mut self, body: B, doc: &mut HostDoc)
        requires
            old(doc).wf(),
            body.consistent(old(doc)@.nodes),
            old(doc)@.nodes[body.root_id() as int].parent is None,
        ensures
            final(doc).wf(),
            final(self).spec_body() == Some(body),
            final(self).consistent(final(doc)@),
            final(doc)@.nodes == old(doc)@.nodes,
            final(doc)@.body == Some(body.root_id()),
            final(doc)@.selection == old(doc)@.selection,
    {
        proof {
            body.lemma_root_element(old(doc)@.nodes);
        }
        let body_elem = body.element(AccessToken::mint());
        doc.set_body(body_elem.id);
        self.body = Some(body);
    }

    pub fn element_factory(&self) -> ElementFactory {
        ElementFactory { hidden: false }
    }

    pub fn get_selection(&self) -> (r: Option<SelectionHandle>)
        ensures
            r is Some,
    {
        Some(SelectionHandle { hidden: () })
    }

    /// Verify that the installed body (or its absence) matches the external
    /// document, then audit the body recursively.
    pub fn audit(&self, doc: &HostDoc) -> (r: Result<(), AuditError>)
        requires
            doc.wf(),
            match self.spec_body() {
                Some(b) => b.owned_wf(),
                None => true,
            },
        ensures
            r is Ok <==> self.consistent(doc@),
    {
        match (&self.body, doc.body_of()) {
            (Some(b), Some(external)) => {
                let root = b.node(AccessToken::mint());
                if root.id != external {
                    return Err(AuditError::NodeMismatch { index: 0 });
                }
                b.audit(doc)
            },
            (Some(_), None) => Err(AuditError::MissingBody),
            (None, Some(_)) => Err(AuditError::UnexpectedBody),
            (None, None) => Ok(()),
        }
    }
}

} // verus!
