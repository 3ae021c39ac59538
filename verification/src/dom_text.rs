//! A text component: a shadow string that is kept in lockstep with one
//! external text node. The interface allows assignment, appending and
//! insertion at a character index, and the contracts say that after every
//! mutator the shadow and the external character data are the same sequence.

use crate::host::{agree_on, fresh_text_model, with_text, HostDoc, NodeModel};
use crate::web_support::{AccessToken, AuditError, Component, NodeRef, TextHandle};
use vstd::prelude::*;
use vstd::string::*;

verus! {

/// A string mirrored into one external text node.
pub struct DomText {
    contents: String,
    text_node: TextHandle,
}

impl DomText {
    /// The shadow contents.
    pub closed spec fn shadow(&self) -> Seq<char> {
        self.contents@
    }

    /// The handle owning the external text node.
    pub closed spec fn spec_node(&self) -> TextHandle {
        self.text_node
    }

    /// Create a text component over a fresh external text node holding the
    /// given string.
    pub fn new(doc: &mut HostDoc, string: &str) -> (r: DomText)
        requires
            old(doc).wf(),
        ensures
            final(doc).wf(),
            r.root_id() == old(doc)@.nodes.len(),
            r.shadow() == string@,
            r.owned() == Set::<usize>::empty().insert(r.root_id()),
            r.owned_wf(),
            r.consistent(final(doc)@.nodes),
            final(doc)@.nodes == old(doc)@.nodes.push(
                with_text(fresh_text_model(), string@),
            ),
            final(doc)@.nodes[r.root_id() as int].parent is None,
            final(doc)@.body == old(doc)@.body,
            final(doc)@.selection == old(doc)@.selection,
    {
        let text_node = TextHandle::new(doc);
        text_node.set_data(doc, string);
        let contents = String::from_str(string);
        let r = DomText { contents, text_node };
        proof {
            assert(final(doc)@.nodes =~= old(doc)@.nodes.push(
                with_text(fresh_text_model(), string@),
            ));
        }
        r
    }

    /// The shadow contents, for reading.
    pub fn get_data(&self) -> (r: &String)
        ensures
            r@ == self.shadow(),
    {
        &self.contents
    }

    /// Append to the text, in the shadow and externally.
    pub fn push_str(&mut self, doc: &mut HostDoc, string: &str)
        requires
            old(doc).wf(),
            old(self).consistent(old(doc)@.nodes),
        ensures
            final(doc).wf(),
            final(self).root_id() == old(self).root_id(),
            final(self).owned() == old(self).owned(),
            final(self).owned_wf(),
            final(self).shadow() == old(self).shadow() + string@,
            final(self).consistent(final(doc)@.nodes),
            final(doc)@.nodes == old(doc)@.nodes.update(
                old(self).root_id() as int,
                with_text(
                    old(doc)@.nodes[old(self).root_id() as int],
                    old(self).shadow() + string@,
                ),
            ),
            final(doc)@.body == old(doc)@.body,
            final(doc)@.selection == old(doc)@.selection,
    {
        self.contents.append(string);
        self.text_node.append_data(doc, string);
    }

    /// Replace the text, in the shadow and externally.
    pub fn set_data(&mut self, doc: &mut HostDoc, string: &str)
        requires
            old(doc).wf(),
            old(self).consistent(old(doc)@.nodes),
        ensures
            final(doc).wf(),
            final(self).root_id() == old(self).root_id(),
            final(self).owned() == old(self).owned(),
            final(self).owned_wf(),
            final(self).shadow() == string@,
            final(self).consistent(final(doc)@.nodes),
            final(doc)@.nodes == old(doc)@.nodes.update(
                old(self).root_id() as int,
                with_text(old(doc)@.nodes[old(self).root_id() as int], string@),
            ),
            final(doc)@.body == old(doc)@.body,
            final(doc)@.selection == old(doc)@.selection,
    {
        self.contents = String::from_str(string);
        self.text_node.set_data(doc, string);
    }

    /// Insert at a character index, in the shadow and externally. An index
    /// past the end appends, as converting it to a position clamps.
    pub fn insert_at_char(&mut self, doc: &mut HostDoc, char_idx: usize, string: &str)
        requires
            old(doc).wf(),
            old(self).consistent(old(doc)@.nodes),
        ensures
            final(doc).wf(),
            final(self).root_id() == old(self).root_id(),
            final(self).owned() == old(self).owned(),
            final(self).owned_wf(),
            final(self).shadow() == old(self).shadow().take(
                vstd::math::min(char_idx as int, old(self).shadow().len() as int),
            ) + string@ + old(self).shadow().skip(
                vstd::math::min(char_idx as int, old(self).shadow().len() as int),
            ),
            final(self).consistent(final(doc)@.nodes),
            final(doc)@.nodes == old(doc)@.nodes.update(
                old(self).root_id() as int,
                with_text(old(doc)@.nodes[old(self).root_id() as int], final(self).shadow()),
            ),
            final(doc)@.body == old(doc)@.body,
            final(doc)@.selection == old(doc)@.selection,
    {
        let total = self.contents.as_str().unicode_len();
        let at = if char_idx < total {
            char_idx
        } else {
            total
        };
        let prefix = self.contents.as_str().substring_char(0, at);
        let mut built = String::from_str(prefix);
        built.append(string);
        let suffix = self.contents.as_str().substring_char(at, total);
        built.append(suffix);
        self.text_node.insert_data(doc, at, string);
        self.contents = built;
        proof {
            assert(old(self).shadow().subrange(0, at as int) == old(self).shadow().take(
                at as int,
            ));
            assert(old(self).shadow().subrange(at as int, total as int) == old(
                self,
            ).shadow().skip(at as int));
        }
    }
}

impl Component for DomText {
    open spec fn root_id(&self) -> usize {
        self.spec_node().id()
    }

    open spec fn owned(&self) -> Set<usize> {
        Set::empty().insert(self.spec_node().id())
    }

    open spec fn owned_wf(&self) -> bool {
        true
    }

    open spec fn consistent(&self, ns: Seq<NodeModel>) -> bool {
        &&& self.spec_node().consistent(ns)
        &&& ns[self.spec_node().id() as int].text == self.shadow()
    }

    proof fn lemma_root_owned(&self) {
    }

    proof fn lemma_owned_in_range(&self, ns: Seq<NodeModel>) {
    }

    proof fn lemma_frame(&self, d1: Seq<NodeModel>, d2: Seq<NodeModel>) {
        let id = self.text_node.id();
        assert(self.owned().contains(id));
        assert(crate::host::with_parent(d2[id as int], None) == crate::host::with_parent(
            d1[id as int],
            None,
        ));
        assert(d2[id as int].kind == d1[id as int].kind);
        assert(d2[id as int].text == d1[id as int].text);
    }

    fn node(&self, tok: AccessToken) -> (n: NodeRef) {
        self.text_node.node(tok)
    }

    fn audit(&self, doc: &HostDoc) -> (r: Result<(), AuditError>) {
        self.text_node.audit_data(doc, self.contents.as_str())
    }

    fn detach(&self, doc: &mut HostDoc) {
        self.text_node.detach(doc);
        proof {
            let d1 = old(doc)@.nodes;
            let d2 = doc@.nodes;
            let root = self.text_node.id();
            assert(agree_on(d1, d2, self.owned())) by {
                crate::host::lemma_parent_facts(old(doc)@, root);
                match d1[root as int].parent {
                    Some(p) => {
                        let kids = d1[p as int].children;
                        let k = kids.index_of(root);
                        assert(d2 == d1.update(
                            p as int,
                            crate::host::with_children(d1[p as int], kids.remove(k)),
                        ).update(root as int, crate::host::with_parent(d1[root as int], None)));
                        assert(d2[root as int] == crate::host::with_parent(
                            d1[root as int],
                            None,
                        ));
                    },
                    None => {},
                }
            }
            self.lemma_frame(d1, d2);
        }
    }
}

} // verus!
