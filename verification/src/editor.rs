//! A small line editor built on the core containers: a vector of edit
//! lines, each a text plus a line break under one element, with a logical
//! view of the host selection. This module consumes the component
//! contracts; the structural guarantees all come from the containers.

use crate::dom_br::DomBr;
use crate::dom_struct::{DomStruct, Structure};
use crate::dom_text::DomText;
use crate::dom_vec::DomVec;
use crate::host::{DocModel, HostDoc, NodeModel};
use crate::text::{dec_rep, parse_spec, parse_usize, usize_to_string};
use crate::web_support::{
    AccessToken, AuditError, Component, ElementComponent, ElementFactory, ElementReader,
    ElementRef, NodeReader, NodeRef, SelectionHandle,
};
use vstd::prelude::*;
use vstd::string::*;

verus! {

/// One line: a text component and a line break under one element.
pub type DomEditLine = DomStruct<(DomText, (DomBr, ()))>;

/// The selection area in the logical model's view: anchor and focus, each a
/// line number and a column.
#[derive(Debug, Clone, Copy, PartialEq, Eq)]
pub struct LogicSelection {
    pub anchor: (usize, usize),
    pub focus: (usize, usize),
}

/// Lexicographic order on (line, column) positions.
pub open spec fn pos_le(a: (usize, usize), b: (usize, usize)) -> bool {
    a.0 < b.0 || (a.0 == b.0 && a.1 <= b.1)
}

impl LogicSelection {
    /// A collapsed selection: anchor and focus at the same position.
    pub fn new_cursor(r: usize, c: usize) -> (s: LogicSelection)
        ensures
            s.anchor == (r, c),
            s.focus == (r, c),
            s.anchor == s.focus,
    {
        LogicSelection { anchor: (r, c), focus: (r, c) }
    }

    pub fn new(anchor: (usize, usize), focus: (usize, usize)) -> (s: LogicSelection)
        ensures
            s.anchor == anchor,
            s.focus == focus,
    {
        LogicSelection { anchor, focus }
    }

    /// Whether the selection is collapsed to a single position.
    pub fn is_cursor(&self) -> (r: bool)
        ensures
            r == (self.anchor == self.focus),
    {
        self.anchor.0 == self.focus.0 && self.anchor.1 == self.focus.1
    }

    /// The selected area as a range from the earlier position to the later,
    /// in lexicographic order.
    pub fn to_area(self) -> (r: core::ops::Range<(usize, usize)>)
        ensures
            pos_le(r.start, r.end),
            (r.start == self.anchor && r.end == self.focus) || (r.start == self.focus && r.end
                == self.anchor),
            pos_le(self.anchor, self.focus) ==> r.start == self.anchor && r.end == self.focus,
    {
        let earlier_anchor = self.anchor.0 < self.focus.0 || (self.anchor.0 == self.focus.0
            && self.anchor.1 <= self.focus.1);
        if earlier_anchor {
            self.anchor..self.focus
        } else {
            self.focus..self.anchor
        }
    }
}

/// One edit line with its identity attribute.
pub struct EditLine {
    dom_editline: DomEditLine,
    id: usize,
}

/// The attribute name that carries a line's identity.
pub open spec fn id_attr_key() -> Seq<char> {
    "data-editline-id"@
}

impl EditLine {
    /// The line's identity.
    pub closed spec fn spec_id(&self) -> usize {
        self.id
    }

    /// The underlying fixed-shape container.
    pub closed spec fn spec_dom(&self) -> DomEditLine {
        self.dom_editline
    }

    /// The line's text contents.
    pub closed spec fn spec_text(&self) -> Seq<char> {
        self.dom_editline.spec_contents().0.shadow()
    }

    pub fn line_id(&self) -> (r: usize)
        ensures
            r == self.spec_id(),
    {
        self.id
    }

    /// The number of characters in the line's text.
    pub fn text_char_count(&self) -> (r: usize)
        ensures
            r == self.spec_text().len(),
    {
        self.dom_editline.get().0.get_data().as_str().unicode_len()
    }

    /// Build one line: a greeting text and a line break under a fresh
    /// element carrying the identity attribute.
    pub fn new(factory: &ElementFactory, id: usize, doc: &mut HostDoc) -> (r: EditLine)
        requires
            old(doc).wf(),
        ensures
            final(doc).wf(),
            r.spec_id() == id,
            r.owned_wf(),
            r.consistent(final(doc)@.nodes),
            final(doc)@.nodes[r.root_id() as int].parent is None,
            r.spec_text() == "Hello World, id "@ + dec_rep(id as nat),
            final(doc)@.nodes[r.root_id() as int].attrs == Map::<Seq<char>, Seq<char>>::empty(
            ).insert(id_attr_key(), dec_rep(id as nat)),
            final(doc)@.body == old(doc)@.body,
            final(doc)@.selection == old(doc)@.selection,
            old(doc)@.nodes.len() <= final(doc)@.nodes.len(),
            forall|n: usize|
                r.owned().contains(n) ==> old(doc)@.nodes.len() <= n < final(doc)@.nodes.len(),
            forall|x: int|
                0 <= x < old(doc)@.nodes.len() ==> #[trigger] final(doc)@.nodes[x] == old(
                    doc,
                )@.nodes[x],
    {
        let ghost d0 = doc@.nodes;
        let mut greeting = String::from_str("Hello World, id ");
        let id_string = usize_to_string(id);
        greeting.append(id_string.as_str());
        let text = DomText::new(doc, greeting.as_str());
        let ghost d1 = doc@.nodes;
        let br_elem = factory.br(doc);
        let ghost d2 = doc@.nodes;
        proof {
            lemma_still_consistent(&text, d1, d2);
        }
        let line_break: DomBr = DomStruct::new((), br_elem, doc);
        let ghost d3 = doc@.nodes;
        proof {
            lemma_still_consistent(&text, d2, d3);
        }
        let div = factory.div(doc);
        let ghost d4 = doc@.nodes;
        proof {
            lemma_still_consistent(&text, d3, d4);
            lemma_still_consistent(&line_break, d3, d4);
        }
        let contents = (text, (line_break, ()));
        let mut dom_editline: DomEditLine = DomStruct::new(contents, div, doc);
        dom_editline.set_attribute(doc, "data-editline-id", id_string.as_str());
        let r = EditLine { dom_editline, id };
        proof {
            assert(doc@.nodes[r.root_id() as int].attrs =~= Map::<Seq<char>, Seq<char>>::empty(
            ).insert(id_attr_key(), dec_rep(id as nat)));
        }
        r
    }
}

/// Appending fresh nodes to the arena disturbs no existing component.
proof fn lemma_still_consistent<C: Component>(c: &C, d1: Seq<NodeModel>, d2: Seq<NodeModel>)
    requires
        c.consistent(d1),
        d1.len() <= d2.len(),
        forall|x: int| 0 <= x < d1.len() ==> #[trigger] d2[x] == d1[x],
    ensures
        c.consistent(d2),
{
    c.lemma_owned_in_range(d1);
    assert(crate::host::agree_on(d1, d2, c.owned()));
    c.lemma_frame(d1, d2);
}

impl Component for EditLine {
    open spec fn root_id(&self) -> usize {
        self.spec_dom().root_id()
    }

    open spec fn owned(&self) -> Set<usize> {
        self.spec_dom().owned()
    }

    open spec fn owned_wf(&self) -> bool {
        self.spec_dom().owned_wf()
    }

    open spec fn consistent(&self, ns: Seq<NodeModel>) -> bool {
        self.spec_dom().consistent(ns)
    }

    proof fn lemma_root_owned(&self) {
        self.dom_editline.lemma_root_owned();
    }

    proof fn lemma_owned_in_range(&self, ns: Seq<NodeModel>) {
        self.dom_editline.lemma_owned_in_range(ns);
    }

    proof fn lemma_frame(&self, d1: Seq<NodeModel>, d2: Seq<NodeModel>) {
        self.dom_editline.lemma_frame(d1, d2);
    }

    fn node(&self, tok: AccessToken) -> (n: NodeRef) {
        self.dom_editline.node(tok)
    }

    fn audit(&self, doc: &HostDoc) -> (r: Result<(), AuditError>) {
        self.dom_editline.audit(doc)
    }

    fn detach(&self, doc: &mut HostDoc) {
        self.dom_editline.detach(doc);
    }
}

impl ElementComponent for EditLine {
    fn element(&self, tok: AccessToken) -> (e: ElementRef) {
        self.dom_editline.element(tok)
    }

    proof fn lemma_root_element(&self, ns: Seq<NodeModel>) {
        self.dom_editline.lemma_root_element(ns);
    }
}

/// Walk from a node towards the root until an element carrying the
/// identity attribute is found, and parse it; `fuel` bounds the walk.
pub open spec fn find_id_spec(ns: Seq<NodeModel>, n: usize, fuel: nat) -> Option<usize>
    decreases fuel,
{
    if fuel == 0 {
        None
    } else if ns[n as int].kind is Element && ns[n as int].attrs.contains_key(id_attr_key()) {
        parse_spec(ns[n as int].attrs[id_attr_key()])
    } else {
        match ns[n as int].parent {
            Some(p) => find_id_spec(ns, p, (fuel - 1) as nat),
            None => None,
        }
    }
}

/// Find the identity of the line containing a host node, by walking up to
/// the nearest element that carries the identity attribute.
///
/// A host-divergent state (an unparsable identity value, a detached chain,
/// a parent cycle) yields nothing here, the same as a node that simply lies
/// outside the editable area; `audit` is the tool that tells the two apart.
pub fn find_id_from_node(node: NodeReader, doc: &HostDoc) -> (r: Option<usize>)
    requires
        doc.wf(),
        node@ < doc@.nodes.len(),
    ensures
        r == find_id_spec(doc@.nodes, node@, doc@.nodes.len() as nat),
{
    let total = doc.n_nodes();
    let mut fuel = total;
    let mut cur = node;
    loop
        invariant
            doc.wf(),
            cur@ < doc@.nodes.len(),
            fuel <= total,
            total == doc@.nodes.len(),
            find_id_spec(doc@.nodes, cur@, fuel as nat) == find_id_spec(
                doc@.nodes,
                node@,
                total as nat,
            ),
        decreases fuel,
    {
        if fuel == 0 {
            return None;
        }
        let step = ElementReader::from_node(cur, doc);
        match step {
            Ok(e) => {
                match e.get_attr(doc, "data-editline-id") {
                    Some(v) => {
                        return parse_usize(v.as_str());
                    },
                    None => {
                        match e.parent_node(doc) {
                            Some(pr) => {
                                proof {
                                    crate::host::lemma_parent_facts(doc@, cur@);
                                }
                                cur = pr;
                                fuel = fuel - 1;
                            },
                            None => {
                                return None;
                            },
                        }
                    },
                }
            },
            Err(nr) => {
                match nr.parent_node(doc) {
                    Some(pr) => {
                        proof {
                            crate::host::lemma_parent_facts(doc@, cur@);
                        }
                        cur = pr;
                        fuel = fuel - 1;
                    },
                    None => {
                        return None;
                    },
                }
            },
        }
    }
}

/// The first line with the given identity, scanning from `i`.
pub open spec fn line_of(lines: Seq<EditLine>, id: usize, i: int) -> Option<int>
    decreases lines.len() - i,
{
    if i < 0 || i >= lines.len() {
        None
    } else if lines[i].spec_id() == id {
        Some(i)
    } else {
        line_of(lines, id, i + 1)
    }
}

/// What the logical selection is, given the host document and the lines:
/// the host selection's anchor and focus are mapped to line identities and
/// then to line numbers; an endpoint outside the editable area falls back
/// to the start or the end of the text.
pub open spec fn logic_selection_spec(d: DocModel, lines: Seq<EditLine>) -> Option<LogicSelection> {
    match d.selection {
        None => None,
        Some(sel) => {
            let fuel = d.nodes.len() as nat;
            let anchor_id = find_id_spec(d.nodes, sel.anchor_node, fuel);
            let focus_id = find_id_spec(d.nodes, sel.focus_node, fuel);
            match (anchor_id, focus_id) {
                (Some(aid), Some(fid)) => match (line_of(lines, aid, 0), line_of(lines, fid, 0)) {
                    (Some(ai), Some(fi)) => Some(
                        LogicSelection {
                            anchor: (ai as usize, sel.anchor_offset),
                            focus: (fi as usize, sel.focus_offset),
                        },
                    ),
                    _ => None,
                },
                (Some(aid), None) => match line_of(lines, aid, 0) {
                    Some(ai) => if lines.len() > 0 {
                        Some(
                            LogicSelection {
                                anchor: (ai as usize, sel.anchor_offset),
                                focus: (
                                    (lines.len() - 1) as usize,
                                    lines.last().spec_text().len() as usize,
                                ),
                            },
                        )
                    } else {
                        None
                    },
                    None => None,
                },
                (None, Some(fid)) => match line_of(lines, fid, 0) {
                    Some(fi) => Some(
                        LogicSelection { anchor: (0, 0), focus: (fi as usize, sel.focus_offset) },
                    ),
                    None => None,
                },
                (None, None) => None,
            }
        },
    }
}

/// The editor: a vector of lines under one content-editable element, plus
/// the factory and the selection view it works with.
pub struct _Editor {
    dom_editor: DomVec<EditLine>,
    dom_selection: SelectionHandle,
    factory: ElementFactory,
    next_id: usize,
}

impl _Editor {
    /// The underlying line container.
    pub closed spec fn spec_dom_editor(&self) -> DomVec<EditLine> {
        self.dom_editor
    }

    pub open spec fn spec_lines(&self) -> Seq<EditLine> {
        self.spec_dom_editor().spec_contents()
    }

    pub closed spec fn spec_next_id(&self) -> usize {
        self.next_id
    }

    /// The shadow slot of the editor element's input handler.
    pub open spec fn spec_shadow_handler(&self) -> Option<u64> {
        self.spec_dom_editor().spec_elem().shadow_handler()
    }

    /// A fresh, empty editor under a new content-editable element.
    pub fn new(factory: ElementFactory, dom_selection: SelectionHandle, doc: &mut HostDoc) -> (r:
        _Editor)
        requires
            old(doc).wf(),
        ensures
            final(doc).wf(),
            r.owned_wf(),
            r.consistent(final(doc)@.nodes),
            r.spec_lines().len() == 0,
            r.spec_next_id() == 0,
            r.spec_shadow_handler() is None,
            final(doc)@.nodes[r.root_id() as int].parent is None,
            final(doc)@.nodes[r.root_id() as int].attrs == Map::<Seq<char>, Seq<char>>::empty(
            ).insert("class"@, "textentry"@).insert("contenteditable"@, "true"@).insert(
                "spellcheck"@,
                "false"@,
            ),
            final(doc)@.body == old(doc)@.body,
            final(doc)@.selection == old(doc)@.selection,
            old(doc)@.nodes.len() <= final(doc)@.nodes.len(),
            forall|n: usize|
                r.owned().contains(n) ==> old(doc)@.nodes.len() <= n < final(doc)@.nodes.len(),
            forall|x: int|
                0 <= x < old(doc)@.nodes.len() ==> #[trigger] final(doc)@.nodes[x] == old(
                    doc,
                )@.nodes[x],
    {
        let mut div = factory.div(doc);
        div.set_attribute(doc, "class", "textentry");
        div.set_attribute(doc, "contenteditable", "true");
        div.set_attribute(doc, "spellcheck", "false");
        let dom_editor = DomVec::new(div, doc);
        let r = _Editor { dom_editor, dom_selection, factory, next_id: 0 };
        proof {
            assert(doc@.nodes[r.root_id() as int].attrs =~= Map::<Seq<char>, Seq<char>>::empty(
            ).insert("class"@, "textentry"@).insert("contenteditable"@, "true"@).insert(
                "spellcheck"@,
                "false"@,
            ));
        }
        r
    }

    /// Create a fresh line and insert it at `index`.
    pub fn insert(&mut self, index: usize, doc: &mut HostDoc)
        requires
            old(doc).wf(),
            old(self).owned_wf(),
            old(self).consistent(old(doc)@.nodes),
            index <= old(self).spec_lines().len(),
            old(self).spec_next_id() < usize::MAX,
        ensures
            final(doc).wf(),
            final(self).owned_wf(),
            final(self).consistent(final(doc)@.nodes),
            final(self).spec_lines().len() == old(self).spec_lines().len() + 1,
            final(self).spec_lines()[index as int].spec_id() == old(self).spec_next_id(),
            forall|j: int|
                0 <= j < index ==> final(self).spec_lines()[j] == old(self).spec_lines()[j],
            forall|j: int|
                index < j < final(self).spec_lines().len() ==> final(self).spec_lines()[j] == old(
                    self,
                ).spec_lines()[j - 1],
            final(self).spec_next_id() == old(self).spec_next_id() + 1,
            final(self).root_id() == old(self).root_id(),
            final(self).spec_shadow_handler() == old(self).spec_shadow_handler(),
            final(doc)@.body == old(doc)@.body,
            final(doc)@.selection == old(doc)@.selection,
    {
        let ghost d0 = doc@.nodes;
        let line = EditLine::new(&self.factory, self.next_id, doc);
        let ghost d1 = doc@.nodes;
        proof {
            lemma_still_consistent(&*self, d0, d1);
            self.lemma_owned_in_range(d0);
            assert(self.dom_editor.owned().disjoint(line.owned())) by {
                assert forall|n: usize|
                    self.dom_editor.owned().contains(n) implies !line.owned().contains(n) by {
                    assert(self.owned().contains(n));
                }
            }
        }
        self.dom_editor.insert(index, line, doc);
        self.next_id = self.next_id + 1;
    }

    /// Map the host selection into the logical model's view. Yields nothing
    /// when either endpoint cannot be resolved to a line, except that a
    /// single resolvable endpoint widens to the start or end of the text.
    ///
    /// An endpoint that fails to resolve because the host diverged (say, an
    /// identity attribute rewritten behind this module's back) is treated
    /// like one outside the editable area; run `audit` to distinguish them.
    pub fn get_logic_seletion(&self, doc: &HostDoc) -> (r: Option<LogicSelection>)
        requires
            doc.wf(),
        ensures
            r == logic_selection_spec(doc@, self.spec_lines()),
    {
        let anchor = match self.dom_selection.get_anchor_node(doc) {
            Some(n) => n,
            None => {
                return None;
            },
        };
        let focus = match self.dom_selection.get_focus_node(doc) {
            Some(n) => n,
            None => {
                return None;
            },
        };
        let anchor_id = find_id_from_node(anchor, doc);
        let focus_id = find_id_from_node(focus, doc);
        match (anchor_id, focus_id) {
            (Some(aid), Some(fid)) => {
                let anchor_line = self.find_line(aid);
                let focus_line = self.find_line(fid);
                match (anchor_line, focus_line) {
                    (Some(ai), Some(fi)) => Some(
                        LogicSelection::new(
                            (ai, self.dom_selection.get_anchor_offset(doc)),
                            (fi, self.dom_selection.get_focus_offset(doc)),
                        ),
                    ),
                    _ => None,
                }
            },
            (Some(aid), None) => {
                match self.find_line(aid) {
                    Some(ai) => {
                        match self.dom_editor.last() {
                            Some(last_line) => {
                                let count = self.dom_editor.len();
                                Some(
                                    LogicSelection::new(
                                        (ai, self.dom_selection.get_anchor_offset(doc)),
                                        (count - 1, last_line.text_char_count()),
                                    ),
                                )
                            },
                            None => None,
                        }
                    },
                    None => None,
                }
            },
            (None, Some(fid)) => {
                match self.find_line(fid) {
                    Some(fi) => Some(
                        LogicSelection::new((0, 0), (fi, self.dom_selection.get_focus_offset(doc))),
                    ),
                    None => None,
                }
            },
            (None, None) => None,
        }
    }

    /// The line number carrying the given identity, if any.
    fn find_line(&self, id: usize) -> (r: Option<usize>)
        ensures
            match r {
                Some(i) => line_of(self.spec_lines(), id, 0) == Some(i as int),
                None => line_of(self.spec_lines(), id, 0) is None,
            },
    {
        let count = self.dom_editor.len();
        let mut i: usize = 0;
        while i < count
            invariant
                i <= count,
                count == self.spec_lines().len(),
                line_of(self.spec_lines(), id, 0) == line_of(self.spec_lines(), id, i as int),
            decreases count - i,
        {
            match self.dom_editor.get(i) {
                Some(line) => {
                    if line.line_id() == id {
                        return Some(i);
                    }
                },
                None => {
                    proof {
                        assert(false);
                    }
                },
            }
            i = i + 1;
        }
        None
    }
}

impl Component for _Editor {
    open spec fn root_id(&self) -> usize {
        self.spec_dom_editor().root_id()
    }

    open spec fn owned(&self) -> Set<usize> {
        self.spec_dom_editor().owned()
    }

    open spec fn owned_wf(&self) -> bool {
        self.spec_dom_editor().owned_wf()
    }

    open spec fn consistent(&self, ns: Seq<NodeModel>) -> bool {
        self.spec_dom_editor().consistent(ns)
    }

    proof fn lemma_root_owned(&self) {
        self.dom_editor.lemma_root_owned();
    }

    proof fn lemma_owned_in_range(&self, ns: Seq<NodeModel>) {
        self.dom_editor.lemma_owned_in_range(ns);
    }

    proof fn lemma_frame(&self, d1: Seq<NodeModel>, d2: Seq<NodeModel>) {
        self.dom_editor.lemma_frame(d1, d2);
    }

    fn node(&self, tok: AccessToken) -> (n: NodeRef) {
        self.dom_editor.node(tok)
    }

    fn audit(&self, doc: &HostDoc) -> (r: Result<(), AuditError>) {
        self.dom_editor.audit(doc)
    }

    fn detach(&self, doc: &mut HostDoc) {
        self.dom_editor.detach(doc);
    }
}

impl ElementComponent for _Editor {
    fn element(&self, tok: AccessToken) -> (e: ElementRef) {
        self.dom_editor.element(tok)
    }

    proof fn lemma_root_element(&self, ns: Seq<NodeModel>) {
        self.dom_editor.lemma_root_element(ns);
    }
}

/// The editor as handed to the application: initialized with a registered
/// input handler and a few starting lines.
pub struct Editor {
    inner: _Editor,
}

impl Editor {
    pub closed spec fn spec_inner(&self) -> _Editor {
        self.inner
    }

    /// Build an editor, register the input handler, and seed three lines.
    pub fn new(
        factory: ElementFactory,
        dom_selection: SelectionHandle,
        doc: &mut HostDoc,
        handler: u64,
    ) -> (r: Editor)
        requires
            old(doc).wf(),
        ensures
            final(doc).wf(),
            r.spec_inner().owned_wf(),
            r.spec_inner().consistent(final(doc)@.nodes),
            r.spec_inner().spec_lines().len() == 3,
            r.spec_inner().spec_lines()[0].spec_id() == 0,
            r.spec_inner().spec_lines()[1].spec_id() == 2,
            r.spec_inner().spec_lines()[2].spec_id() == 1,
            r.spec_inner().spec_next_id() == 3,
            r.spec_inner().spec_shadow_handler() == Some(handler),
            final(doc)@.nodes[r.spec_inner().root_id() as int].handler == Some(handler),
            final(doc)@.body == old(doc)@.body,
            final(doc)@.selection == old(doc)@.selection,
    {
        let mut inner = _Editor::new(factory, dom_selection, doc);
        inner.dom_editor.set_onbeforeinput(doc, handler);
        inner.insert(0, doc);
        inner.insert(1, doc);
        inner.insert(1, doc);
        proof {
            // the shadow slot still carries the handler, and consistency
            // carries it through to the host slot
            assert(inner.spec_dom_editor().spec_elem().consistent(doc@.nodes));
            assert(doc@.nodes[inner.root_id() as int].handler == Some(handler));
        }
        Editor { inner }
    }

    /// Read access to the editor.
    pub fn editor(&self) -> (r: &_Editor)
        ensures
            r == self.spec_inner(),
    {
        &self.inner
    }
}

} // verus!
