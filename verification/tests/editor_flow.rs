//! End-to-end checks: a whole document tree built through the core's
//! constructors audits cleanly after any mutator sequence, and the editor
//! maps the host selection into its logical view.

use trunkfun::dom_struct::DomStruct;
use trunkfun::editor::{EditLine, Editor, LogicSelection, _Editor};
use trunkfun::host::{HostDoc, HostSelection, NodeKind};
use trunkfun::web_support::{AuditError, Component, DocumentHandle};

type Body = DomStruct<(_Editor, ())>;

/// Find the text node holding exactly this character data.
fn find_text_node(doc: &HostDoc, wanted: &str) -> usize {
    let mut n = 0;
    while n < doc.n_nodes() {
        if matches!(doc.kind_of(n), NodeKind::Text) && doc.text_of(n).as_str() == wanted {
            return n;
        }
        n += 1;
    }
    panic!("no text node holds {wanted:?}");
}

#[test]
fn built_tree_audits_cleanly_after_mutations() {
    let mut doc = HostDoc::new();
    let mut handle: DocumentHandle<Body> = DocumentHandle::default();
    let f = handle.element_factory();
    let sel = handle.get_selection().unwrap();
    let editor = _Editor::new(f.clone(), sel, &mut doc);
    let body_elem = f.body(&mut doc);
    let body = Body::new((editor, ()), body_elem, &mut doc);
    handle.set_body(body, &mut doc);
    assert!(matches!(handle.audit(&doc), Ok(())));

    // a burst of mutator calls, then a clean audit again
    {
        let body = handle.body_mut().unwrap();
        let ed = &mut body.get_mut().0;
        ed.insert(0, &mut doc);
        ed.insert(1, &mut doc);
        ed.insert(2, &mut doc);
        ed.insert(1, &mut doc);
    }
    assert!(matches!(handle.audit(&doc), Ok(())));
}

#[test]
fn body_mismatch_is_detected() {
    let mut doc = HostDoc::new();
    let mut handle: DocumentHandle<Body> = DocumentHandle::default();
    let f = handle.element_factory();
    let sel = handle.get_selection().unwrap();
    let editor = _Editor::new(f.clone(), sel, &mut doc);
    let body_elem = f.body(&mut doc);
    let body = Body::new((editor, ()), body_elem, &mut doc);
    handle.set_body(body, &mut doc);
    assert!(matches!(handle.audit(&doc), Ok(())));
    // the host installs a different body element
    let other = f.div(&mut doc);
    drop(other);
    doc.set_body(doc.n_nodes() - 1);
    assert!(matches!(handle.audit(&doc), Err(_)));
}

#[test]
fn edit_line_carries_its_identity() {
    let mut doc = HostDoc::new();
    let handle: DocumentHandle<EditLine> = DocumentHandle::default();
    let f = handle.element_factory();
    let line = EditLine::new(&f, 7, &mut doc);
    assert!(matches!(line.audit(&doc), Ok(())));
    // the line's text node, break and element were created in order
    assert_eq!(doc.attr_of(2, "data-editline-id").unwrap().as_str(), "7");
    assert_eq!(doc.text_of(0).as_str(), "Hello World, id 7");
    // the host rewriting the identity attribute is caught
    doc.set_attribute(2, "data-editline-id", "999");
    assert!(matches!(line.audit(&doc), Err(AuditError::Attr(_))));
}

#[test]
fn selection_maps_to_logical_positions() {
    let mut doc = HostDoc::new();
    let handle: DocumentHandle<EditLine> = DocumentHandle::default();
    let f = handle.element_factory();
    let sel = handle.get_selection().unwrap();
    let mut ed = _Editor::new(f, sel, &mut doc);
    ed.insert(0, &mut doc);
    ed.insert(1, &mut doc);
    ed.insert(2, &mut doc);
    let t1 = find_text_node(&doc, "Hello World, id 1");
    doc.set_selection(Some(HostSelection {
        anchor_node: t1,
        anchor_offset: 2,
        focus_node: t1,
        focus_offset: 3,
    }));
    let got = ed.get_logic_seletion(&doc).unwrap();
    assert_eq!(got.anchor, (1, 2));
    assert_eq!(got.focus, (1, 3));
}

#[test]
fn selection_outside_editable_area_yields_nothing() {
    let mut doc = HostDoc::new();
    let handle: DocumentHandle<EditLine> = DocumentHandle::default();
    let f = handle.element_factory();
    let sel = handle.get_selection().unwrap();
    let mut ed = _Editor::new(f.clone(), sel, &mut doc);
    ed.insert(0, &mut doc);
    // a node with no identity attribute anywhere above it
    let stray = f.div(&mut doc);
    drop(stray);
    let stray_id = doc.n_nodes() - 1;
    doc.set_selection(Some(HostSelection {
        anchor_node: stray_id,
        anchor_offset: 0,
        focus_node: stray_id,
        focus_offset: 0,
    }));
    assert_eq!(ed.get_logic_seletion(&doc), None);
    doc.set_selection(None);
    assert_eq!(ed.get_logic_seletion(&doc), None);
}

#[test]
fn cursor_selection_is_collapsed() {
    let c = LogicSelection::new_cursor(2, 3);
    assert!(c.is_cursor());
    assert_eq!(c.anchor, (2, 3));
    assert_eq!(c.focus, (2, 3));
    let wide = LogicSelection::new((1, 0), (2, 3));
    assert!(!wide.is_cursor());
}

#[test]
fn selection_area_is_ordered() {
    let forward = LogicSelection::new((1, 2), (3, 4)).to_area();
    assert_eq!(forward.start, (1, 2));
    assert_eq!(forward.end, (3, 4));
    let backward = LogicSelection::new((3, 4), (1, 2)).to_area();
    assert_eq!(backward.start, (1, 2));
    assert_eq!(backward.end, (3, 4));
    let same_line = LogicSelection::new((2, 9), (2, 1)).to_area();
    assert_eq!(same_line.start, (2, 1));
    assert_eq!(same_line.end, (2, 9));
}

#[test]
fn initialized_editor_audits_cleanly() {
    let mut doc = HostDoc::new();
    let handle: DocumentHandle<EditLine> = DocumentHandle::default();
    let f = handle.element_factory();
    let sel = handle.get_selection().unwrap();
    let ed = Editor::new(f, sel, &mut doc, 42);
    assert!(matches!(ed.editor().audit(&doc), Ok(())));
}

#[test]
fn seeding_order_is_pinned() {
    let mut doc = HostDoc::new();
    let handle: DocumentHandle<EditLine> = DocumentHandle::default();
    let f = handle.element_factory();
    let sel = handle.get_selection().unwrap();
    let ed = Editor::new(f, sel, &mut doc, 9);
    // the three seeded lines carry ids 0, 2, 1 in that order: selecting in
    // the line with id 2 resolves to line number 1
    let t2 = find_text_node(&doc, "Hello World, id 2");
    doc.set_selection(Some(HostSelection {
        anchor_node: t2,
        anchor_offset: 4,
        focus_node: t2,
        focus_offset: 4,
    }));
    let got = ed.editor().get_logic_seletion(&doc).unwrap();
    assert_eq!(got.anchor, (1, 4));
    let t1 = find_text_node(&doc, "Hello World, id 1");
    doc.set_selection(Some(HostSelection {
        anchor_node: t1,
        anchor_offset: 0,
        focus_node: t1,
        focus_offset: 0,
    }));
    let got = ed.editor().get_logic_seletion(&doc).unwrap();
    assert_eq!(got.anchor, (2, 0));
}
