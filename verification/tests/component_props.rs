//! Scenario checks for the handles and containers: text roundtrips, the
//! static-length installation rule, order preservation, atomic replace,
//! attribute audit symmetry, removal ownership, and divergence detection.

use trunkfun::dom_struct::Structure;
use trunkfun::dom_text::DomText;
use trunkfun::dom_vec::DomVec;
use trunkfun::host::{HostDoc, NodeKind};
use trunkfun::web_support::{ArrayHandle, AuditError, Component, DocumentHandle, ElementFactory};
use trunkfun::editor::EditLine;

fn factory() -> ElementFactory {
    let handle: DocumentHandle<EditLine> = DocumentHandle::default();
    handle.element_factory()
}

#[test]
fn leaf_text_roundtrip_insert() {
    let mut doc = HostDoc::new();
    let mut text = DomText::new(&mut doc, "");
    text.set_data(&mut doc, "ab");
    text.insert_at_char(&mut doc, 1, "X");
    assert_eq!(text.get_data().as_str(), "aXb");
    // the external text node was created first, so it is node 0
    assert_eq!(doc.text_of(0).as_str(), "aXb");
    assert!(matches!(text.audit(&doc), Ok(())));
}

#[test]
fn leaf_text_roundtrip_append() {
    let mut doc = HostDoc::new();
    let mut text = DomText::new(&mut doc, "");
    text.set_data(&mut doc, "ab");
    text.push_str(&mut doc, "cd");
    assert_eq!(text.get_data().as_str(), "abcd");
    assert_eq!(doc.text_of(0).as_str(), "abcd");
    assert!(matches!(text.audit(&doc), Ok(())));
}

#[test]
fn leaf_text_insert_past_end_appends() {
    let mut doc = HostDoc::new();
    let mut text = DomText::new(&mut doc, "ab");
    text.insert_at_char(&mut doc, 9, "X");
    assert_eq!(text.get_data().as_str(), "abX");
    assert_eq!(doc.text_of(0).as_str(), "abX");
}

#[test]
fn leaf_text_divergence_detected() {
    let mut doc = HostDoc::new();
    let text = DomText::new(&mut doc, "ab");
    assert!(matches!(text.audit(&doc), Ok(())));
    doc.set_text(0, "zz");
    assert!(matches!(text.audit(&doc), Err(AuditError::Text { .. })));
}

#[test]
fn installation_succeeds_iff_lengths_match() {
    let mut doc = HostDoc::new();
    let a = DomText::new(&mut doc, "a");
    let b = DomText::new(&mut doc, "b");
    let members = (a, (b, ()));
    // offset 0 into an array of exactly the static length: success
    let mut exact = ArrayHandle::new_with_length(2);
    assert!(matches!(members.install(&mut exact, 0), Ok(())));
    // an array one slot too long: failure
    let mut long = ArrayHandle::new_with_length(3);
    assert!(matches!(members.install(&mut long, 0), Err(_)));
    // a nonzero offset that overshoots: failure
    let mut tight = ArrayHandle::new_with_length(2);
    assert!(matches!(members.install(&mut tight, 1), Err(_)));
    // offset + static length equal to the array length: success
    let mut shifted = ArrayHandle::new_with_length(3);
    assert!(matches!(members.install(&mut shifted, 1), Ok(())));
}

#[test]
fn vec_insert_preserves_order() {
    let mut doc = HostDoc::new();
    let f = factory();
    let div = f.div(&mut doc);  // node 0
    let mut lines: DomVec<DomText> = DomVec::new(div, &doc);
    let a = DomText::new(&mut doc, "a");  // node 1
    let b = DomText::new(&mut doc, "b");  // node 2
    let c = DomText::new(&mut doc, "c");  // node 3
    lines.push(a, &mut doc);
    lines.push(b, &mut doc);
    lines.insert(1, c, &mut doc);
    assert_eq!(lines.len(), 3);
    assert_eq!(lines.get(0).unwrap().get_data().as_str(), "a");
    assert_eq!(lines.get(1).unwrap().get_data().as_str(), "c");
    assert_eq!(lines.get(2).unwrap().get_data().as_str(), "b");
    // the external order mirrors the logical order exactly
    assert_eq!(doc.children_of(0), vec![1, 3, 2]);
    assert!(matches!(lines.audit(&doc), Ok(())));
}

#[test]
fn set_contents_replaces_atomically() {
    let mut doc = HostDoc::new();
    let f = factory();
    let div = f.div(&mut doc);  // node 0
    let mut lines: DomVec<DomText> = DomVec::new(div, &doc);
    lines.push(DomText::new(&mut doc, "a"), &mut doc);
    lines.push(DomText::new(&mut doc, "b"), &mut doc);
    assert_eq!(doc.child_count(0), 2);
    let replacement = DomText::new(&mut doc, "only");  // node 3
    lines.set_contents(replacement, &mut doc);
    assert_eq!(lines.len(), 1);
    assert_eq!(doc.child_count(0), 1);
    assert_eq!(doc.children_of(0), vec![3]);
    assert!(matches!(lines.audit(&doc), Ok(())));
}

#[test]
fn attribute_audit_fails_on_unexpected_external() {
    let mut doc = HostDoc::new();
    let f = factory();
    let mut h = f.div(&mut doc);  // node 0
    h.set_attribute(&mut doc, "k", "v");
    assert!(matches!(h.audit(&doc), Ok(())));
    // the host grows an attribute this handle never recorded
    doc.set_attribute(0, "extra", "x");
    assert!(matches!(h.audit(&doc), Err(AuditError::Attr(_))));
    doc.remove_attribute(0, "extra");
    assert!(matches!(h.audit(&doc), Ok(())));
}

#[test]
fn attribute_audit_fails_on_missing_external() {
    let mut doc = HostDoc::new();
    let f = factory();
    let mut h = f.div(&mut doc);  // node 0
    h.set_attribute(&mut doc, "k", "v");
    assert!(matches!(h.audit(&doc), Ok(())));
    // the host drops the attribute the shadow still records
    doc.remove_attribute(0, "k");
    assert!(matches!(h.audit(&doc), Err(AuditError::Attr(_))));
}

#[test]
fn attribute_audit_fails_on_changed_value() {
    let mut doc = HostDoc::new();
    let f = factory();
    let mut h = f.div(&mut doc);  // node 0
    h.set_attribute(&mut doc, "k", "v");
    doc.set_attribute(0, "k", "other");
    assert!(matches!(h.audit(&doc), Err(AuditError::Attr(_))));
}

#[test]
fn handler_audit_symmetry() {
    let mut doc = HostDoc::new();
    let f = factory();
    let mut h = f.div(&mut doc);  // node 0
    h.set_onbeforeinput(&mut doc, 42);
    assert!(matches!(h.audit(&doc), Ok(())));
    doc.set_handler(0, Some(7));
    assert!(matches!(h.audit(&doc), Err(AuditError::Handler { .. })));
    doc.set_handler(0, None);
    assert!(matches!(h.audit(&doc), Err(AuditError::Handler { .. })));
    doc.set_handler(0, Some(42));
    assert!(matches!(h.audit(&doc), Ok(())));
}

#[test]
fn removal_transfers_detachment_to_caller() {
    let mut doc = HostDoc::new();
    let f = factory();
    let div = f.div(&mut doc);  // node 0
    let mut lines: DomVec<DomText> = DomVec::new(div, &doc);
    lines.push(DomText::new(&mut doc, "a"), &mut doc);  // node 1
    lines.push(DomText::new(&mut doc, "b"), &mut doc);  // node 2
    let removed = lines.remove(1);
    // logical and external state diverge until the caller detaches
    assert!(matches!(lines.audit(&doc), Err(AuditError::ChildCount { .. })));
    assert_eq!(doc.child_count(0), 2);
    // explicit destruction detaches the owned node from its former parent
    removed.detach(&mut doc);
    assert_eq!(doc.child_count(0), 1);
    assert_eq!(doc.parent_of(2), None);
    assert!(matches!(lines.audit(&doc), Ok(())));
}

#[test]
fn external_removal_is_detected() {
    let mut doc = HostDoc::new();
    let f = factory();
    let div = f.div(&mut doc);  // node 0
    let mut lines: DomVec<DomText> = DomVec::new(div, &doc);
    lines.push(DomText::new(&mut doc, "a"), &mut doc);  // node 1
    lines.push(DomText::new(&mut doc, "b"), &mut doc);  // node 2
    assert!(matches!(lines.audit(&doc), Ok(())));
    // the host removes a child behind the container's back
    doc.remove_from_parent(2);
    assert!(matches!(lines.audit(&doc), Err(AuditError::ChildCount { .. })));
}

#[test]
fn external_swap_is_detected_with_position() {
    let mut doc = HostDoc::new();
    let f = factory();
    let div = f.div(&mut doc);  // node 0
    let mut lines: DomVec<DomText> = DomVec::new(div, &doc);
    lines.push(DomText::new(&mut doc, "a"), &mut doc);  // node 1
    lines.push(DomText::new(&mut doc, "b"), &mut doc);  // node 2
    // the host swaps the two children
    doc.remove_from_parent(1);
    doc.remove_from_parent(2);
    doc.insert_child(0, 0, 2);
    doc.insert_child(0, 1, 1);
    match lines.audit(&doc) {
        Err(AuditError::NodeMismatch { index }) => assert_eq!(index, 0),
        other => panic!("expected a node mismatch at the first entry, got {:?}", other),
    }
}

#[test]
fn node_kinds_are_modelled() {
    let mut doc = HostDoc::new();
    let f = factory();
    let _div = f.div(&mut doc);
    let _text = DomText::new(&mut doc, "x");
    assert!(matches!(doc.kind_of(0), NodeKind::Element(_)));
    assert!(matches!(doc.kind_of(1), NodeKind::Text));
}
