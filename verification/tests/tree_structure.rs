use rsx_dom::arena::Id;
use rsx_dom::node::{DOMNode, DOMTagName};
use rsx_dom::tree::DOMTree;
use rsx_dom::types::KnownElementName;
use rsx_dom::DOMError;

fn div() -> DOMNode {
    DOMNode::new_element(DOMTagName::KnownName(KnownElementName::Div))
}

fn span() -> DOMNode {
    DOMNode::new_element(DOMTagName::KnownName(KnownElementName::Span))
}

#[test]
fn append_preserves_order_and_prepend_goes_first() {
    let mut tree = DOMTree::default();
    let root = tree.root_id();
    let n1 = tree.append(root, div()).unwrap();
    let n2 = tree.append(root, div()).unwrap();
    assert_eq!(tree.children_ids(root).unwrap(), vec![n1, n2]);

    let n3 = tree.prepend(root, span()).unwrap();
    assert_eq!(tree.children_ids(root).unwrap(), vec![n3, n1, n2]);
}

#[test]
fn detach_then_reattach_restores_the_subtree_unchanged() {
    let mut tree = DOMTree::default();
    let root = tree.root_id();
    let p1 = tree.append(root, div()).unwrap();
    let p2 = tree.append(root, div()).unwrap();
    let n1 = tree.append(p1, span()).unwrap();
    let m = tree.append(n1, span()).unwrap();

    tree.detach(n1).unwrap();
    assert_eq!(tree.children_ids(p1).unwrap(), Vec::<Id>::new());
    assert_eq!(tree.get_entry(n1).unwrap().parent, None);
    // detach is not deallocation: the node is still addressable
    assert!(tree.get_value(n1).is_ok());

    tree.append_existing(p2, n1).unwrap();
    assert_eq!(tree.children_ids(p2).unwrap(), vec![n1]);
    assert_eq!(tree.get_entry(n1).unwrap().parent, Some(p2));
    // the inner structure of the moved subtree is untouched
    assert_eq!(tree.children_ids(n1).unwrap(), vec![m]);
    assert_eq!(tree.get_entry(m).unwrap().parent, Some(n1));
}

#[test]
fn detaching_a_middle_child_rewires_its_neighbours() {
    let mut tree = DOMTree::default();
    let root = tree.root_id();
    let a = tree.append(root, div()).unwrap();
    let b = tree.append(root, div()).unwrap();
    let c = tree.append(root, div()).unwrap();

    tree.detach(b).unwrap();
    assert_eq!(tree.children_ids(root).unwrap(), vec![a, c]);
    let ea = tree.get_entry(a).unwrap();
    assert_eq!(ea.next_sibling, Some(c));
    let ec = tree.get_entry(c).unwrap();
    assert_eq!(ec.prev_sibling, Some(a));
    assert_eq!(tree.get_entry(root).unwrap().first_child, Some(a));
    assert_eq!(tree.get_entry(root).unwrap().last_child, Some(c));
}

#[test]
fn detach_of_an_unattached_node_is_a_quiet_no_op() {
    let mut tree = DOMTree::default();
    let root = tree.root_id();
    let loose = tree.allocate(div());
    tree.detach(loose).unwrap();
    tree.detach(root).unwrap();
    assert_eq!(tree.children_ids(root).unwrap(), Vec::<Id>::new());
}

#[test]
fn get_mut_pair_with_equal_ids_fails_for_every_id() {
    let mut tree = DOMTree::default();
    let root = tree.root_id();
    let n = tree.append(root, div()).unwrap();
    assert_eq!(tree.get_mut_pair((root, root)).err(), Some(DOMError::SameNodeAlias));
    assert_eq!(tree.get_mut_pair((n, n)).err(), Some(DOMError::SameNodeAlias));
}

#[test]
fn get_mut_pair_on_distinct_nodes_gives_independent_access() {
    let mut tree = DOMTree::default();
    let root = tree.root_id();
    let n = tree.append(root, div()).unwrap();
    let (root_node, n_node) = tree.get_mut_pair((root, n)).ok().unwrap();
    assert!(root_node.is_known(KnownElementName::Fragment));
    assert!(n_node.is_known(KnownElementName::Div));
}

#[test]
fn stale_identifiers_are_reported_not_resolved() {
    let mut tree = DOMTree::default();
    let root = tree.root_id();
    let fake = Id { slot: 4_000, generation: 3 };
    assert_eq!(tree.get_value(fake).err(), Some(DOMError::NodeDeallocated));
    assert_eq!(tree.append(fake, div()).err(), Some(DOMError::InvalidParent));
    assert_eq!(tree.prepend(fake, div()).err(), Some(DOMError::InvalidParent));
    assert_eq!(tree.detach(fake).err(), Some(DOMError::NodeDeallocated));
    assert_eq!(tree.append_existing(root, fake).err(), Some(DOMError::NodeDeallocated));
    assert_eq!(tree.append_existing(fake, root).err(), Some(DOMError::InvalidParent));
}

#[test]
fn attachment_that_would_close_a_cycle_is_refused() {
    let mut tree = DOMTree::default();
    let root = tree.root_id();
    let n = tree.append(root, div()).unwrap();
    let m = tree.append(n, span()).unwrap();

    // an attached node cannot be attached again
    assert_eq!(tree.append_existing(root, m).err(), Some(DOMError::InvalidParent));
    // the root cannot be attached anywhere
    assert_eq!(tree.append_existing(n, root).err(), Some(DOMError::InvalidParent));

    // a detached subtree cannot be attached below itself
    tree.detach(n).unwrap();
    assert_eq!(tree.append_existing(m, n).err(), Some(DOMError::InvalidParent));
    assert_eq!(tree.append_existing(n, n).err(), Some(DOMError::InvalidParent));
    // but attaching it under a live outside parent is fine
    tree.append_existing(root, n).unwrap();
    assert_eq!(tree.children_ids(root).unwrap(), vec![n]);
}

#[test]
fn append_tree_splices_the_source_children_in_order() {
    let mut target = DOMTree::default();
    let root = target.root_id();
    let existing = target.append(root, div()).unwrap();

    let mut source = DOMTree::default();
    let source_root = source.root_id();
    source.append(source_root, span()).unwrap();
    let s2 = source.append(source_root, div()).unwrap();
    source.append(s2, span()).unwrap();

    assert!(target.append_tree(root, source));
    let kids = target.children_ids(root).unwrap();
    assert_eq!(kids.len(), 3);
    assert_eq!(kids[0], existing);
    let first = target.get_value(kids[1]).unwrap();
    assert!(first.is_known(KnownElementName::Span));
    let second = target.get_value(kids[2]).unwrap();
    assert!(second.is_known(KnownElementName::Div));
    // the copied subtree kept its own child, tag included
    let grandkids = target.children_ids(kids[2]).unwrap();
    assert_eq!(grandkids.len(), 1);
    assert!(target.get_value(grandkids[0]).unwrap().is_known(KnownElementName::Span));
    assert_eq!(target.children_ids(grandkids[0]).unwrap().len(), 0);
}

#[test]
fn prepend_tree_splices_the_source_children_before_the_existing() {
    let mut target = DOMTree::default();
    let root = target.root_id();
    let existing = target.append(root, div()).unwrap();

    let mut source = DOMTree::default();
    let source_root = source.root_id();
    source.append(source_root, span()).unwrap();
    source.append(source_root, div()).unwrap();

    assert!(target.prepend_tree(root, source));
    let kids = target.children_ids(root).unwrap();
    assert_eq!(kids.len(), 3);
    assert!(target.get_value(kids[0]).unwrap().is_known(KnownElementName::Span));
    assert!(target.get_value(kids[1]).unwrap().is_known(KnownElementName::Div));
    assert_eq!(kids[2], existing);
}

#[test]
fn append_tree_of_an_empty_source_fails() {
    let mut target = DOMTree::default();
    let root = target.root_id();
    let source = DOMTree::default();
    assert!(!target.append_tree(root, source));
    assert_eq!(target.children_ids(root).unwrap(), Vec::<Id>::new());
}

#[test]
fn navigation_views_walk_the_child_list() {
    let mut tree = DOMTree::default();
    let root = tree.root_id();
    let a = tree.append(root, div()).unwrap();
    let b = tree.append(root, span()).unwrap();

    let root_ref = tree.root();
    let first = root_ref.first_child().unwrap();
    assert_eq!(first.id(), a);
    let second = first.next_sibling().unwrap();
    assert_eq!(second.id(), b);
    assert!(second.next_sibling().is_none());
    assert_eq!(second.prev_sibling().unwrap().id(), a);
    assert_eq!(second.parent().unwrap().id(), root);
    assert_eq!(root_ref.last_child().unwrap().id(), b);
    assert_eq!(root_ref.sibling_ids(), (None, None));
    assert_eq!(root_ref.edge_ids(), (Some(a), Some(b)));
    assert_eq!(root_ref.children_ids(), vec![a, b]);
    assert!(second.value().is_known(KnownElementName::Span));

    let doc = tree.document().unwrap();
    assert_eq!(doc.id(), a);
}

#[test]
fn traversal_visits_the_whole_subtree_starting_at_the_node() {
    let mut tree = DOMTree::default();
    let root = tree.root_id();
    let a = tree.append(root, div()).unwrap();
    let b = tree.append(a, span()).unwrap();
    let c = tree.append(a, div()).unwrap();
    let d = tree.append(b, span()).unwrap();
    let sibling = tree.append(root, span()).unwrap();

    let walk = tree.get(a).unwrap().traverse_ids();
    assert_eq!(walk[0], a);
    assert_eq!(walk.len(), 4);
    for id in [a, b, c, d] {
        assert!(walk.contains(&id));
    }
    assert!(!walk.contains(&sibling));
    assert!(!walk.contains(&root));

    let below = tree.get(a).unwrap().descendants_ids();
    assert_eq!(below.len(), 3);
    assert!(!below.contains(&a));
    for id in [b, c, d] {
        assert!(below.contains(&id));
    }
}

#[test]
fn root_mut_and_document_mut_reach_the_right_payloads() {
    let mut tree = DOMTree::default();
    assert_eq!(tree.document_mut().err(), Some(DOMError::NodeDeallocated));

    let root = tree.root_id();
    tree.append(root, div()).unwrap();
    assert!(tree.root_mut().is_known(KnownElementName::Fragment));
    assert!(tree.document_mut().unwrap().is_known(KnownElementName::Div));
}

#[test]
fn shadow_dom_surrenders_the_nested_tree() {
    let mut inner = DOMTree::default();
    let inner_root = inner.root_id();
    inner.append(inner_root, div()).unwrap();
    let host = DOMNode::new(rsx_dom::node::DOMData::ShadowHost(inner));
    assert!(host.is_shadow_host());
    let reclaimed = host.shadow_dom();
    assert_eq!(reclaimed.children_ids(reclaimed.root_id()).unwrap().len(), 1);

    let plain = div();
    let empty = plain.shadow_dom();
    assert_eq!(empty.children_ids(empty.root_id()).unwrap().len(), 0);
}
