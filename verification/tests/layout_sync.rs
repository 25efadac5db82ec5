use rsx_dom::attributes::{DOMAttribute, DOMAttributeName, DOMAttributeValue};
use rsx_dom::layout::{LayoutDirection, LayoutLinkage};
use rsx_dom::node::{DOMNode, DOMTagName};
use rsx_dom::text::DOMText;
use rsx_dom::tree::DOMTree;
use rsx_dom::types::KnownElementName;
use rsx_dom::DOMError;

fn element(name: KnownElementName) -> DOMNode {
    DOMNode::new_element(DOMTagName::KnownName(name))
}

#[test]
fn build_layout_mirrors_every_node_of_the_subtree() {
    let mut tree = DOMTree::default();
    let root = tree.root_id();
    let div = tree.append(root, element(KnownElementName::Div)).unwrap();
    let span = tree.append(div, element(KnownElementName::Span)).unwrap();
    let t1 = tree.append(div, DOMNode::new_text(DOMText::Static("a"))).unwrap();
    let inner = tree.append(span, DOMNode::new_text(DOMText::Static("b"))).unwrap();

    tree.build_layout(root).unwrap();

    // every layout handle carries exactly its node's children, in order
    let root_layout = &tree.get_value(root).unwrap().layout_node;
    assert_eq!(root_layout.children, vec![div]);
    let div_layout = &tree.get_value(div).unwrap().layout_node;
    assert_eq!(div_layout.children, vec![span, t1]);
    let span_layout = &tree.get_value(span).unwrap().layout_node;
    assert_eq!(span_layout.children, vec![inner]);
    assert_eq!(tree.get_value(inner).unwrap().layout_node.child_count(), 0);

    // styles were applied throughout, and every non-root handle is attached
    assert!(root_layout.styled);
    assert_eq!(root_layout.linkage, LayoutLinkage::Unattached);
    for id in [div, span, t1, inner] {
        let l = &tree.get_value(id).unwrap().layout_node;
        assert!(l.styled);
        assert_eq!(l.linkage, LayoutLinkage::Attached);
    }
}

#[test]
fn scenario_build_then_reflow_keeps_the_two_trees_isomorphic() {
    // root -> div(foo=true) -> [span(baz=false) -> "Hello", "world", "!"]
    let mut tree = DOMTree::default();
    let root = tree.root_id();
    let div = tree
        .append(
            root,
            DOMNode::new_element_with_attributes(
                DOMTagName::KnownName(KnownElementName::Div),
                vec![DOMAttribute(
                    DOMAttributeName::Simple("foo"),
                    DOMAttributeValue::Boolean(true),
                )],
            ),
        )
        .unwrap();
    let span = tree
        .append(
            div,
            DOMNode::new_element_with_attributes(
                DOMTagName::KnownName(KnownElementName::Span),
                vec![DOMAttribute(
                    DOMAttributeName::Simple("baz"),
                    DOMAttributeValue::Boolean(false),
                )],
            ),
        )
        .unwrap();
    tree.append(span, DOMNode::new_text(DOMText::Static("Hello"))).unwrap();
    let world = tree.append(div, DOMNode::new_text(DOMText::Static("world"))).unwrap();
    let bang = tree.append(div, DOMNode::new_text(DOMText::Static("!"))).unwrap();

    tree.generate_layout_tree();
    let root_node = tree.get_mut(root).unwrap();
    root_node.reflow_subtree(1024, 768, LayoutDirection::Ltr);

    let root_layout = &tree.get_value(root).unwrap().layout_node;
    assert_eq!(root_layout.child_count(), 1);
    assert_eq!(root_layout.children, vec![div]);
    assert_eq!(root_layout.constraint, Some((1024, 768, LayoutDirection::Ltr)));

    let div_layout = &tree.get_value(div).unwrap().layout_node;
    assert_eq!(div_layout.child_count(), 3);
    assert_eq!(div_layout.children, vec![span, world, bang]);
}

#[test]
fn append_with_layout_attaches_the_handle_in_one_step() {
    let mut tree = DOMTree::default();
    let root = tree.root_id();
    let child = tree.allocate(element(KnownElementName::Div));

    tree.append_with_layout(root, child).unwrap();
    assert_eq!(tree.children_ids(root).unwrap(), vec![child]);
    let root_layout = &tree.get_value(root).unwrap().layout_node;
    assert_eq!(root_layout.children, vec![child]);
    let child_node = tree.get_value(child).unwrap();
    assert_eq!(child_node.layout_node.linkage, LayoutLinkage::Attached);
    assert!(child_node.layout_node.styled);

    // attaching an already attached handle is an error
    let second = tree.allocate(element(KnownElementName::Span));
    tree.append_with_layout(root, second).unwrap();
    tree.detach(second).unwrap();
    assert_eq!(
        tree.append_with_layout(root, second).err(),
        Some(DOMError::InvalidParent),
    );
}

#[test]
fn remove_with_layout_detaches_both_trees_in_step() {
    let mut tree = DOMTree::default();
    let root = tree.root_id();
    let a = tree.allocate(element(KnownElementName::Div));
    let b = tree.allocate(element(KnownElementName::Span));
    tree.append_with_layout(root, a).unwrap();
    tree.append_with_layout(root, b).unwrap();
    assert_eq!(tree.get_value(root).unwrap().layout_node.children, vec![a, b]);

    tree.remove_with_layout(root, a).unwrap();
    assert_eq!(tree.children_ids(root).unwrap(), vec![b]);
    assert_eq!(tree.get_value(root).unwrap().layout_node.children, vec![b]);
    assert_eq!(tree.get_value(a).unwrap().layout_node.linkage, LayoutLinkage::Detached);
    // the node is detached, not deallocated, and can come back
    tree.append_with_layout(root, a).unwrap();
    assert_eq!(tree.get_value(root).unwrap().layout_node.children, vec![b, a]);

    // removing a node that is not this parent's child fails
    let mut other = DOMTree::default();
    let other_root = other.root_id();
    let loose = other.allocate(element(KnownElementName::Div));
    assert_eq!(other.remove_with_layout(other_root, loose).err(), Some(DOMError::InvalidParent));
}

#[test]
fn calculate_styles_touches_styles_but_not_linkage() {
    let mut tree = DOMTree::default();
    let root = tree.root_id();
    let div = tree.append(root, element(KnownElementName::Div)).unwrap();
    tree.calculate_styles(root).unwrap();

    let root_node = tree.get_value(root).unwrap();
    assert!(root_node.layout_node.styled);
    assert_eq!(root_node.layout_node.child_count(), 0);
    let div_node = tree.get_value(div).unwrap();
    assert!(div_node.layout_node.styled);
    assert_eq!(div_node.layout_node.linkage, LayoutLinkage::Unattached);
}
