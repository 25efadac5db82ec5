use rsx_dom::attributes::{DOMAttribute, DOMAttributeName, DOMAttributeValue};
use rsx_dom::events::{BasicEvent, KeyboardEvent, MouseEvent};
use rsx_dom::node::{DOMData, DOMNode, DOMTagName};
use rsx_dom::text::DOMText;
use rsx_dom::types::{Closure, EventType, KnownAttributeName, KnownElementName};
use rsx_dom::util::{find_attribute, find_event_listener, find_src, is_event_listener, is_src};
use rsx_dom::DOMError;

#[test]
fn node_payload_predicates_match_the_variant() {
    let e = DOMNode::new_element(DOMTagName::KnownName(KnownElementName::Div));
    assert!(e.is_normal());
    assert!(!e.is_text() && !e.is_void() && !e.is_shadow_host());
    assert!(e.is_known(KnownElementName::Div));
    assert!(!e.is_known(KnownElementName::Span));
    assert!(e.data().tag().is_some());
    assert!(e.data().attributes_ref().is_some());

    let t = DOMNode::new_text(DOMText::Owned(String::from("hi")));
    assert!(t.is_text());
    assert_eq!(t.data().text().unwrap().as_str(), "hi");
    assert!(t.data().tag().is_none());

    let v = DOMNode::new(DOMData::Void);
    assert!(v.is_void());
    assert!(v.data().attributes_ref().is_none());
}

#[test]
fn drop_event_listeners_clears_an_element_and_skips_the_rest() {
    let mut element = DOMNode::new_element_with_attributes(
        DOMTagName::Simple("button"),
        vec![DOMAttribute(
            DOMAttributeName::EventType(EventType::Click),
            DOMAttributeValue::EventListener(Closure { token: 9 }),
        )],
    );
    let drained = element.data.drop_event_listeners().unwrap();
    assert_eq!(drained, vec![(EventType::Click, Closure { token: 9 })]);
    assert_eq!(element.data.attributes_ref().unwrap().listeners.len(), 0);

    let mut text = DOMNode::new_text(DOMText::Static("x"));
    assert!(text.data.drop_event_listeners().is_none());
}

#[test]
fn attribute_search_finds_the_first_match_by_name() {
    let list = vec![
        DOMAttribute(DOMAttributeName::Simple("alpha"), DOMAttributeValue::Boolean(true)),
        DOMAttribute(
            DOMAttributeName::KnownName(KnownAttributeName::Src),
            DOMAttributeValue::Str(DOMText::Static("a.png")),
        ),
        DOMAttribute(DOMAttributeName::Simple("alpha"), DOMAttributeValue::Boolean(false)),
        DOMAttribute(
            DOMAttributeName::EventType(EventType::Click),
            DOMAttributeValue::EventListener(Closure { token: 3 }),
        ),
    ];
    let hit = find_attribute(&list, &DOMAttributeName::Simple("alpha")).unwrap();
    assert_eq!(hit.1.as_boolean(), Some(true));
    assert!(find_attribute(&list, &DOMAttributeName::Simple("beta")).is_none());

    assert_eq!(find_src(&list).unwrap().as_str(), "a.png");

    // a listener is the pairing of an event-type name with a listener value
    assert_eq!(find_event_listener(&list, EventType::Click), Some(&Closure { token: 3 }));
    assert!(find_event_listener(&list, EventType::KeyDown).is_none());
    let registration = DOMAttribute(
        DOMAttributeName::EventType(EventType::Click),
        DOMAttributeValue::EventListener(Closure { token: 3 }),
    );
    assert_eq!(is_event_listener(&registration), Some(&Closure { token: 3 }));
    assert!(is_src(&registration).is_none());
    // a plain value under an event-type name is no listener
    let plain = DOMAttribute(
        DOMAttributeName::EventType(EventType::Click),
        DOMAttributeValue::Boolean(true),
    );
    assert!(is_event_listener(&plain).is_none());
    assert!(find_event_listener(&[plain], EventType::Click).is_none());
}

#[test]
fn event_getters_return_the_stored_readings() {
    let event = BasicEvent {
        event_type: EventType::MouseDown,
        node_id: 5,
        keyboard: KeyboardEvent {
            shift_pressed: true,
            ctrl_pressed: false,
            meta_pressed: false,
            alt_pressed: true,
        },
        mouse: MouseEvent {
            target_mouse_code: 1,
            client_x: 10,
            client_y: 20,
            offset_x: 30,
            offset_y: 40,
            page_x: 50,
            page_y: 60,
        },
    };
    assert_eq!(event.ty(), EventType::MouseDown);
    assert_eq!(event.target(), 5);
    assert!(event.shift_key() && event.alt_key());
    assert!(!event.ctrl_key() && !event.meta_key());
    assert!(event.get_modifier_state());
    assert_eq!(event.client_x(), 10);
    assert_eq!(event.client_y(), 20);
    assert_eq!(event.offset_x(), 30);
    assert_eq!(event.offset_y(), 40);
    assert_eq!(event.page_x(), 50);
    assert_eq!(event.page_y(), 60);
}

#[test]
fn every_error_kind_has_a_message() {
    assert_eq!(DOMError::NodeDeallocated.message(), "node deallocated");
    assert_eq!(DOMError::SameNodeAlias.message(), "cannot alias one node mutably twice");
    assert_eq!(DOMError::InvalidParent.message(), "invalid parent or attachment target");
    assert_eq!(DOMError::EmptySourceTree.message(), "source tree is empty");
}

#[test]
fn with_style_replaces_only_the_raw_record() {
    let style = rsx_dom::style::Style {
        declarations: vec![rsx_dom::style::StyleDeclaration {
            property: String::from("width"),
            value: String::from("200px"),
        }],
    };
    let node = DOMNode::new_element(DOMTagName::Simple("item")).with_style(style);
    assert_eq!(node.styles.declarations.len(), 1);
    assert_eq!(node.styles.declarations[0].property, "width");
    assert!(node.is_normal());
}
