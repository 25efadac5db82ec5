use rsx_dom::attributes::{DOMAttribute, DOMAttributeName, DOMAttributeValue, DOMAttributes};
use rsx_dom::text::{str_eq, DOMText};
use rsx_dom::types::{Closure, EventType, KnownAttributeName};

#[test]
fn building_from_list_keeps_the_last_write_for_a_repeated_key() {
    let attributes = DOMAttributes::from_list(vec![
        DOMAttribute(DOMAttributeName::Simple("foo"), DOMAttributeValue::Boolean(true)),
        DOMAttribute(DOMAttributeName::Simple("foo"), DOMAttributeValue::Boolean(false)),
    ]);
    assert_eq!(attributes.simple.len(), 1);
    let value = attributes.simple.get("foo").unwrap();
    assert_eq!(value.as_boolean(), Some(false));
}

#[test]
fn each_name_shape_lands_in_its_own_mapping() {
    let attributes = DOMAttributes::from_list(vec![
        DOMAttribute(DOMAttributeName::Simple("foo"), DOMAttributeValue::Boolean(true)),
        DOMAttribute(
            DOMAttributeName::NamedspacedName("svg", "width"),
            DOMAttributeValue::Char('7'),
        ),
        DOMAttribute(
            DOMAttributeName::KnownName(KnownAttributeName::Src),
            DOMAttributeValue::Str(DOMText::Static("logo.png")),
        ),
        DOMAttribute(
            DOMAttributeName::EventType(EventType::Click),
            DOMAttributeValue::EventListener(Closure { token: 7 }),
        ),
    ]);
    assert_eq!(attributes.simple.len(), 1);
    assert_eq!(attributes.namespaced.len(), 1);
    assert_eq!(attributes.common.len(), 1);
    assert_eq!(attributes.listeners.len(), 1);

    assert_eq!(attributes.namespaced.get("svg", "width").unwrap().as_char(), Some('7'));
    let src = attributes.common.get(KnownAttributeName::Src).unwrap();
    assert_eq!(src.as_text().unwrap().as_str(), "logo.png");
    assert_eq!(attributes.listeners.get(EventType::Click), Some(&Closure { token: 7 }));
}

#[test]
fn listener_name_with_plain_value_is_dropped() {
    let attributes = DOMAttributes::from_list(vec![DOMAttribute(
        DOMAttributeName::EventType(EventType::Click),
        DOMAttributeValue::Boolean(true),
    )]);
    assert_eq!(attributes.listeners.len(), 0);
    assert_eq!(attributes.simple.len(), 0);
}

#[test]
fn drained_listeners_leave_the_map_empty() {
    let mut attributes = DOMAttributes::from_list(vec![
        DOMAttribute(
            DOMAttributeName::EventType(EventType::Click),
            DOMAttributeValue::EventListener(Closure { token: 1 }),
        ),
        DOMAttribute(
            DOMAttributeName::EventType(EventType::KeyDown),
            DOMAttributeValue::EventListener(Closure { token: 2 }),
        ),
    ]);
    let drained = attributes.listeners.drain_entries();
    assert_eq!(drained.len(), 2);
    assert_eq!(attributes.listeners.len(), 0);
    let mut saw_click = false;
    let mut saw_key_down = false;
    for (ty, closure) in drained {
        match ty {
            EventType::Click => {
                saw_click = true;
                assert_eq!(closure, Closure { token: 1 });
            }
            EventType::KeyDown => {
                saw_key_down = true;
                assert_eq!(closure, Closure { token: 2 });
            }
            _ => panic!("unexpected listener key"),
        }
    }
    assert!(saw_click && saw_key_down);
}

#[test]
fn attribute_names_compare_by_their_characters() {
    let a = DOMAttributeName::Simple("foo");
    let b = DOMAttributeName::Simple("foo");
    let c = DOMAttributeName::Simple("bar");
    assert!(a == b);
    assert!(a != c);
    assert!(DOMAttributeName::EventType(EventType::Click) != a);
    assert!(
        DOMAttributeName::NamedspacedName("svg", "width")
            == DOMAttributeName::NamedspacedName("svg", "width")
    );
}

#[test]
fn text_compares_across_variants_by_content() {
    assert!(DOMText::Static("world") == DOMText::Owned(String::from("world")));
    assert!(DOMText::Static("world") != DOMText::Owned(String::from("word")));
    assert!(str_eq("", ""));
    assert!(!str_eq("a", ""));
}
