use vstd::prelude::*;

verus! {

use crate::attributes::{attr_name_eq, DOMAttribute, DOMAttributeName, DOMAttributeValue};
use crate::text::DOMText;
use crate::types::{Closure, EventType, KnownAttributeName};

/// Whether `attribute` is a listener registration: an event-type name paired
/// with a listener value.
pub open spec fn is_event_listener_spec(attribute: DOMAttribute) -> bool {
    &&& attribute.0 is EventType
    &&& attribute.1 is EventListener
}

/// The listener carried by an attribute whose name is an event type.
pub fn is_event_listener(attribute: &DOMAttribute) -> (r: Option<&Closure>)
    ensures
        r is Some <==> is_event_listener_spec(*attribute),
        r is Some ==> attribute.1 == DOMAttributeValue::EventListener(*r->0),
{
    match attribute {
        DOMAttribute(DOMAttributeName::EventType(_), DOMAttributeValue::EventListener(l)) => Some(
            l,
        ),
        _ => None,
    }
}

/// Whether `attribute` pairs the known `Src` name with a text value.
pub open spec fn is_src_spec(attribute: DOMAttribute) -> bool {
    &&& attribute.0 matches DOMAttributeName::KnownName(KnownAttributeName::Src)
    &&& attribute.1 is Str
}

/// The text carried by an attribute that pairs the known `Src` name with a
/// text value.
pub fn is_src(attribute: &DOMAttribute) -> (r: Option<&DOMText>)
    ensures
        r is Some <==> is_src_spec(*attribute),
        r is Some ==> attribute.1 == DOMAttributeValue::Str(*r->0),
{
    match attribute {
        DOMAttribute(
            DOMAttributeName::KnownName(KnownAttributeName::Src),
            DOMAttributeValue::Str(s),
        ) => Some(s),
        _ => None,
    }
}

/// `i` is the position of the first attribute of `list` whose name matches
/// `name`.
pub open spec fn first_named_at(list: Seq<DOMAttribute>, name: DOMAttributeName, i: int) -> bool {
    &&& 0 <= i < list.len()
    &&& attr_name_eq(list[i].0, name)
    &&& forall|j: int| 0 <= j < i ==> !attr_name_eq(list[j].0, name)
}

/// The first attribute of `list` whose name matches `name`, character for
/// character in the string parts.
pub fn find_attribute<'a>(list: &'a [DOMAttribute], name: &DOMAttributeName) -> (r: Option<
    &'a DOMAttribute,
>)
    ensures
        r is None <==> (forall|i: int| 0 <= i < list@.len() ==> !attr_name_eq(list@[i].0, *name)),
        r is Some ==> exists|i: int|
            #[trigger] first_named_at(list@, *name, i) && *r->0 == list@[i],
{
    let n = list.len();
    let mut i: usize = 0;
    while i < n
        invariant
            0 <= i <= n,
            n == list@.len(),
            forall|j: int| 0 <= j < i ==> !attr_name_eq(list@[j].0, *name),
        decreases n - i,
    {
        if list[i].0 == *name {
            proof {
                assert(first_named_at(list@, *name, i as int));
            }
            return Some(&list[i]);
        }
        i = i + 1;
    }
    None
}

/// Two first matches are the same position.
proof fn lemma_first_named_unique(list: Seq<DOMAttribute>, name: DOMAttributeName, i: int, j: int)
    requires
        first_named_at(list, name, i),
        first_named_at(list, name, j),
    ensures
        i == j,
{
    if i < j {
        assert(!attr_name_eq(list[i].0, name));
    }
    if j < i {
        assert(!attr_name_eq(list[j].0, name));
    }
}

/// The listener registered in `list` under the event type `ty`: the one
/// carried by the first attribute named `EventType(ty)`.  `None` when no
/// attribute carries that name, or when the first one that does holds a
/// non-listener value.
pub fn find_event_listener<'a>(list: &'a [DOMAttribute], ty: EventType) -> (r: Option<&'a Closure>)
    ensures
        r is Some ==> exists|i: int|
            #[trigger] first_named_at(list@, DOMAttributeName::EventType(ty), i) && list@[i].1
                == DOMAttributeValue::EventListener(*r->0),
        r is None ==> forall|i: int|
            #[trigger] first_named_at(list@, DOMAttributeName::EventType(ty), i) ==> !(list@[i].1
                is EventListener),
{
    let name = DOMAttributeName::EventType(ty);
    match find_attribute(list, &name) {
        Some(attribute) => {
            let r = is_event_listener(attribute);
            proof {
                let i0 = choose|i0: int|
                    #[trigger] first_named_at(list@, name, i0) && *attribute == list@[i0];
                assert(list@[i0].0 is EventType);
                if r is None {
                    assert forall|i: int|
                        #[trigger] first_named_at(list@, name, i) implies !(list@[i].1
                        is EventListener) by {
                        lemma_first_named_unique(list@, name, i, i0);
                    }
                }
            }
            r
        },
        None => {
            proof {
                assert forall|i: int|
                    #[trigger] first_named_at(list@, DOMAttributeName::EventType(ty), i) implies !(
                list@[i].1 is EventListener) by {
                    assert(attr_name_eq(list@[i].0, DOMAttributeName::EventType(ty)));
                }
            }
            None
        },
    }
}

/// The source text registered in `list` under the known `Src` name: the one
/// carried by the first attribute with that name.  `None` when no attribute
/// carries the name, or when the first one that does holds a non-text value.
pub fn find_src<'a>(list: &'a [DOMAttribute]) -> (r: Option<&'a DOMText>)
    ensures
        r is Some ==> exists|i: int|
            #[trigger] first_named_at(
                list@,
                DOMAttributeName::KnownName(KnownAttributeName::Src),
                i,
            ) && list@[i].1 == DOMAttributeValue::Str(*r->0),
        r is None ==> forall|i: int|
            #[trigger] first_named_at(
                list@,
                DOMAttributeName::KnownName(KnownAttributeName::Src),
                i,
            ) ==> !(list@[i].1 is Str),
{
    let name = DOMAttributeName::KnownName(KnownAttributeName::Src);
    match find_attribute(list, &name) {
        Some(attribute) => {
            let r = is_src(attribute);
            proof {
                let i0 = choose|i0: int|
                    #[trigger] first_named_at(list@, name, i0) && *attribute == list@[i0];
                assert(list@[i0].0 matches DOMAttributeName::KnownName(KnownAttributeName::Src));
                if r is None {
                    assert forall|i: int|
                        #[trigger] first_named_at(list@, name, i) implies !(list@[i].1 is Str) by {
                        lemma_first_named_unique(list@, name, i, i0);
                    }
                }
            }
            r
        },
        None => {
            proof {
                assert forall|i: int|
                    #[trigger] first_named_at(
                        list@,
                        DOMAttributeName::KnownName(KnownAttributeName::Src),
                        i,
                    ) implies !(list@[i].1 is Str) by {
                    assert(attr_name_eq(
                        list@[i].0,
                        DOMAttributeName::KnownName(KnownAttributeName::Src),
                    ));
                }
            }
            None
        },
    }
}

} // verus!
