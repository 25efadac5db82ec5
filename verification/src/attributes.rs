use vstd::prelude::*;

verus! {

use crate::attrmap::{
    common_entries,
    listener_entries,
    namespaced_entries,
    simple_entries,
    CommonAttrMap,
    ListenerMap,
    NamespacedAttrMap,
    SimpleAttrMap,
};
use crate::node::DOMNode;
use crate::style::Style;
use crate::text::{str_eq, DOMText};
use crate::types::{Closure, EventType, KnownAttributeName};

/// The name of an attribute, classified by shape: a namespaced pair, a known
/// name, an event type (for listener attributes), or a plain string.
#[derive(Debug, Clone, Copy)]
pub enum DOMAttributeName {
    NamedspacedName(&'static str, &'static str),
    KnownName(KnownAttributeName),
    EventType(EventType),
    Simple(&'static str),
}

/// Whether two attribute names are the same, comparing string parts by their
/// characters.
pub open spec fn attr_name_eq(a: DOMAttributeName, b: DOMAttributeName) -> bool {
    match (a, b) {
        (
            DOMAttributeName::NamedspacedName(ans, an),
            DOMAttributeName::NamedspacedName(bns, bn),
        ) => ans@ == bns@ && an@ == bn@,
        (DOMAttributeName::KnownName(an), DOMAttributeName::KnownName(bn)) => an == bn,
        (DOMAttributeName::EventType(at), DOMAttributeName::EventType(bt)) => at == bt,
        (DOMAttributeName::Simple(an), DOMAttributeName::Simple(bn)) => an@ == bn@,
        _ => false,
    }
}

impl PartialEq for DOMAttributeName {
    fn eq(&self, other: &Self) -> (r: bool) {
        match (self, other) {
            (
                DOMAttributeName::NamedspacedName(ans, an),
                DOMAttributeName::NamedspacedName(bns, bn),
            ) => str_eq(ans, bns) && str_eq(an, bn),
            (DOMAttributeName::KnownName(an), DOMAttributeName::KnownName(bn)) => an == bn,
            (DOMAttributeName::EventType(at), DOMAttributeName::EventType(bt)) => at == bt,
            (DOMAttributeName::Simple(an), DOMAttributeName::Simple(bn)) => str_eq(an, bn),
            _ => false,
        }
    }
}

impl vstd::std_specs::cmp::PartialEqSpecImpl for DOMAttributeName {
    open spec fn obeys_eq_spec() -> bool {
        true
    }

    open spec fn eq_spec(&self, other: &DOMAttributeName) -> bool {
        attr_name_eq(*self, *other)
    }
}

/// The value of an attribute.
pub enum DOMAttributeValue {
    Boolean(bool),
    Char(char),
    Str(DOMText),
    Styles(Style),
    EventListener(Closure),
    Node(Box<DOMNode>),
}

impl DOMAttributeValue {
    /// The carried boolean, if this value is one.
    pub fn as_boolean(&self) -> (r: Option<bool>)
        ensures
            r == (match *self {
                DOMAttributeValue::Boolean(b) => Some(b),
                _ => None::<bool>,
            }),
    {
        match self {
            DOMAttributeValue::Boolean(b) => Some(*b),
            _ => None,
        }
    }

    /// The carried character, if this value is one.
    pub fn as_char(&self) -> (r: Option<char>)
        ensures
            r == (match *self {
                DOMAttributeValue::Char(c) => Some(c),
                _ => None::<char>,
            }),
    {
        match self {
            DOMAttributeValue::Char(c) => Some(*c),
            _ => None,
        }
    }

    /// The carried text, if this value is one.
    pub fn as_text(&self) -> (r: Option<&DOMText>)
        ensures
            match *self {
                DOMAttributeValue::Str(_) => r is Some && *self == DOMAttributeValue::Str(*r->0),
                _ => r is None,
            },
    {
        match self {
            DOMAttributeValue::Str(t) => Some(t),
            _ => None,
        }
    }

    /// The carried listener handle, if this value is one.
    pub fn as_event_listener(&self) -> (r: Option<&Closure>)
        ensures
            match *self {
                DOMAttributeValue::EventListener(c) => r is Some && *r->0 == c,
                _ => r is None,
            },
    {
        match self {
            DOMAttributeValue::EventListener(c) => Some(c),
            _ => None,
        }
    }
}

/// One attribute: a name and a value.
pub struct DOMAttribute(pub DOMAttributeName, pub DOMAttributeValue);

/// The attributes of an element: four disjoint mappings, one per name shape.
/// Listener values are kept apart from the plain values so that dispatch can
/// reach them by event type alone.
pub struct DOMAttributes {
    pub namespaced: NamespacedAttrMap,
    pub common: CommonAttrMap,
    pub simple: SimpleAttrMap,
    pub listeners: ListenerMap,
}

/// The simple-name mapping that classifying `list` produces: each pair is
/// routed by its name shape, later values overwriting earlier ones under an
/// equal key.
pub open spec fn simple_of_list(list: Seq<DOMAttribute>) -> Map<Seq<char>, DOMAttributeValue>
    decreases list.len(),
{
    if list.len() == 0 {
        Map::empty()
    } else {
        let prior = simple_of_list(list.drop_last());
        match list.last().0 {
            DOMAttributeName::Simple(name) => prior.insert(name@, list.last().1),
            _ => prior,
        }
    }
}

/// The namespaced mapping that classifying `list` produces.
pub open spec fn namespaced_of_list(list: Seq<DOMAttribute>) -> Map<
    (Seq<char>, Seq<char>),
    DOMAttributeValue,
>
    decreases list.len(),
{
    if list.len() == 0 {
        Map::empty()
    } else {
        let prior = namespaced_of_list(list.drop_last());
        match list.last().0 {
            DOMAttributeName::NamedspacedName(group, subgroup) => prior.insert(
                (group@, subgroup@),
                list.last().1,
            ),
            _ => prior,
        }
    }
}

/// The known-name mapping that classifying `list` produces.
pub open spec fn common_of_list(list: Seq<DOMAttribute>) -> Map<
    KnownAttributeName,
    DOMAttributeValue,
>
    decreases list.len(),
{
    if list.len() == 0 {
        Map::empty()
    } else {
        let prior = common_of_list(list.drop_last());
        match list.last().0 {
            DOMAttributeName::KnownName(name) => prior.insert(name, list.last().1),
            _ => prior,
        }
    }
}

/// The listener mapping that classifying `list` produces: only pairs whose
/// name is an event type and whose value is a listener are kept.
pub open spec fn listeners_of_list(list: Seq<DOMAttribute>) -> Map<EventType, Closure>
    decreases list.len(),
{
    if list.len() == 0 {
        Map::empty()
    } else {
        let prior = listeners_of_list(list.drop_last());
        match list.last().0 {
            DOMAttributeName::EventType(event_type) => match list.last().1 {
                DOMAttributeValue::EventListener(listener) => prior.insert(event_type, listener),
                _ => prior,
            },
            _ => prior,
        }
    }
}

impl DOMAttributes {
    /// The simple-name mapping this record holds.
    pub open spec fn simple_view(self) -> Map<Seq<char>, DOMAttributeValue> {
        simple_entries(self.simple)
    }

    /// The namespaced mapping this record holds.
    pub open spec fn namespaced_view(self) -> Map<(Seq<char>, Seq<char>), DOMAttributeValue> {
        namespaced_entries(self.namespaced)
    }

    /// The known-name mapping this record holds.
    pub open spec fn common_view(self) -> Map<KnownAttributeName, DOMAttributeValue> {
        common_entries(self.common)
    }

    /// The listener mapping this record holds.
    pub open spec fn listeners_view(self) -> Map<EventType, Closure> {
        listener_entries(self.listeners)
    }

    /// All four mappings are empty.
    pub open spec fn is_empty_view(self) -> bool {
        &&& self.simple_view() == Map::<Seq<char>, DOMAttributeValue>::empty()
        &&& self.namespaced_view() == Map::<(Seq<char>, Seq<char>), DOMAttributeValue>::empty()
        &&& self.common_view() == Map::<KnownAttributeName, DOMAttributeValue>::empty()
        &&& self.listeners_view() == Map::<EventType, Closure>::empty()
    }

    /// Classifies one `(name, value)` pair into the mapping its name shape
    /// selects, overwriting any earlier value under an equal key.  A listener
    /// name with a non-listener value is dropped.
    pub fn insert_attribute(&mut self, attribute: DOMAttribute)
        ensures
            final(self).simple_view() == (match attribute.0 {
                DOMAttributeName::Simple(name) => old(self).simple_view().insert(
                    name@,
                    attribute.1,
                ),
                _ => old(self).simple_view(),
            }),
            final(self).namespaced_view() == (match attribute.0 {
                DOMAttributeName::NamedspacedName(group, subgroup) => old(
                    self,
                ).namespaced_view().insert((group@, subgroup@), attribute.1),
                _ => old(self).namespaced_view(),
            }),
            final(self).common_view() == (match attribute.0 {
                DOMAttributeName::KnownName(name) => old(self).common_view().insert(
                    name,
                    attribute.1,
                ),
                _ => old(self).common_view(),
            }),
            final(self).listeners_view() == (match attribute.0 {
                DOMAttributeName::EventType(event_type) => match attribute.1 {
                    DOMAttributeValue::EventListener(listener) => old(
                        self,
                    ).listeners_view().insert(event_type, listener),
                    _ => old(self).listeners_view(),
                },
                _ => old(self).listeners_view(),
            }),
    {
        let DOMAttribute(name, value) = attribute;
        match name {
            DOMAttributeName::NamedspacedName(group, subgroup) => {
                self.namespaced.insert(group, subgroup, value);
            },
            DOMAttributeName::KnownName(known) => {
                self.common.insert(known, value);
            },
            DOMAttributeName::Simple(simple) => {
                self.simple.insert(simple, value);
            },
            DOMAttributeName::EventType(event_type) => {
                match value {
                    DOMAttributeValue::EventListener(listener) => {
                        self.listeners.insert(event_type, listener);
                    },
                    _ => {},
                }
            },
        }
    }

    /// Builds an attribute record from an ordered list of `(name, value)`
    /// pairs: each pair is classified by its name shape, and a later pair
    /// overwrites an earlier one with an equal key (last write wins).
    pub fn from_list(list: Vec<DOMAttribute>) -> (r: DOMAttributes)
        ensures
            r.simple_view() == simple_of_list(list@),
            r.namespaced_view() == namespaced_of_list(list@),
            r.common_view() == common_of_list(list@),
            r.listeners_view() == listeners_of_list(list@),
    {
        let ghost orig = list@;
        let mut list = list;
        let total = list.len();
        let mut attributes = DOMAttributes::default();
        let mut i: usize = 0;
        while list.len() > 0
            invariant
                total == orig.len(),
                i + list@.len() == orig.len(),
                list@ == orig.skip(i as int),
                attributes.simple_view() == simple_of_list(orig.take(i as int)),
                attributes.namespaced_view() == namespaced_of_list(orig.take(i as int)),
                attributes.common_view() == common_of_list(orig.take(i as int)),
                attributes.listeners_view() == listeners_of_list(orig.take(i as int)),
            decreases list@.len(),
        {
            let attribute = list.remove(0);
            proof {
                assert(attribute == orig[i as int]);
                assert(list@ =~= orig.skip(i as int + 1));
                assert(orig.take(i as int + 1).drop_last() =~= orig.take(i as int));
                assert(orig.take(i as int + 1).last() == orig[i as int]);
            }
            attributes.insert_attribute(attribute);
            i = i + 1;
        }
        proof {
            assert(orig.take(i as int) =~= orig);
        }
        attributes
    }
}

impl Default for DOMAttributes {
    /// An attribute record with all four mappings empty.
    fn default() -> (r: DOMAttributes)
        ensures
            r.is_empty_view(),
    {
        DOMAttributes {
            namespaced: NamespacedAttrMap::new(),
            common: CommonAttrMap::new(),
            simple: SimpleAttrMap::new(),
            listeners: ListenerMap::new(),
        }
    }
}

} // verus!
