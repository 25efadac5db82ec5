use vstd::prelude::*;

verus! {

use crate::attributes::DOMAttributeValue;
use crate::types::{Closure, EventType, KnownAttributeName};

// The attribute stores of an element are hash maps from the `hashbrown`
// crate, as in the wider project this library belongs to.  Verus cannot read
// `hashbrown`'s types (their declaration is refused on account of the
// allocator type parameter), so each map is held in an opaque struct, its
// contents are named by an uninterpreted function, and the handful of methods
// the attribute logic calls are trusted wrappers whose contracts state what
// `hashbrown`'s documentation promises of them.

/// What a [`SimpleAttrMap`] holds: attribute values keyed by the characters
/// of the attribute name.
pub uninterp spec fn simple_entries(m: SimpleAttrMap) -> Map<Seq<char>, DOMAttributeValue>;

/// What a [`NamespacedAttrMap`] holds: attribute values keyed by the
/// characters of the namespace and of the name.
pub uninterp spec fn namespaced_entries(m: NamespacedAttrMap) -> Map<
    (Seq<char>, Seq<char>),
    DOMAttributeValue,
>;

/// What a [`CommonAttrMap`] holds: attribute values keyed by known attribute
/// names.
pub uninterp spec fn common_entries(m: CommonAttrMap) -> Map<KnownAttributeName, DOMAttributeValue>;

/// What a [`ListenerMap`] holds: callback handles keyed by event type.
pub uninterp spec fn listener_entries(m: ListenerMap) -> Map<EventType, Closure>;


/// The empty simple-name mapping.
pub open spec fn simple_map_empty() -> Map<Seq<char>, DOMAttributeValue> {
    Map::empty()
}

/// The empty namespaced mapping.
pub open spec fn namespaced_map_empty() -> Map<(Seq<char>, Seq<char>), DOMAttributeValue> {
    Map::empty()
}

/// The empty known-name mapping.
pub open spec fn common_map_empty() -> Map<KnownAttributeName, DOMAttributeValue> {
    Map::empty()
}

/// Every key of `entries` appears among the pairs of `s`.
pub open spec fn covers_keys(entries: Map<EventType, Closure>, s: Seq<(EventType, Closure)>) -> bool {
    forall|k: EventType|
        entries.dom().contains(k) ==> exists|i: int| 0 <= i < s.len() && (#[trigger] s[i]).0 == k
}

/// The empty listener mapping.
pub open spec fn listener_map_empty() -> Map<EventType, Closure> {
    Map::empty()
}

/// Attribute values keyed by plain attribute names.
#[verifier::external_body]
pub struct SimpleAttrMap {
    inner: hashbrown::HashMap<&'static str, DOMAttributeValue>,
}

/// Attribute values keyed by `(namespace, name)` pairs.
#[verifier::external_body]
pub struct NamespacedAttrMap {
    inner: hashbrown::HashMap<(&'static str, &'static str), DOMAttributeValue>,
}

/// Attribute values keyed by known attribute names.
#[verifier::external_body]
pub struct CommonAttrMap {
    inner: hashbrown::HashMap<KnownAttributeName, DOMAttributeValue>,
}

/// Callback handles keyed by the event type they listen for.
#[verifier::external_body]
pub struct ListenerMap {
    inner: hashbrown::HashMap<EventType, Closure>,
}

impl SimpleAttrMap {
    /// Relies on `hashbrown::HashMap::new`: the new map is empty.
    #[verifier::external_body]
    pub fn new() -> (r: SimpleAttrMap)
        ensures
            simple_entries(r) == simple_map_empty(),
    {
        SimpleAttrMap { inner: hashbrown::HashMap::new() }
    }

    /// Relies on `hashbrown::HashMap::insert`: the value is stored under the
    /// key, replacing and returning any earlier value for an equal key.
    #[verifier::external_body]
    pub fn insert(&mut self, key: &'static str, value: DOMAttributeValue) -> (r: Option<
        DOMAttributeValue,
    >)
        ensures
            simple_entries(*final(self)) == simple_entries(*old(self)).insert(key@, value),
            r is Some <==> simple_entries(*old(self)).dom().contains(key@),
            r is Some ==> r->0 == simple_entries(*old(self))[key@],
    {
        self.inner.insert(key, value)
    }

    /// Relies on `hashbrown::HashMap::get`: returns the value stored under an
    /// equal key, if there is one.
    #[verifier::external_body]
    pub fn get(&self, key: &str) -> (r: Option<&DOMAttributeValue>)
        ensures
            r is Some <==> simple_entries(*self).dom().contains(key@),
            r is Some ==> *r->0 == simple_entries(*self)[key@],
    {
        self.inner.get(key)
    }

    /// Relies on `hashbrown::HashMap::len`: the number of stored entries.
    #[verifier::external_body]
    pub fn len(&self) -> (r: usize)
        ensures
            r == simple_entries(*self).dom().len(),
    {
        self.inner.len()
    }
}

impl NamespacedAttrMap {
    /// Relies on `hashbrown::HashMap::new`: the new map is empty.
    #[verifier::external_body]
    pub fn new() -> (r: NamespacedAttrMap)
        ensures
            namespaced_entries(r) == namespaced_map_empty(),
    {
        NamespacedAttrMap { inner: hashbrown::HashMap::new() }
    }

    /// Relies on `hashbrown::HashMap::insert`: the value is stored under the
    /// key, replacing and returning any earlier value for an equal key.
    #[verifier::external_body]
    pub fn insert(
        &mut self,
        namespace: &'static str,
        name: &'static str,
        value: DOMAttributeValue,
    ) -> (r: Option<DOMAttributeValue>)
        ensures
            namespaced_entries(*final(self)) == namespaced_entries(*old(self)).insert(
                (namespace@, name@),
                value,
            ),
            r is Some <==> namespaced_entries(*old(self)).dom().contains((namespace@, name@)),
            r is Some ==> r->0 == namespaced_entries(*old(self))[(namespace@, name@)],
    {
        self.inner.insert((namespace, name), value)
    }

    /// Relies on `hashbrown::HashMap::get`: returns the value stored under an
    /// equal key, if there is one.
    #[verifier::external_body]
    pub fn get(&self, namespace: &'static str, name: &'static str) -> (r: Option<
        &DOMAttributeValue,
    >)
        ensures
            r is Some <==> namespaced_entries(*self).dom().contains((namespace@, name@)),
            r is Some ==> *r->0 == namespaced_entries(*self)[(namespace@, name@)],
    {
        self.inner.get(&(namespace, name))
    }

    /// Relies on `hashbrown::HashMap::len`: the number of stored entries.
    #[verifier::external_body]
    pub fn len(&self) -> (r: usize)
        ensures
            r == namespaced_entries(*self).dom().len(),
    {
        self.inner.len()
    }
}

impl CommonAttrMap {
    /// Relies on `hashbrown::HashMap::new`: the new map is empty.
    #[verifier::external_body]
    pub fn new() -> (r: CommonAttrMap)
        ensures
            common_entries(r) == common_map_empty(),
    {
        CommonAttrMap { inner: hashbrown::HashMap::new() }
    }

    /// Relies on `hashbrown::HashMap::insert`: the value is stored under the
    /// key, replacing and returning any earlier value for an equal key.
    #[verifier::external_body]
    pub fn insert(&mut self, key: KnownAttributeName, value: DOMAttributeValue) -> (r: Option<
        DOMAttributeValue,
    >)
        ensures
            common_entries(*final(self)) == common_entries(*old(self)).insert(key, value),
            r is Some <==> common_entries(*old(self)).dom().contains(key),
            r is Some ==> r->0 == common_entries(*old(self))[key],
    {
        self.inner.insert(key, value)
    }

    /// Relies on `hashbrown::HashMap::get`: returns the value stored under an
    /// equal key, if there is one.
    #[verifier::external_body]
    pub fn get(&self, key: KnownAttributeName) -> (r: Option<&DOMAttributeValue>)
        ensures
            r is Some <==> common_entries(*self).dom().contains(key),
            r is Some ==> *r->0 == common_entries(*self)[key],
    {
        self.inner.get(&key)
    }

    /// Relies on `hashbrown::HashMap::len`: the number of stored entries.
    #[verifier::external_body]
    pub fn len(&self) -> (r: usize)
        ensures
            r == common_entries(*self).dom().len(),
    {
        self.inner.len()
    }
}

impl ListenerMap {
    /// Relies on `hashbrown::HashMap::new`: the new map is empty.
    #[verifier::external_body]
    pub fn new() -> (r: ListenerMap)
        ensures
            listener_entries(r) == listener_map_empty(),
    {
        ListenerMap { inner: hashbrown::HashMap::new() }
    }

    /// Relies on `hashbrown::HashMap::insert`: the value is stored under the
    /// key, replacing and returning any earlier value for an equal key.
    #[verifier::external_body]
    pub fn insert(&mut self, key: EventType, value: Closure) -> (r: Option<Closure>)
        ensures
            listener_entries(*final(self)) == listener_entries(*old(self)).insert(key, value),
            r is Some <==> listener_entries(*old(self)).dom().contains(key),
            r is Some ==> r->0 == listener_entries(*old(self))[key],
    {
        self.inner.insert(key, value)
    }

    /// Relies on `hashbrown::HashMap::get`: returns the value stored under an
    /// equal key, if there is one.
    #[verifier::external_body]
    pub fn get(&self, key: EventType) -> (r: Option<&Closure>)
        ensures
            r is Some <==> listener_entries(*self).dom().contains(key),
            r is Some ==> *r->0 == listener_entries(*self)[key],
    {
        self.inner.get(&key)
    }

    /// Relies on `hashbrown::HashMap::len`: the number of stored entries.
    #[verifier::external_body]
    pub fn len(&self) -> (r: usize)
        ensures
            r == listener_entries(*self).dom().len(),
    {
        self.inner.len()
    }

    /// Relies on `hashbrown::HashMap::drain`: every entry is removed and
    /// handed back, each key once, in an order the hash state decides.
    #[verifier::external_body]
    pub fn drain_entries(&mut self) -> (r: Vec<(EventType, Closure)>)
        ensures
            listener_entries(*final(self)) == listener_map_empty(),
            forall|i: int|
                0 <= i < r@.len() ==> listener_entries(*old(self)).dom().contains(
                    (#[trigger] r@[i]).0,
                ) && r@[i].1 == listener_entries(*old(self))[r@[i].0],
            forall|i: int, j: int|
                0 <= i < r@.len() && 0 <= j < r@.len() && i != j ==> (#[trigger] r@[i]).0 != (
                #[trigger] r@[j]).0,
            covers_keys(listener_entries(*old(self)), r@),
    {
        self.inner.drain().collect()
    }
}

} // verus!
