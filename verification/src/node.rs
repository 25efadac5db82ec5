use vstd::prelude::*;

verus! {

use crate::arena::Id;
use crate::attributes::{DOMAttribute, DOMAttributes};
use crate::layout::{LayoutDirection, LayoutLinkage, LayoutNode};
use crate::style::Style;
use crate::text::DOMText;
use crate::tree::DOMTree;
use crate::types::{Closure, EventType, KnownElementName};
use crate::DOMError;

/// Identifier of a document node; an alias kept for readers of the tree API.
pub type DOMNodeId = Id;

/// A pair of node identifiers, as handed to paired mutable access.
pub type DOMNodeIdPair = (DOMNodeId, DOMNodeId);

/// The previous and next sibling of a node.
pub type DOMNodeSiblingIds = (Option<DOMNodeId>, Option<DOMNodeId>);

/// The first and last child of a node.
pub type DOMNodeEdgeIds = (Option<DOMNodeId>, Option<DOMNodeId>);

/// The name of an element.
#[derive(Debug, Clone, Copy)]
pub enum DOMTagName {
    NamedspacedName(&'static str, &'static str),
    KnownName(KnownElementName),
    Simple(&'static str),
}

/// A text node's payload.
#[derive(Debug, Clone)]
pub struct DOMTextNode {
    pub content: DOMText,
}

/// An element's payload: its tag and its attributes.
pub struct DOMNormalNode {
    pub attributes: DOMAttributes,
    pub tag: DOMTagName,
}

/// What a node is: an element, an encapsulated nested tree, a run of text,
/// or nothing.
pub enum DOMData {
    Normal(DOMNormalNode),
    ShadowHost(DOMTree),
    Text(DOMTextNode),
    Void,
}

/// A document node: its payload, its raw style record, and its handle into
/// the layout backend.  The structural links between nodes live in the
/// tree's arena, not here, so handing out a mutable node reference can never
/// disturb the tree's shape.
pub struct DOMNode {
    pub layout_node: LayoutNode,
    pub data: DOMData,
    pub styles: Style,
}

/// A freshly made layout handle, before any attachment, styling or solve.
pub open spec fn fresh_layout_node(l: LayoutNode) -> bool {
    &&& l.children@ == Seq::<Id>::empty()
    &&& l.linkage == LayoutLinkage::Unattached
    &&& !l.styled
    &&& l.constraint is None
}

/// The payload every synthetic tree root carries: an element with the
/// `Fragment` tag, no attributes, no style, and a fresh layout handle.
pub open spec fn is_fragment_node(n: DOMNode) -> bool {
    &&& n.data is Normal
    &&& n.data->Normal_0.tag == DOMTagName::KnownName(KnownElementName::Fragment)
    &&& n.data->Normal_0.attributes.is_empty_view()
    &&& n.styles.declarations@.len() == 0
    &&& fresh_layout_node(n.layout_node)
}

impl DOMNode {
    /// Wraps a payload in a node with an empty style record and a fresh
    /// layout handle.
    pub fn new(data: DOMData) -> (r: DOMNode)
        ensures
            r.data == data,
            r.styles.declarations@.len() == 0,
            fresh_layout_node(r.layout_node),
    {
        let layout_node = LayoutNode::default();
        let styles = Style::default();
        DOMNode { styles, layout_node, data }
    }

    /// An element node with the given tag and no attributes.
    pub fn new_element(tag: DOMTagName) -> (r: DOMNode)
        ensures
            r.data is Normal,
            r.data->Normal_0.tag == tag,
            r.data->Normal_0.attributes.is_empty_view(),
            r.styles.declarations@.len() == 0,
            fresh_layout_node(r.layout_node),
    {
        let attributes = DOMAttributes::default();
        DOMNode::new(DOMData::Normal(DOMNormalNode { tag, attributes }))
    }

    /// An element node with the given tag and the attributes that
    /// classifying `list` produces.
    pub fn new_element_with_attributes(tag: DOMTagName, list: Vec<DOMAttribute>) -> (r: DOMNode)
        ensures
            r.data is Normal,
            r.data->Normal_0.tag == tag,
            r.data->Normal_0.attributes.simple_view() == crate::attributes::simple_of_list(list@),
            r.data->Normal_0.attributes.namespaced_view() == crate::attributes::namespaced_of_list(
                list@,
            ),
            r.data->Normal_0.attributes.common_view() == crate::attributes::common_of_list(list@),
            r.data->Normal_0.attributes.listeners_view() == crate::attributes::listeners_of_list(
                list@,
            ),
            r.styles.declarations@.len() == 0,
            fresh_layout_node(r.layout_node),
    {
        let attributes = DOMAttributes::from_list(list);
        DOMNode::new(DOMData::Normal(DOMNormalNode { tag, attributes }))
    }

    /// A text node carrying the given text.
    pub fn new_text(content: DOMText) -> (r: DOMNode)
        ensures
            r.data is Text,
            r.data->Text_0.content == content,
            r.styles.declarations@.len() == 0,
            fresh_layout_node(r.layout_node),
    {
        DOMNode::new(DOMData::Text(DOMTextNode { content }))
    }

    /// Replaces this node's raw style record.
    pub fn with_style(self, styles: Style) -> (r: DOMNode)
        ensures
            r.data == self.data,
            r.layout_node == self.layout_node,
            r.styles == styles,
    {
        DOMNode { styles, ..self }
    }

    /// Surrenders the nested tree of a shadow host; any other node yields an
    /// empty tree.
    pub fn shadow_dom(self) -> (r: DOMTree)
        ensures
            self.data is ShadowHost ==> r == self.data->ShadowHost_0,
            !(self.data is ShadowHost) ==> r.is_empty_tree(),
    {
        match self.data {
            DOMData::ShadowHost(tree) => tree,
            DOMData::Void | DOMData::Text(_) | DOMData::Normal(_) => DOMTree::default(),
        }
    }

    /// The node's payload.
    pub fn data(&self) -> (r: &DOMData)
        ensures
            *r == self.data,
    {
        &self.data
    }

    /// The node's layout handle.
    pub fn layout_node(&self) -> (r: &LayoutNode)
        ensures
            *r == self.layout_node,
    {
        &self.layout_node
    }

    pub fn is_void(&self) -> (r: bool)
        ensures
            r == (self.data is Void),
    {
        self.data.is_void()
    }

    pub fn is_shadow_host(&self) -> (r: bool)
        ensures
            r == (self.data is ShadowHost),
    {
        self.data.is_shadow_host().is_some()
    }

    pub fn is_text(&self) -> (r: bool)
        ensures
            r == (self.data is Text),
    {
        self.data.is_text().is_some()
    }

    pub fn is_normal(&self) -> (r: bool)
        ensures
            r == (self.data is Normal),
    {
        self.data.is_normal().is_some()
    }

    /// Whether this node is an element with the given known tag.
    pub fn is_known(&self, name: KnownElementName) -> (r: bool)
        ensures
            r == (self.data is Normal && self.data->Normal_0.tag is KnownName
                && self.data->Normal_0.tag->KnownName_0 == name),
    {
        self.data.is_known(name).is_some()
    }

    /// Roots one constraint solve of the layout backend at this node's
    /// handle.
    pub fn reflow_subtree(&mut self, width: u32, height: u32, direction: LayoutDirection)
        ensures
            final(self).data == old(self).data,
            final(self).styles == old(self).styles,
            final(self).layout_node.children@ == old(self).layout_node.children@,
            final(self).layout_node.linkage == old(self).layout_node.linkage,
            final(self).layout_node.styled == old(self).layout_node.styled,
            final(self).layout_node.constraint == Some((width, height, direction)),
    {
        self.layout_node.reflow_subtree(width, height, direction);
    }

    /// Resolves this node's computed style from its raw record and applies
    /// the resulting box metrics to its layout handle.  The style engine
    /// doing the resolution is an external collaborator; at this boundary
    /// the handle records that its styles are applied.
    pub fn apply_measurement_metadata_to_layout(&mut self)
        ensures
            final(self).data == old(self).data,
            final(self).styles == old(self).styles,
            final(self).layout_node.children@ == old(self).layout_node.children@,
            final(self).layout_node.linkage == old(self).layout_node.linkage,
            final(self).layout_node.styled,
            final(self).layout_node.constraint == old(self).layout_node.constraint,
    {
        self.layout_node.styled = true;
    }

    /// Attaches this node's layout handle as the next layout child of
    /// `parent`'s handle, under this node's identity `self_id`.  Attaching a
    /// handle that is already attached is an error and changes nothing.
    pub fn append_to_layout_node(&mut self, self_id: DOMNodeId, parent: &mut DOMNode) -> (r: Result<
        (),
        DOMError,
    >)
        ensures
            r is Ok <==> !(old(self).layout_node.linkage is Attached),
            r is Err ==> r == Err::<(), DOMError>(DOMError::InvalidParent) && *final(self) == *old(
                self,
            ) && *final(parent) == *old(parent),
            r is Ok ==> {
                &&& final(self).data == old(self).data
                &&& final(self).styles == old(self).styles
                &&& final(self).layout_node.children@ == old(self).layout_node.children@
                &&& final(self).layout_node.linkage is Attached
                &&& final(self).layout_node.styled == old(self).layout_node.styled
                &&& final(self).layout_node.constraint == old(self).layout_node.constraint
                &&& final(parent).data == old(parent).data
                &&& final(parent).styles == old(parent).styles
                &&& final(parent).layout_node.children@ == old(
                    parent,
                ).layout_node.children@.push(self_id)
                &&& final(parent).layout_node.linkage == old(parent).layout_node.linkage
                &&& final(parent).layout_node.styled == old(parent).layout_node.styled
                &&& final(parent).layout_node.constraint == old(parent).layout_node.constraint
            },
    {
        match self.layout_node.linkage {
            LayoutLinkage::Attached => Err(DOMError::InvalidParent),
            LayoutLinkage::Unattached | LayoutLinkage::Detached => {
                parent.layout_node.children.push(self_id);
                self.layout_node.linkage = LayoutLinkage::Attached;
                Ok(())
            },
        }
    }

    /// Detaches this node's layout handle, under identity `self_id`, from
    /// `parent`'s handle: the first occurrence of `self_id` leaves the
    /// parent's layout children and this handle becomes `Detached`.  It is
    /// an error if this handle is not attached or the parent does not carry
    /// it.
    pub fn remove_from_layout_node(
        &mut self,
        self_id: DOMNodeId,
        parent: &mut DOMNode,
    ) -> (r: Result<(), DOMError>)
        ensures
            r is Ok <==> (old(self).layout_node.linkage is Attached && old(
                parent,
            ).layout_node.children@.contains(self_id)),
            r is Err ==> r == Err::<(), DOMError>(DOMError::InvalidParent) && *final(self) == *old(
                self,
            ) && *final(parent) == *old(parent),
            r is Ok ==> {
                &&& final(self).data == old(self).data
                &&& final(self).styles == old(self).styles
                &&& final(self).layout_node.children@ == old(self).layout_node.children@
                &&& final(self).layout_node.linkage is Detached
                &&& final(self).layout_node.styled == old(self).layout_node.styled
                &&& final(self).layout_node.constraint == old(self).layout_node.constraint
                &&& final(parent).data == old(parent).data
                &&& final(parent).styles == old(parent).styles
                &&& final(parent).layout_node.linkage == old(parent).layout_node.linkage
                &&& final(parent).layout_node.styled == old(parent).layout_node.styled
                &&& final(parent).layout_node.constraint == old(parent).layout_node.constraint
                &&& exists|i: int|
                    {
                        &&& 0 <= i < old(parent).layout_node.children@.len()
                        &&& old(parent).layout_node.children@[i] == self_id
                        &&& (forall|j: int|
                            0 <= j < i ==> old(parent).layout_node.children@[j] != self_id)
                        &&& final(parent).layout_node.children@ == old(
                            parent,
                        ).layout_node.children@.remove(i)
                    }
            },
    {
        match self.layout_node.linkage {
            LayoutLinkage::Attached => {
                let n = parent.layout_node.children.len();
                let mut idx: Option<usize> = None;
                let mut i: usize = 0;
                while i < n
                    invariant
                        0 <= i <= n,
                        n == parent.layout_node.children@.len(),
                        match idx {
                            None => forall|j: int|
                                0 <= j < i ==> parent.layout_node.children@[j] != self_id,
                            Some(k) => k < i && parent.layout_node.children@[k as int] == self_id
                                && forall|j: int|
                                0 <= j < k ==> parent.layout_node.children@[j] != self_id,
                        },
                    decreases n - i,
                {
                    if idx.is_none() && parent.layout_node.children[i] == self_id {
                        idx = Some(i);
                    }
                    i = i + 1;
                }
                match idx {
                    Some(k) => {
                        proof {
                            assert(parent.layout_node.children@[k as int] == self_id);
                            assert(parent.layout_node.children@.contains(self_id));
                        }
                        parent.layout_node.children.remove(k);
                        self.layout_node.linkage = LayoutLinkage::Detached;
                        Ok(())
                    },
                    None => {
                        proof {
                            assert(!parent.layout_node.children@.contains(self_id));
                        }
                        Err(DOMError::InvalidParent)
                    },
                }
            },
            LayoutLinkage::Unattached | LayoutLinkage::Detached => Err(DOMError::InvalidParent),
        }
    }
}

impl Default for DOMNode {
    /// A fragment element, the payload of synthetic tree roots.
    fn default() -> (r: DOMNode)
        ensures
            is_fragment_node(r),
    {
        DOMNode::new_element(DOMTagName::KnownName(KnownElementName::Fragment))
    }
}

impl DOMData {
    /// The text carried by a text node.
    pub fn text(&self) -> (r: Option<&DOMText>)
        ensures
            r is Some <==> self is Text,
            r is Some ==> *r->0 == self->Text_0.content,
    {
        match self {
            DOMData::Text(DOMTextNode { content }) => Some(content),
            DOMData::Void | DOMData::ShadowHost(_) | DOMData::Normal(_) => None,
        }
    }

    /// The tag of an element node.
    pub fn tag(&self) -> (r: Option<&DOMTagName>)
        ensures
            r is Some <==> self is Normal,
            r is Some ==> *r->0 == self->Normal_0.tag,
    {
        match self {
            DOMData::Void | DOMData::ShadowHost(_) | DOMData::Text(_) => None,
            DOMData::Normal(DOMNormalNode { tag, .. }) => Some(tag),
        }
    }

    pub fn is_void(&self) -> (r: bool)
        ensures
            r == (self is Void),
    {
        match self {
            DOMData::Void => true,
            _ => false,
        }
    }

    /// The nested tree of a shadow host.
    pub fn is_shadow_host(&self) -> (r: Option<&DOMTree>)
        ensures
            r is Some <==> self is ShadowHost,
            r is Some ==> *r->0 == self->ShadowHost_0,
    {
        match self {
            DOMData::ShadowHost(value) => Some(value),
            _ => None,
        }
    }

    /// The payload of a text node.
    pub fn is_text(&self) -> (r: Option<&DOMTextNode>)
        ensures
            r is Some <==> self is Text,
            r is Some ==> *r->0 == self->Text_0,
    {
        match self {
            DOMData::Text(value) => Some(value),
            _ => None,
        }
    }

    /// The payload of an element node.
    pub fn is_normal(&self) -> (r: Option<&DOMNormalNode>)
        ensures
            r is Some <==> self is Normal,
            r is Some ==> *r->0 == self->Normal_0,
    {
        match self {
            DOMData::Normal(value) => Some(value),
            _ => None,
        }
    }

    /// The payload of an element node carrying the given known tag.
    pub fn is_known(&self, name: KnownElementName) -> (r: Option<&DOMNormalNode>)
        ensures
            r is Some <==> (self is Normal && self->Normal_0.tag is KnownName
                && self->Normal_0.tag->KnownName_0 == name),
            r is Some ==> *r->0 == self->Normal_0,
    {
        match self {
            DOMData::Normal(value) => {
                match &value.tag {
                    DOMTagName::KnownName(known) => {
                        if *known == name {
                            Some(value)
                        } else {
                            None
                        }
                    },
                    _ => None,
                }
            },
            _ => None,
        }
    }

    /// Removes and returns every event listener of an element node; `None`
    /// on any other payload.  The order of the returned pairs is decided by
    /// the hash state of the listener map.
    pub fn drop_event_listeners(&mut self) -> (r: Option<Vec<(EventType, Closure)>>)
        ensures
            r is Some <==> *old(self) is Normal,
            r is None ==> *final(self) == *old(self),
            r is Some ==> {
                &&& *final(self) is Normal
                &&& final(self)->Normal_0.tag == old(self)->Normal_0.tag
                &&& final(self)->Normal_0.attributes.simple_view() == old(
                    self,
                )->Normal_0.attributes.simple_view()
                &&& final(self)->Normal_0.attributes.namespaced_view() == old(
                    self,
                )->Normal_0.attributes.namespaced_view()
                &&& final(self)->Normal_0.attributes.common_view() == old(
                    self,
                )->Normal_0.attributes.common_view()
                &&& final(self)->Normal_0.attributes.listeners_view() == Map::<
                    EventType,
                    Closure,
                >::empty()
                &&& forall|i: int|
                    0 <= i < r->0@.len() ==> old(self)->Normal_0.attributes.listeners_view(
                    ).dom().contains((#[trigger] r->0@[i]).0) && r->0@[i].1 == old(
                        self,
                    )->Normal_0.attributes.listeners_view()[r->0@[i].0]
                &&& crate::attrmap::covers_keys(
                    old(self)->Normal_0.attributes.listeners_view(),
                    r->0@,
                )
            },
    {
        let normal = match &*self {
            DOMData::Normal(_) => true,
            _ => false,
        };
        if !normal {
            return None;
        }
        match self {
            DOMData::Normal(DOMNormalNode { attributes, .. }) => {
                let cleaned = attributes.listeners.drain_entries();
                Some(cleaned)
            },
            _ => unreached(),
        }
    }

    /// The attributes of an element node.
    pub fn attributes_ref(&self) -> (r: Option<&DOMAttributes>)
        ensures
            r is Some <==> self is Normal,
            r is Some ==> *r->0 == self->Normal_0.attributes,
    {
        match self {
            DOMData::Void | DOMData::ShadowHost(_) | DOMData::Text(_) => None,
            DOMData::Normal(DOMNormalNode { attributes, .. }) => Some(attributes),
        }
    }

    /// Mutable access to the attributes of an element node.
    pub fn attributes_mut(&mut self) -> (r: Option<&mut DOMAttributes>)
        ensures
            r is Some <==> *old(self) is Normal,
            r is None ==> *final(self) == *old(self),
            r is Some ==> {
                &&& *r.unwrap() == old(self)->Normal_0.attributes
                &&& *final(self) is Normal
                &&& final(self)->Normal_0.tag == old(self)->Normal_0.tag
                &&& final(self)->Normal_0.attributes == *final(r.unwrap())
            },
    {
        let normal = match &*self {
            DOMData::Normal(_) => true,
            _ => false,
        };
        if !normal {
            return None;
        }
        match self {
            DOMData::Normal(DOMNormalNode { attributes, .. }) => Some(attributes),
            _ => unreached(),
        }
    }
}

} // verus!
