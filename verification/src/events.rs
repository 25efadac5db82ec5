use vstd::prelude::*;

verus! {

use crate::types::{DOMNodeRawId, EventType};

/// The pointer-related readings of an event.
#[derive(Clone, Copy, Debug, PartialEq, Eq, Structural)]
pub struct MouseEvent {
    pub target_mouse_code: u64,
    pub client_x: u32,
    pub client_y: u32,
    pub offset_x: u32,
    pub offset_y: u32,
    pub page_x: u32,
    pub page_y: u32,
}

/// Which pointer button an event reports.
#[derive(Clone, Copy, Debug, PartialEq, Eq, Structural)]
pub enum MouseButton {
    Main,
    Auxiliary,
    Secondary,
}

/// The modifier-key readings of an event.
#[derive(Clone, Copy, Debug, PartialEq, Eq, Structural)]
pub struct KeyboardEvent {
    pub shift_pressed: bool,
    pub ctrl_pressed: bool,
    pub meta_pressed: bool,
    pub alt_pressed: bool,
}

/// One UI event: its type, the raw identity of the node it targets, and its
/// keyboard and mouse readings.
#[derive(Clone, Copy, Debug, PartialEq, Eq, Structural)]
pub struct BasicEvent {
    pub event_type: EventType,
    pub node_id: DOMNodeRawId,
    pub keyboard: KeyboardEvent,
    pub mouse: MouseEvent,
}

impl BasicEvent {
    /// The raw identity of the targeted node.
    pub fn target(&self) -> (r: DOMNodeRawId)
        ensures
            r == self.node_id,
    {
        self.node_id
    }

    /// The event's type.
    pub fn ty(&self) -> (r: EventType)
        ensures
            r == self.event_type,
    {
        self.event_type
    }

    pub fn alt_key(&self) -> (r: bool)
        ensures
            r == self.keyboard.alt_pressed,
    {
        self.keyboard.alt_pressed
    }

    pub fn ctrl_key(&self) -> (r: bool)
        ensures
            r == self.keyboard.ctrl_pressed,
    {
        self.keyboard.ctrl_pressed
    }

    pub fn meta_key(&self) -> (r: bool)
        ensures
            r == self.keyboard.meta_pressed,
    {
        self.keyboard.meta_pressed
    }

    pub fn shift_key(&self) -> (r: bool)
        ensures
            r == self.keyboard.shift_pressed,
    {
        self.keyboard.shift_pressed
    }

    /// Whether any modifier key is down.
    pub fn get_modifier_state(&self) -> (r: bool)
        ensures
            r == (self.keyboard.alt_pressed || self.keyboard.ctrl_pressed
                || self.keyboard.meta_pressed || self.keyboard.shift_pressed),
    {
        self.keyboard.alt_pressed || self.keyboard.ctrl_pressed || self.keyboard.meta_pressed
            || self.keyboard.shift_pressed
    }

    pub fn client_x(&self) -> (r: u32)
        ensures
            r == self.mouse.client_x,
    {
        self.mouse.client_x
    }

    pub fn client_y(&self) -> (r: u32)
        ensures
            r == self.mouse.client_y,
    {
        self.mouse.client_y
    }

    pub fn offset_x(&self) -> (r: u32)
        ensures
            r == self.mouse.offset_x,
    {
        self.mouse.offset_x
    }

    pub fn offset_y(&self) -> (r: u32)
        ensures
            r == self.mouse.offset_y,
    {
        self.mouse.offset_y
    }

    pub fn page_x(&self) -> (r: u32)
        ensures
            r == self.mouse.page_x,
    {
        self.mouse.page_x
    }

    pub fn page_y(&self) -> (r: u32)
        ensures
            r == self.mouse.page_y,
    {
        self.mouse.page_y
    }
}

} // verus!
