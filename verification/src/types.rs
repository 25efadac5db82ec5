use vstd::prelude::*;

verus! {

/// Raw node identity carried inside events, naming the arena slot of the
/// target node.
pub type DOMNodeRawId = usize;

/// Element names with dedicated handling in renderers.  `Fragment` is the
/// payload of every synthetic tree root.
#[derive(Clone, Copy, Debug, PartialEq, Eq, Hash, Structural)]
pub enum KnownElementName {
    Fragment,
    Div,
    Span,
    Button,
    Image,
    Input,
    Paragraph,
}

/// Attribute names with dedicated handling.
#[derive(Clone, Copy, Debug, PartialEq, Eq, Hash, Structural)]
pub enum KnownAttributeName {
    Style,
    Src,
}

/// The kinds of UI events a listener can subscribe to.
#[derive(Clone, Copy, Debug, PartialEq, Eq, Hash, Structural)]
pub enum EventType {
    Click,
    DoubleClick,
    MouseDown,
    MouseUp,
    KeyDown,
    KeyUp,
    Change,
    Focus,
    Blur,
}

/// A handle standing for a registered event callback.  Listener dispatch is
/// outside this core, so a callback is carried only as an opaque token that
/// the embedding runtime resolves to the actual function.
#[derive(Clone, Copy, Debug, PartialEq, Eq, Hash, Structural)]
pub struct Closure {
    pub token: u64,
}

} // verus!
