use vstd::prelude::*;

verus! {

/// One raw `property: value` declaration of a style sheet.
#[derive(Debug, Clone)]
pub struct StyleDeclaration {
    pub property: String,
    pub value: String,
}

/// The raw style record a node owns.  This core only stores and transports
/// it; turning raw declarations into computed metrics is the style engine's
/// business, outside this library (see [`crate::layout`]).
#[derive(Debug, Clone)]
pub struct Style {
    pub declarations: Vec<StyleDeclaration>,
}

impl Style {
    /// A style with no declarations.
    pub fn new() -> (r: Style)
        ensures
            r.declarations@.len() == 0,
    {
        Style { declarations: Vec::new() }
    }
}

impl Default for Style {
    fn default() -> (r: Style)
        ensures
            r.declarations@.len() == 0,
    {
        Style::new()
    }
}

} // verus!
