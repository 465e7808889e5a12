//! A pattern described by the shape of its lengths.
use std::rc::Rc;
use vstd::prelude::*;

verus! {

/// The shape of a pattern's lengths.
#[derive(Default, Debug, Clone, PartialEq)]
pub enum PatternKind {
    /// Not yet known.
    #[default]
    Unset,
    Literal { size: u64 },
    Fixed { size: u64 },
    Variable { min: u64, max: u64 },
}

/// A pattern with its kind and text, both unset until known.
#[derive(Default, Debug, Clone, PartialEq)]
pub struct Pattern {
    pub kind: Option<PatternKind>,
    pub data: Option<Rc<str>>,
}

impl Pattern {
    /// A pattern with neither kind nor text.
    pub fn new() -> (p: Pattern)
        ensures
            p.kind is None,
            p.data is None,
    {
        Pattern { kind: None, data: None }
    }
}

} // verus!
