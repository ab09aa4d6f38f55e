//! The scope of an instant event in a trace.
use vstd::prelude::*;

verus! {

/// How far an instant event of a trace reaches: the whole trace, its
/// process, or its thread.
#[derive(Debug, Clone, Copy, PartialEq, Eq)]
pub enum Scope {
    Global,
    Process,
    Thread,
}

impl Default for Scope {
    fn default() -> (s: Scope)
        ensures
            s == Scope::Global,
    {
        Scope::Global
    }
}

} // verus!
