use vstd::prelude::*;

verus! {

/// The kind of a MIP variable.
#[derive(Debug, Clone, Copy, PartialEq, Eq, Structural)]
pub enum VarKind {
    Continuous,
    Integer,
    Binary,
}

} // verus!
