use vstd::prelude::*;

verus! {

/// The width of a register or of a constant.
#[derive(Copy, Clone, Debug, PartialEq, Eq, Hash, Structural)]
pub enum Type {
    I1,
    I8,
    I64,
}

} // verus!
