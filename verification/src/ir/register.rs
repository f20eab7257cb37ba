use vstd::prelude::*;
use super::types::Type;

verus! {

/// The place of a register in its module.
#[derive(Copy, Clone, Debug, PartialEq, Eq, Hash, Structural)]
pub struct RegisterID(pub usize);

/// A register: a value that is assigned at one place of the module.
#[derive(Copy, Clone, Debug, PartialEq, Eq, Hash, Structural)]
pub struct Register {
    pub id: RegisterID,
    pub register_type: Type,
}

impl Register {
    pub fn new(id: RegisterID, register_type: Type) -> (r: Self)
        ensures
            r == (Register { id, register_type }),
    {
        Self { id, register_type }
    }

    pub fn register_type(&self) -> (r: Type)
        ensures
            r == self.register_type,
    {
        self.register_type
    }
}

impl From<usize> for RegisterID {
    fn from(value: usize) -> (r: Self) {
        RegisterID(value)
    }
}

impl vstd::std_specs::convert::FromSpecImpl<usize> for RegisterID {
    open spec fn obeys_from_spec() -> bool {
        true
    }

    open spec fn from_spec(v: usize) -> Self {
        RegisterID(v)
    }
}

} // verus!
