use vstd::prelude::*;
use super::instruction::{ops_view, Instruction, Op};
use super::register::RegisterID;

verus! {

/// The place of a block in its module.
#[derive(Copy, Clone, Debug, PartialEq, Eq, Hash, Structural)]
pub struct BlockID(pub usize);

/// A basic block: parameters that each edge into the block gives values to,
/// and instructions that run in order.
#[derive(Debug, PartialEq, Eq, Hash)]
pub struct Block {
    pub id: BlockID,
    pub body: Vec<Instruction>,
    pub parameters: Vec<RegisterID>,
}

/// The mathematical form of a block.
pub struct BlockView {
    pub id: BlockID,
    pub body: Seq<Op>,
    pub parameters: Seq<RegisterID>,
}

impl View for Block {
    type V = BlockView;

    open spec fn view(&self) -> BlockView {
        BlockView { id: self.id, body: ops_view(self.body@), parameters: self.parameters@ }
    }
}

impl Block {
    pub fn new(id: BlockID) -> (r: Self)
        ensures
            r@ == (BlockView { id, body: Seq::empty(), parameters: Seq::empty() }),
    {
        let r = Self { id, body: Vec::new(), parameters: Vec::new() };
        assert(ops_view(r.body@) =~= Seq::empty());
        r
    }

    pub fn add_instruction(&mut self, i: Instruction)
        ensures
            final(self)@ == (BlockView { body: old(self)@.body.push(i@), ..old(self)@ }),
    {
        assert(ops_view(self.body@.push(i)) =~= ops_view(self.body@).push(i@));
        self.body.push(i);
    }

    pub fn add_parameter(&mut self, reg: RegisterID)
        ensures
            final(self)@ == (BlockView { parameters: old(self)@.parameters.push(reg), ..old(self)@ }),
    {
        self.parameters.push(reg);
    }

    pub fn id(&self) -> (r: BlockID)
        ensures
            r == self@.id,
    {
        self.id
    }

    pub fn parameters(&self) -> (r: &[RegisterID])
        ensures
            r@ == self@.parameters,
    {
        self.parameters.as_slice()
    }

    pub fn parameter(&self, index: usize) -> (r: RegisterID)
        requires
            index < self@.parameters.len(),
        ensures
            r == self@.parameters[index as int],
    {
        self.parameters[index]
    }

    pub fn body(&self) -> (r: &[Instruction])
        ensures
            ops_view(r@) == self@.body,
    {
        self.body.as_slice()
    }

    pub fn instruction(&self, i: usize) -> (r: &Instruction)
        requires
            i < self@.body.len(),
        ensures
            r@ == self@.body[i as int],
    {
        &self.body[i]
    }
}

impl From<usize> for BlockID {
    fn from(value: usize) -> (r: Self) {
        BlockID(value)
    }
}

impl vstd::std_specs::convert::FromSpecImpl<usize> for BlockID {
    open spec fn obeys_from_spec() -> bool {
        true
    }

    open spec fn from_spec(v: usize) -> Self {
        BlockID(v)
    }
}

} // verus!
