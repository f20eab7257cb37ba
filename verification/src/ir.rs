use vstd::prelude::*;
use self::block::{Block, BlockID, BlockView};
use self::register::{Register, RegisterID};
use self::types::Type;

pub mod block;
pub mod builder;
pub mod copies;
pub mod exec;
pub mod instruction;
pub mod laws;
pub mod optimize;
pub mod order;
pub mod printing;
pub mod reach;
pub mod register;
pub mod settle;
pub mod types;
pub mod valid;

verus! {

/// A program in block form: registers, blocks, and the block to start in.
pub struct Module {
    pub entry: Option<BlockID>,
    pub blocks: Vec<Block>,
    pub registers: Vec<Register>,
}

/// The mathematical form of a module.
pub struct ModuleView {
    pub entry: Option<BlockID>,
    pub blocks: Seq<BlockView>,
    pub registers: Seq<Register>,
}

/// The mathematical form of a list of blocks.
pub open spec fn blocks_view(s: Seq<Block>) -> Seq<BlockView> {
    Seq::new(s.len(), |k: int| s[k]@)
}

impl View for Module {
    type V = ModuleView;

    open spec fn view(&self) -> ModuleView {
        ModuleView {
            entry: self.entry,
            blocks: blocks_view(self.blocks@),
            registers: self.registers@,
        }
    }
}

impl ModuleView {
    /// The module with one empty block more.
    pub open spec fn with_block(self) -> ModuleView {
        ModuleView {
            blocks: self.blocks.push(
                BlockView {
                    id: BlockID(self.blocks.len() as usize),
                    body: Seq::empty(),
                    parameters: Seq::empty(),
                },
            ),
            ..self
        }
    }

    /// The module with one register more, of the given type.
    pub open spec fn with_register(self, reg_type: Type) -> ModuleView {
        ModuleView {
            registers: self.registers.push(
                Register { id: RegisterID(self.registers.len() as usize), register_type: reg_type },
            ),
            ..self
        }
    }

    /// The module with the block at `block` replaced.
    pub open spec fn with_block_at(self, block: int, b: BlockView) -> ModuleView {
        ModuleView { blocks: self.blocks.update(block, b), ..self }
    }

    /// The module with one parameter more on a block.
    pub open spec fn with_parameter(self, block: int, reg: RegisterID) -> ModuleView {
        self.with_block_at(
            block,
            BlockView {
                parameters: self.blocks[block].parameters.push(reg),
                ..self.blocks[block]
            },
        )
    }
}

/// A module in memory has no more blocks and registers than can be counted.
pub proof fn lemma_module_bounds(m: &Module)
    ensures
        m@.blocks.len() <= usize::MAX,
        m@.registers.len() <= usize::MAX,
{
    vstd::std_specs::vec::axiom_spec_len(&m.blocks);
    vstd::std_specs::vec::axiom_spec_len(&m.registers);
    assert(m@.blocks.len() == m.blocks@.len());
}

impl Module {
    pub fn new() -> (r: Self)
        ensures
            r@ == (ModuleView { entry: None, blocks: Seq::empty(), registers: Seq::empty() }),
    {
        let r = Self { entry: None, blocks: Vec::new(), registers: Vec::new() };
        assert(blocks_view(r.blocks@) =~= Seq::empty());
        r
    }

    pub fn set_entry_block(&mut self, entry: BlockID)
        ensures
            final(self)@ == (ModuleView { entry: Some(entry), ..old(self)@ }),
    {
        self.entry = Some(entry);
    }

    /// Adds an empty block and gives its place.
    pub fn add_block(&mut self) -> (id: BlockID)
        ensures
            id == BlockID(old(self)@.blocks.len() as usize),
            final(self)@ == old(self)@.with_block(),
    {
        let id = BlockID(self.blocks.len());
        let block = Block::new(id);
        assert(blocks_view(self.blocks@.push(block)) =~= blocks_view(self.blocks@).push(block@));
        self.blocks.push(block);
        id
    }

    pub fn block(&self, id: BlockID) -> (r: Option<&Block>)
        ensures
            match r {
                Some(b) => id.0 < self@.blocks.len() && b@ == self@.blocks[id.0 as int],
                None => id.0 >= self@.blocks.len(),
            },
    {
        if id.0 < self.blocks.len() {
            Some(&self.blocks[id.0])
        } else {
            None
        }
    }

    pub fn block_mut(&mut self, id: BlockID) -> (r: Option<&mut Block>)
        ensures
            match r {
                Some(b) => {
                    &&& id.0 < old(self)@.blocks.len()
                    &&& b@ == old(self)@.blocks[id.0 as int]
                    &&& final(self)@ == old(self)@.with_block_at(id.0 as int, final(b)@)
                },
                None => id.0 >= old(self)@.blocks.len() && final(self)@ == old(self)@,
            },
    {
        if id.0 < self.blocks.len() {
            let ghost before = self@;
            let b = &mut self.blocks[id.0];
            proof {
                assert(blocks_view(after_borrow(self.blocks)@) =~= before.blocks.update(
                    id.0 as int,
                    final(b)@,
                ));
            }
            Some(b)
        } else {
            None
        }
    }

    /// Adds a register of the given type and gives its place.
    pub fn add_register(&mut self, reg_type: Type) -> (id: RegisterID)
        ensures
            id == RegisterID(old(self)@.registers.len() as usize),
            final(self)@ == old(self)@.with_register(reg_type),
    {
        let id = RegisterID(self.registers.len());
        self.registers.push(Register::new(id, reg_type));
        id
    }

    pub fn reg(&self, id: RegisterID) -> (r: Option<&Register>)
        ensures
            match r {
                Some(reg) => id.0 < self@.registers.len() && *reg == self@.registers[id.0 as int],
                None => id.0 >= self@.registers.len(),
            },
    {
        if id.0 < self.registers.len() {
            Some(&self.registers[id.0])
        } else {
            None
        }
    }

    pub fn reg_mut(&mut self, id: RegisterID) -> (r: Option<&mut Register>)
        ensures
            match r {
                Some(reg) => {
                    &&& id.0 < old(self)@.registers.len()
                    &&& *reg == old(self)@.registers[id.0 as int]
                    &&& final(self)@ == (ModuleView {
                        registers: old(self)@.registers.update(id.0 as int, *final(reg)),
                        ..old(self)@
                    })
                },
                None => id.0 >= old(self)@.registers.len() && final(self)@ == old(self)@,
            },
    {
        if id.0 < self.registers.len() {
            Some(&mut self.registers[id.0])
        } else {
            None
        }
    }

    /// Adds a register of the given type and makes it the last parameter of a block.
    pub fn add_parameter(&mut self, block: BlockID, param_type: Type) -> (id: RegisterID)
        requires
            block.0 < old(self)@.blocks.len(),
        ensures
            id == RegisterID(old(self)@.registers.len() as usize),
            final(self)@ == old(self)@.with_register(param_type).with_parameter(block.0 as int, id),
    {
        let id = self.add_register(param_type);
        let ghost before = self@;
        self.blocks[block.0].add_parameter(id);
        assert(self@.blocks =~= before.with_parameter(block.0 as int, id).blocks);
        id
    }

    fn entry_block(&self) -> (r: BlockID)
        requires
            self@.entry is Some,
        ensures
            Some(r) == self@.entry,
    {
        self.entry.unwrap()
    }
}

} // verus!
