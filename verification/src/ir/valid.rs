use vstd::prelude::*;
use super::block::BlockView;
use super::instruction::{BinaryOp, Expr, LeafExpr, Op, Target};
use super::register::RegisterID;
use super::types::Type;
use super::ModuleView;

verus! {

/// A place where a register takes its value: an instruction of a block, or a
/// parameter of a block.
pub enum Site {
    Instruction { block: int, index: int },
    Parameter { block: int, index: int },
}

impl ModuleView {
    /// The place `site` gives the register `r` its value.
    pub open spec fn defines(self, site: Site, r: RegisterID) -> bool {
        match site {
            Site::Instruction { block, index } => {
                &&& 0 <= block < self.blocks.len()
                &&& 0 <= index < self.blocks[block].body.len()
                &&& self.blocks[block].body[index].target() == Some(r)
            },
            Site::Parameter { block, index } => {
                &&& 0 <= block < self.blocks.len()
                &&& 0 <= index < self.blocks[block].parameters.len()
                &&& self.blocks[block].parameters[index] == r
            },
        }
    }

    /// Every register takes its value at one place at most: it is the
    /// target of at most one load, assignment or read, or one parameter of
    /// one block.
    pub open spec fn single_assignment(self) -> bool {
        forall|s1: Site, s2: Site, r: RegisterID|
            #![trigger self.defines(s1, r), self.defines(s2, r)]
            self.defines(s1, r) && self.defines(s2, r) ==> s1 == s2
    }

    /// Every register that takes a value somewhere is one of the module.
    pub open spec fn targets_known(self) -> bool {
        forall|site: Site, r: RegisterID| #[trigger]
            self.defines(site, r) ==> r.0 < self.registers.len()
    }

    /// The register is one of the module, of the given type.
    pub open spec fn has(self, r: RegisterID, t: Type) -> bool {
        r.0 < self.registers.len() && self.registers[r.0 as int].register_type == t
    }

    /// The operand is a constant or a register of the module, of the given type.
    pub open spec fn leaf_typed(self, l: LeafExpr, t: Type) -> bool {
        l.known(self) && l.width(self) == t
    }

    /// The type of an expression whose operands fit together.
    pub open spec fn expr_type(self, e: Expr) -> Option<Type> {
        match e {
            Expr::Leaf(l) => if l.known(self) {
                Some(l.width(self))
            } else {
                None
            },
            Expr::Binary(a, _, b) => if a.known(self) && b.known(self) && a.width(self)
                == b.width(self) {
                Some(a.width(self))
            } else {
                None
            },
            Expr::Unary(a, _) => if a.known(self) {
                Some(a.width(self))
            } else {
                None
            },
            Expr::Test(a, _, b) => if a.known(self) && b.known(self) && a.width(self) == b.width(
                self,
            ) {
                Some(Type::I1)
            } else {
                None
            },
        }
    }

    /// Every argument of the edge is a constant or a register of the module.
    pub open spec fn edge_known(self, t: Target) -> bool {
        forall|k: int| 0 <= k < t.args.len() ==> (#[trigger] t.args[k]).known(self)
    }

    /// The instruction keeps the rules on types: a load gives a byte from a
    /// word index, a store takes a word index and a byte, a bounds check
    /// takes words, an output takes a byte, a read gives a byte, a branch
    /// takes a bit, the operands of a binary operation or of a test are of
    /// one type, and an assignment goes to a register of its expression's
    /// type.
    pub open spec fn op_typed(self, op: Op) -> bool {
        match op {
            Op::Nop => true,
            Op::LoadCell(t, index) => self.has(t, Type::I8) && self.leaf_typed(index, Type::I64),
            Op::StoreCell(index, value) => self.leaf_typed(index, Type::I64) && self.leaf_typed(
                value,
                Type::I8,
            ),
            Op::BoundsCheck(start, end) => self.leaf_typed(start, Type::I64) && self.leaf_typed(
                end,
                Type::I64,
            ),
            Op::Assign(t, e) => self.expr_type(e) matches Some(ty) && self.has(t, ty),
            Op::Output(value) => self.leaf_typed(value, Type::I8),
            Op::Input(t, default) => self.has(t, Type::I8) && self.leaf_typed(default, Type::I8),
            Op::Jump(target) => self.edge_known(target),
            Op::Branch(c, then, els) => self.leaf_typed(c, Type::I1) && self.edge_known(then)
                && self.edge_known(els),
        }
    }

    /// Every instruction keeps the rules on types.
    pub open spec fn well_typed(self) -> bool {
        forall|b: int, i: int|
            0 <= b < self.blocks.len() && 0 <= i < self.blocks[b].body.len() ==> self.op_typed(
                #[trigger] self.blocks[b].body[i],
            )
    }

    /// The module is in single-assignment form and keeps the rules on types.
    pub open spec fn valid(self) -> bool {
        self.single_assignment() && self.targets_known() && self.well_typed()
    }

    /// The module holds all the registers of `old`, and as many blocks at least.
    pub open spec fn extends(self, old: ModuleView) -> bool {
        &&& old.blocks.len() <= self.blocks.len()
        &&& old.registers.len() <= self.registers.len()
        &&& forall|k: int| 0 <= k < old.registers.len() ==> self.registers[k] == old.registers[k]
    }

    /// No place gives the register a value.
    pub open spec fn fresh(self, r: RegisterID) -> bool {
        forall|site: Site| !#[trigger] self.defines(site, r)
    }
}

/// An instruction that keeps the rules keeps them in a module that has grown.
pub proof fn lemma_typed_in_larger(old: ModuleView, new: ModuleView, op: Op)
    requires
        new.extends(old),
        old.op_typed(op),
    ensures
        new.op_typed(op),
{
    match op {
        Op::Jump(t) => {
            assert forall|k: int| 0 <= k < t.args.len() implies (#[trigger] t.args[k]).known(
                new,
            ) by {
                assert(t.args[k].known(old));
            }
        },
        Op::Branch(c, t, e) => {
            assert forall|k: int| 0 <= k < t.args.len() implies (#[trigger] t.args[k]).known(
                new,
            ) by {
                assert(t.args[k].known(old));
            }
            assert forall|k: int| 0 <= k < e.args.len() implies (#[trigger] e.args[k]).known(
                new,
            ) by {
                assert(e.args[k].known(old));
            }
        },
        _ => {},
    }
}

/// A register that the module does not have yet is fresh.
pub proof fn lemma_next_is_fresh(m: ModuleView)
    requires
        m.targets_known(),
        m.registers.len() <= usize::MAX,
    ensures
        m.fresh(m.next_register()),
{
    assert forall|site: Site| !#[trigger] m.defines(site, m.next_register()) by {
        if m.defines(site, m.next_register()) {
            assert(m.next_register().0 < m.registers.len());
        }
    }
}

/// One register more leaves a module valid.
pub proof fn lemma_with_register_valid(m: ModuleView, t: Type)
    requires
        m.valid(),
    ensures
        m.with_register(t).valid(),
        m.with_register(t).extends(m),
        m.registers.len() <= usize::MAX ==> m.with_register(t).fresh(m.next_register()),
{
    let n = m.with_register(t);
    assert forall|site: Site, r: RegisterID| n.defines(site, r) == m.defines(site, r) by {}
    assert forall|b: int, i: int|
        0 <= b < n.blocks.len() && 0 <= i < n.blocks[b].body.len() implies n.op_typed(
        #[trigger] n.blocks[b].body[i],
    ) by {
        lemma_typed_in_larger(m, n, m.blocks[b].body[i]);
    }
    assert forall|site: Site, r: RegisterID| #[trigger] n.defines(site, r) implies r.0
        < n.registers.len() by {
        assert(m.defines(site, r));
    }
    assert forall|s1: Site, s2: Site, r: RegisterID|
        #![trigger n.defines(s1, r), n.defines(s2, r)]
        n.defines(s1, r) && n.defines(s2, r) implies s1 == s2 by {
        assert(m.defines(s1, r) && m.defines(s2, r));
    }
    if m.registers.len() <= usize::MAX {
        lemma_next_is_fresh(m);
        assert forall|site: Site| !#[trigger] n.defines(site, m.next_register()) by {
            assert(!m.defines(site, m.next_register()));
        }
    }
}

/// One block more leaves a module valid.
pub proof fn lemma_with_block_valid(m: ModuleView)
    requires
        m.valid(),
    ensures
        m.with_block().valid(),
        m.with_block().extends(m),
{
    let n = m.with_block();
    assert forall|site: Site, r: RegisterID| n.defines(site, r) implies m.defines(site, r) by {
        match site {
            Site::Instruction { block, index } => {
                if block == m.blocks.len() {
                } else {
                    assert(n.blocks[block] == m.blocks[block]);
                }
            },
            Site::Parameter { block, index } => {
                if block == m.blocks.len() {
                } else {
                    assert(n.blocks[block] == m.blocks[block]);
                }
            },
        }
    }
    assert forall|b: int, i: int|
        0 <= b < n.blocks.len() && 0 <= i < n.blocks[b].body.len() implies n.op_typed(
        #[trigger] n.blocks[b].body[i],
    ) by {
        assert(b < m.blocks.len());
        assert(n.blocks[b] == m.blocks[b]);
        lemma_typed_in_larger(m, n, m.blocks[b].body[i]);
    }
    assert forall|site: Site, r: RegisterID| #[trigger] n.defines(site, r) implies r.0
        < n.registers.len() by {
        assert(m.defines(site, r));
    }
    assert forall|s1: Site, s2: Site, r: RegisterID|
        #![trigger n.defines(s1, r), n.defines(s2, r)]
        n.defines(s1, r) && n.defines(s2, r) implies s1 == s2 by {
        assert(m.defines(s1, r) && m.defines(s2, r));
    }
}

/// One instruction more, which keeps the rules and writes a fresh register
/// of the module or none, leaves a module valid.
pub proof fn lemma_with_instruction_valid(m: ModuleView, block: int, op: Op)
    requires
        m.valid(),
        0 <= block < m.blocks.len(),
        m.op_typed(op),
        op.target() matches Some(r) ==> m.fresh(r) && r.0 < m.registers.len(),
    ensures
        m.with_instruction(block, op).valid(),
        m.with_instruction(block, op).extends(m),
{
    let n = m.with_instruction(block, op);
    let last = m.blocks[block].body.len() as int;
    let here = Site::Instruction { block, index: last };
    assert forall|site: Site, r: RegisterID| #[trigger] n.defines(site, r) implies m.defines(
        site,
        r,
    ) || (site == here && op.target() == Some(r)) by {
        match site {
            Site::Instruction { block: b, index } => {
                if b != block {
                    assert(n.blocks[b] == m.blocks[b]);
                } else if index < last {
                    assert(n.blocks[b].body[index] == m.blocks[b].body[index]);
                }
            },
            Site::Parameter { block: b, index } => {
                if b != block {
                    assert(n.blocks[b] == m.blocks[b]);
                }
            },
        }
    }
    assert forall|b: int, i: int|
        0 <= b < n.blocks.len() && 0 <= i < n.blocks[b].body.len() implies n.op_typed(
        #[trigger] n.blocks[b].body[i],
    ) by {
        if b != block {
            assert(n.blocks[b] == m.blocks[b]);
            lemma_typed_in_larger(m, n, m.blocks[b].body[i]);
        } else if i < last {
            assert(n.blocks[b].body[i] == m.blocks[b].body[i]);
            lemma_typed_in_larger(m, n, m.blocks[b].body[i]);
        } else {
            lemma_typed_in_larger(m, n, op);
        }
    }
    assert forall|site: Site, r: RegisterID| #[trigger] n.defines(site, r) implies r.0
        < n.registers.len() by {
        if m.defines(site, r) {
        }
    }
    assert forall|s1: Site, s2: Site, r: RegisterID|
        #![trigger n.defines(s1, r), n.defines(s2, r)]
        n.defines(s1, r) && n.defines(s2, r) implies s1 == s2 by {
        if m.defines(s1, r) && m.defines(s2, r) {
        } else if m.defines(s1, r) {
            assert(!m.defines(s1, r));
        } else if m.defines(s2, r) {
            assert(!m.defines(s2, r));
        }
    }
}

/// One parameter more, a fresh register of the module, leaves a module valid.
pub proof fn lemma_with_parameter_valid(m: ModuleView, block: int, id: RegisterID)
    requires
        m.valid(),
        0 <= block < m.blocks.len(),
        m.fresh(id),
        id.0 < m.registers.len(),
    ensures
        m.with_parameter(block, id).valid(),
        m.with_parameter(block, id).extends(m),
{
    let n = m.with_parameter(block, id);
    let last = m.blocks[block].parameters.len() as int;
    let here = Site::Parameter { block, index: last };
    assert forall|site: Site, r: RegisterID| #[trigger] n.defines(site, r) implies m.defines(
        site,
        r,
    ) || (site == here && r == id) by {
        match site {
            Site::Instruction { block: b, index } => {
                if b != block {
                    assert(n.blocks[b] == m.blocks[b]);
                }
            },
            Site::Parameter { block: b, index } => {
                if b != block {
                    assert(n.blocks[b] == m.blocks[b]);
                } else if index < last {
                    assert(n.blocks[b].parameters[index] == m.blocks[b].parameters[index]);
                }
            },
        }
    }
    assert forall|b: int, i: int|
        0 <= b < n.blocks.len() && 0 <= i < n.blocks[b].body.len() implies n.op_typed(
        #[trigger] n.blocks[b].body[i],
    ) by {
        if b != block {
            assert(n.blocks[b] == m.blocks[b]);
        }
        lemma_typed_in_larger(m, n, m.blocks[b].body[i]);
    }
    assert forall|site: Site, r: RegisterID| #[trigger] n.defines(site, r) implies r.0
        < n.registers.len() by {
        if m.defines(site, r) {
        }
    }
    assert forall|s1: Site, s2: Site, r: RegisterID|
        #![trigger n.defines(s1, r), n.defines(s2, r)]
        n.defines(s1, r) && n.defines(s2, r) implies s1 == s2 by {
        if m.defines(s1, r) && m.defines(s2, r) {
        } else if m.defines(s1, r) {
            assert(!m.defines(s1, r));
        } else if m.defines(s2, r) {
            assert(!m.defines(s2, r));
        }
    }
}

// ---------------------------------------------------------------------------
// The order of a module
// ---------------------------------------------------------------------------

/// Every register that the instruction reads lies below `bound`.
pub open spec fn reads_below(op: Op, bound: int) -> bool {
    forall|r: RegisterID| #[trigger] op.reads(r) ==> r.0 < bound
}

/// The operand is a constant, or a register below `bound`.
pub open spec fn leaf_below(l: LeafExpr, bound: int) -> bool {
    l matches LeafExpr::Register(r) ==> r.0 < bound
}

/// What `reads_below` says, operand by operand.
pub open spec fn operands_below(op: Op, bound: int) -> bool {
    match op {
        Op::Nop => true,
        Op::LoadCell(_, e) => leaf_below(e, bound),
        Op::StoreCell(d, e) => leaf_below(d, bound) && leaf_below(e, bound),
        Op::BoundsCheck(l, h) => leaf_below(l, bound) && leaf_below(h, bound),
        Op::Assign(_, Expr::Leaf(a)) => leaf_below(a, bound),
        Op::Assign(_, Expr::Binary(a, _, b)) => leaf_below(a, bound) && leaf_below(b, bound),
        Op::Assign(_, Expr::Unary(a, _)) => leaf_below(a, bound),
        Op::Assign(_, Expr::Test(a, _, b)) => leaf_below(a, bound) && leaf_below(b, bound),
        Op::Output(e) => leaf_below(e, bound),
        Op::Input(_, e) => leaf_below(e, bound),
        Op::Jump(t) => forall|k: int| 0 <= k < t.args.len() ==> leaf_below(#[trigger] t.args[k], bound),
        Op::Branch(c, t, e) => leaf_below(c, bound) && (forall|k: int|
            0 <= k < t.args.len() ==> leaf_below(#[trigger] t.args[k], bound)) && (forall|k: int|
            0 <= k < e.args.len() ==> leaf_below(#[trigger] e.args[k], bound)),
    }
}

pub proof fn lemma_operands_below(op: Op, bound: int)
    ensures
        operands_below(op, bound) <==> reads_below(op, bound),
{
    if operands_below(op, bound) {
        assert forall|r: RegisterID| #[trigger] op.reads(r) implies r.0 < bound by {
            match op {
                Op::Jump(t) => {
                    let k = choose|k: int| 0 <= k < t.args.len() && (#[trigger] t.args[k]).reads(r);
                    assert(leaf_below(t.args[k], bound));
                },
                Op::Branch(c, t, e) => {
                    if t.reads(r) {
                        let k = choose|k: int|
                            0 <= k < t.args.len() && (#[trigger] t.args[k]).reads(r);
                        assert(leaf_below(t.args[k], bound));
                    } else if e.reads(r) {
                        let k = choose|k: int|
                            0 <= k < e.args.len() && (#[trigger] e.args[k]).reads(r);
                        assert(leaf_below(e.args[k], bound));
                    }
                },
                _ => {},
            }
        }
    }
    if reads_below(op, bound) {
        match op {
            Op::Jump(t) => {
                assert forall|k: int| 0 <= k < t.args.len() implies leaf_below(
                    #[trigger] t.args[k],
                    bound,
                ) by {
                    match t.args[k] {
                        LeafExpr::Register(r) => {
                            assert(t.args[k].reads(r));
                            assert(op.reads(r));
                        },
                        _ => {},
                    }
                }
            },
            Op::Branch(c, t, e) => {
                match c {
                    LeafExpr::Register(r) => {
                        assert(op.reads(r));
                    },
                    _ => {},
                }
                assert forall|k: int| 0 <= k < t.args.len() implies leaf_below(
                    #[trigger] t.args[k],
                    bound,
                ) by {
                    match t.args[k] {
                        LeafExpr::Register(r) => {
                            assert(t.args[k].reads(r));
                            assert(op.reads(r));
                        },
                        _ => {},
                    }
                }
                assert forall|k: int| 0 <= k < e.args.len() implies leaf_below(
                    #[trigger] e.args[k],
                    bound,
                ) by {
                    match e.args[k] {
                        LeafExpr::Register(r) => {
                            assert(e.args[k].reads(r));
                            assert(op.reads(r));
                        },
                        _ => {},
                    }
                }
            },
            Op::LoadCell(_, a) => {
                assert(a matches LeafExpr::Register(r) ==> op.reads(r));
            },
            Op::StoreCell(a, b) => {
                assert(a matches LeafExpr::Register(r) ==> op.reads(r));
                assert(b matches LeafExpr::Register(r) ==> op.reads(r));
            },
            Op::BoundsCheck(a, b) => {
                assert(a matches LeafExpr::Register(r) ==> op.reads(r));
                assert(b matches LeafExpr::Register(r) ==> op.reads(r));
            },
            Op::Assign(_, Expr::Leaf(a)) => {
                assert(a matches LeafExpr::Register(r) ==> op.reads(r));
            },
            Op::Assign(_, Expr::Binary(a, _, b)) => {
                assert(a matches LeafExpr::Register(r) ==> op.reads(r));
                assert(b matches LeafExpr::Register(r) ==> op.reads(r));
            },
            Op::Assign(_, Expr::Unary(a, _)) => {
                assert(a matches LeafExpr::Register(r) ==> op.reads(r));
            },
            Op::Assign(_, Expr::Test(a, _, b)) => {
                assert(a matches LeafExpr::Register(r) ==> op.reads(r));
                assert(b matches LeafExpr::Register(r) ==> op.reads(r));
            },
            Op::Output(a) => {
                assert(a matches LeafExpr::Register(r) ==> op.reads(r));
            },
            Op::Input(_, a) => {
                assert(a matches LeafExpr::Register(r) ==> op.reads(r));
            },
            Op::Nop => {},
        }
    }
}

/// The register is written by an instruction of the body in front of `before`.
pub open spec fn written_before(body: Seq<Op>, before: int, r: RegisterID) -> bool {
    exists|j: int| 0 <= j < before && j < body.len() && (#[trigger] body[j]).target() == Some(r)
}

/// The operand is a constant, or a register that the body writes in front
/// of `before`.
pub open spec fn leaf_local(body: Seq<Op>, before: int, l: LeafExpr) -> bool {
    l matches LeafExpr::Register(r) ==> written_before(body, before, r)
}

/// A copy of a register copies one that its block has written before, and
/// a product has operands that its block has written before, or constants.
pub open spec fn op_local(body: Seq<Op>, at: int, op: Op) -> bool {
    match op {
        Op::Assign(_, Expr::Leaf(l)) => leaf_local(body, at, l),
        Op::Assign(_, Expr::Binary(a, BinaryOp::Mul, b)) => leaf_local(body, at, a) && leaf_local(
            body,
            at,
            b,
        ),
        _ => true,
    }
}

impl ModuleView {
    /// A jump or a branch is the last instruction of its block.
    pub open spec fn ends_blocks(self) -> bool {
        forall|b: int, i: int|
            0 <= b < self.blocks.len() && 0 <= i < self.blocks[b].body.len() && (
            #[trigger] self.blocks[b].body[i]).is_terminator() ==> i == self.blocks[b].body.len()
                - 1
    }

    /// Within a block, an instruction writes a register above every register
    /// that it or an instruction in front of it reads, and above every
    /// register that an instruction in front of it writes.
    pub open spec fn straight(self) -> bool {
        forall|b: int, i: int, j: int|
            #![trigger self.blocks[b].body[i], self.blocks[b].body[j]]
            0 <= b < self.blocks.len() && 0 <= i <= j < self.blocks[b].body.len() ==> (
            self.blocks[b].body[j].target() matches Some(t) ==> reads_below(
                self.blocks[b].body[i],
                t.0 as int,
            ) && (i < j ==> (self.blocks[b].body[i].target() matches Some(u) ==> u.0 < t.0)))
    }

    /// Copies and products take what their own block has written before.
    pub open spec fn local(self) -> bool {
        forall|b: int, i: int|
            0 <= b < self.blocks.len() && 0 <= i < self.blocks[b].body.len() ==> op_local(
                self.blocks[b].body,
                i,
                #[trigger] self.blocks[b].body[i],
            )
    }

    /// The module is valid, and in the order that makes the rewrites safe.
    pub open spec fn orderly(self) -> bool {
        self.valid() && self.ends_blocks() && self.straight() && self.local()
    }

    /// No jump or branch stands in the block yet.
    pub open spec fn open_block(self, block: int) -> bool {
        forall|i: int|
            0 <= i < self.blocks[block].body.len() ==> !(#[trigger] self.blocks[block].body[i]).is_terminator()
    }
}

/// The module without blocks and registers is orderly.
pub proof fn lemma_empty_orderly(entry: Option<super::block::BlockID>)
    ensures
        (ModuleView { entry, blocks: Seq::empty(), registers: Seq::empty() }).orderly(),
{
}

/// An instruction that keeps the rules on types reads registers of the module.
pub proof fn lemma_typed_reads_known(m: ModuleView, op: Op)
    requires
        m.op_typed(op),
    ensures
        reads_below(op, m.registers.len() as int),
{
    lemma_operands_below(op, m.registers.len() as int);
    match op {
        Op::Jump(t) => {
            assert forall|k: int| 0 <= k < t.args.len() implies leaf_below(
                #[trigger] t.args[k],
                m.registers.len() as int,
            ) by {
                assert(t.args[k].known(m));
            }
        },
        Op::Branch(c, t, e) => {
            assert forall|k: int| 0 <= k < t.args.len() implies leaf_below(
                #[trigger] t.args[k],
                m.registers.len() as int,
            ) by {
                assert(t.args[k].known(m));
            }
            assert forall|k: int| 0 <= k < e.args.len() implies leaf_below(
                #[trigger] e.args[k],
                m.registers.len() as int,
            ) by {
                assert(e.args[k].known(m));
            }
        },
        _ => {},
    }
}

/// What a body has written before, a longer body has written before.
pub proof fn lemma_local_in_longer(body: Seq<Op>, longer: Seq<Op>, at: int, op: Op)
    requires
        op_local(body, at, op),
        body.len() <= longer.len(),
        forall|j: int| 0 <= j < body.len() ==> longer[j] == body[j],
    ensures
        op_local(longer, at, op),
{
    assert forall|r: RegisterID| written_before(body, at, r) implies written_before(
        longer,
        at,
        r,
    ) by {
        let j = choose|j: int|
            0 <= j < at && j < body.len() && (#[trigger] body[j]).target() == Some(r);
        assert(longer[j].target() == Some(r));
    }
}

/// One block more leaves a module orderly.
pub proof fn lemma_with_block_orderly(m: ModuleView)
    requires
        m.orderly(),
    ensures
        m.with_block().orderly(),
{
    let n = m.with_block();
    lemma_with_block_valid(m);
    assert forall|b: int| 0 <= b < m.blocks.len() implies n.blocks[b] == m.blocks[b] by {}
    assert forall|b: int, i: int|
        0 <= b < n.blocks.len() && 0 <= i < n.blocks[b].body.len() implies op_local(
        n.blocks[b].body,
        i,
        #[trigger] n.blocks[b].body[i],
    ) by {
        assert(n.blocks[b] == m.blocks[b]);
        assert(op_local(m.blocks[b].body, i, m.blocks[b].body[i]));
    }
    assert forall|b: int, i: int, j: int|
        #![trigger n.blocks[b].body[i], n.blocks[b].body[j]]
        0 <= b < n.blocks.len() && 0 <= i <= j < n.blocks[b].body.len() implies (
    n.blocks[b].body[j].target() matches Some(t) ==> reads_below(n.blocks[b].body[i], t.0 as int)
        && (i < j ==> (n.blocks[b].body[i].target() matches Some(u) ==> u.0 < t.0))) by {
        assert(n.blocks[b] == m.blocks[b]);
        let x = m.blocks[b].body[i];
        let y = m.blocks[b].body[j];
    }
    assert forall|b: int, i: int|
        0 <= b < n.blocks.len() && 0 <= i < n.blocks[b].body.len() && (
        #[trigger] n.blocks[b].body[i]).is_terminator() implies i == n.blocks[b].body.len()
        - 1 by {
        assert(n.blocks[b] == m.blocks[b]);
        assert(m.blocks[b].body[i].is_terminator());
    }
}

/// One register more leaves a module orderly.
pub proof fn lemma_with_register_orderly(m: ModuleView, t: Type)
    requires
        m.orderly(),
    ensures
        m.with_register(t).orderly(),
{
    let n = m.with_register(t);
    lemma_with_register_valid(m, t);
    assert(n.blocks == m.blocks);
    assert forall|b: int, i: int|
        0 <= b < n.blocks.len() && 0 <= i < n.blocks[b].body.len() implies op_local(
        n.blocks[b].body,
        i,
        #[trigger] n.blocks[b].body[i],
    ) by {
        assert(op_local(m.blocks[b].body, i, m.blocks[b].body[i]));
    }
    assert forall|b: int, i: int, j: int|
        #![trigger n.blocks[b].body[i], n.blocks[b].body[j]]
        0 <= b < n.blocks.len() && 0 <= i <= j < n.blocks[b].body.len() implies (
    n.blocks[b].body[j].target() matches Some(t) ==> reads_below(n.blocks[b].body[i], t.0 as int)
        && (i < j ==> (n.blocks[b].body[i].target() matches Some(u) ==> u.0 < t.0))) by {
        let x = m.blocks[b].body[i];
        let y = m.blocks[b].body[j];
    }
    assert forall|b: int, i: int|
        0 <= b < n.blocks.len() && 0 <= i < n.blocks[b].body.len() && (
        #[trigger] n.blocks[b].body[i]).is_terminator() implies i == n.blocks[b].body.len()
        - 1 by {
        assert(m.blocks[b].body[i].is_terminator());
    }
}

/// One parameter more, a fresh register of the module, leaves a module orderly.
pub proof fn lemma_with_parameter_orderly(m: ModuleView, block: int, id: RegisterID)
    requires
        m.orderly(),
        0 <= block < m.blocks.len(),
        m.fresh(id),
        id.0 < m.registers.len(),
    ensures
        m.with_parameter(block, id).orderly(),
{
    let n = m.with_parameter(block, id);
    lemma_with_parameter_valid(m, block, id);
    assert forall|b: int| 0 <= b < m.blocks.len() implies n.blocks[b].body
        == m.blocks[b].body by {}
    assert forall|b: int, i: int|
        0 <= b < n.blocks.len() && 0 <= i < n.blocks[b].body.len() implies op_local(
        n.blocks[b].body,
        i,
        #[trigger] n.blocks[b].body[i],
    ) by {
        assert(n.blocks[b].body == m.blocks[b].body);
        assert(op_local(m.blocks[b].body, i, m.blocks[b].body[i]));
    }
    assert forall|b: int, i: int, j: int|
        #![trigger n.blocks[b].body[i], n.blocks[b].body[j]]
        0 <= b < n.blocks.len() && 0 <= i <= j < n.blocks[b].body.len() implies (
    n.blocks[b].body[j].target() matches Some(t) ==> reads_below(n.blocks[b].body[i], t.0 as int)
        && (i < j ==> (n.blocks[b].body[i].target() matches Some(u) ==> u.0 < t.0))) by {
        assert(n.blocks[b].body == m.blocks[b].body);
        let x = m.blocks[b].body[i];
        let y = m.blocks[b].body[j];
    }
    assert forall|b: int, i: int|
        0 <= b < n.blocks.len() && 0 <= i < n.blocks[b].body.len() && (
        #[trigger] n.blocks[b].body[i]).is_terminator() implies i == n.blocks[b].body.len()
        - 1 by {
        assert(n.blocks[b].body == m.blocks[b].body);
        assert(m.blocks[b].body[i].is_terminator());
    }
}

/// One instruction more at the end of an open block leaves a module
/// orderly, where the instruction keeps the rules on types, takes what its
/// block has written where it is a copy or a product, and writes no
/// register, or a fresh one above every register of the module that is
/// read or written.
pub proof fn lemma_with_instruction_orderly(m: ModuleView, block: int, op: Op)
    requires
        m.orderly(),
        0 <= block < m.blocks.len(),
        m.open_block(block),
        m.op_typed(op),
        op_local(m.blocks[block].body, m.blocks[block].body.len() as int, op),
        op.target() matches Some(r) ==> m.fresh(r) && r.0 < m.registers.len() && reads_below(
            op,
            r.0 as int,
        ) && (forall|i: int|
            0 <= i < m.blocks[block].body.len() ==> reads_below(
                #[trigger] m.blocks[block].body[i],
                r.0 as int,
            ) && (m.blocks[block].body[i].target() matches Some(u) ==> u.0 < r.0)),
    ensures
        m.with_instruction(block, op).orderly(),
        !op.is_terminator() ==> m.with_instruction(block, op).open_block(block),
{
    let n = m.with_instruction(block, op);
    let last = m.blocks[block].body.len() as int;
    lemma_with_instruction_valid(m, block, op);
    assert forall|b: int, i: int|
        0 <= b < n.blocks.len() && 0 <= i < m.blocks[b].body.len() implies n.blocks[b].body[i]
        == m.blocks[b].body[i] by {
        if b != block {
            assert(n.blocks[b] == m.blocks[b]);
        }
    }
    assert forall|b: int, i: int|
        0 <= b < n.blocks.len() && 0 <= i < n.blocks[b].body.len() implies op_local(
        n.blocks[b].body,
        i,
        #[trigger] n.blocks[b].body[i],
    ) by {
        if b != block {
            assert(n.blocks[b] == m.blocks[b]);
            assert(op_local(m.blocks[b].body, i, m.blocks[b].body[i]));
        } else if i < last {
            assert(op_local(m.blocks[b].body, i, m.blocks[b].body[i]));
            lemma_local_in_longer(m.blocks[b].body, n.blocks[b].body, i, m.blocks[b].body[i]);
        } else {
            lemma_local_in_longer(m.blocks[b].body, n.blocks[b].body, i, op);
        }
    }
    assert forall|b: int, i: int, j: int|
        #![trigger n.blocks[b].body[i], n.blocks[b].body[j]]
        0 <= b < n.blocks.len() && 0 <= i <= j < n.blocks[b].body.len() implies (
    n.blocks[b].body[j].target() matches Some(t) ==> reads_below(n.blocks[b].body[i], t.0 as int)
        && (i < j ==> (n.blocks[b].body[i].target() matches Some(u) ==> u.0 < t.0))) by {
        if b != block {
            assert(n.blocks[b] == m.blocks[b]);
            let x = m.blocks[b].body[i];
            let y = m.blocks[b].body[j];
        } else if j < last {
            let x = m.blocks[b].body[i];
            let y = m.blocks[b].body[j];
        } else {
            if i < last {
                assert(n.blocks[b].body[i] == m.blocks[block].body[i]);
            }
        }
    }
    assert forall|b: int, i: int|
        0 <= b < n.blocks.len() && 0 <= i < n.blocks[b].body.len() && (
        #[trigger] n.blocks[b].body[i]).is_terminator() implies i == n.blocks[b].body.len()
        - 1 by {
        if b != block {
            assert(n.blocks[b] == m.blocks[b]);
            assert(m.blocks[b].body[i].is_terminator());
        } else if i < last {
            assert(!m.blocks[block].body[i].is_terminator());
        }
    }
    if !op.is_terminator() {
        assert forall|i: int| 0 <= i < n.blocks[block].body.len() implies !(
        #[trigger] n.blocks[block].body[i]).is_terminator() by {
            if i < last {
                assert(!m.blocks[block].body[i].is_terminator());
            }
        }
    }
}

/// One instruction more that writes a new register, at the end of an open
/// block, leaves a module orderly.
pub proof fn lemma_defining_orderly(m: ModuleView, block: int, t: Type, op: Op)
    requires
        m.orderly(),
        0 <= block < m.blocks.len(),
        m.open_block(block),
        m.registers.len() < usize::MAX,
        op.target() == Some(m.next_register()),
        m.with_register(t).op_typed(op),
        reads_below(op, m.registers.len() as int),
        op_local(m.blocks[block].body, m.blocks[block].body.len() as int, op),
    ensures
        m.defining(block, t, op).orderly(),
        m.defining(block, t, op).open_block(block),
        m.defining(block, t, op).extends(m),
        m.defining(block, t, op).has(m.next_register(), t),
        written_before(
            m.defining(block, t, op).blocks[block].body,
            m.defining(block, t, op).blocks[block].body.len() as int,
            m.next_register(),
        ),
{
    let mid = m.with_register(t);
    lemma_with_register_valid(m, t);
    lemma_with_register_orderly(m, t);
    assert forall|i: int| 0 <= i < m.blocks[block].body.len() implies reads_below(
        #[trigger] mid.blocks[block].body[i],
        m.registers.len() as int,
    ) && (mid.blocks[block].body[i].target() matches Some(u) ==> u.0 < m.registers.len()) by {
        let x = m.blocks[block].body[i];
        assert(m.op_typed(m.blocks[block].body[i]));
        lemma_typed_reads_known(m, x);
        if x.target() is Some {
            assert(m.defines(Site::Instruction { block, index: i }, x.target().unwrap()));
        }
    }
    assert(mid.open_block(block)) by {
        assert forall|i: int| 0 <= i < mid.blocks[block].body.len() implies !(
        #[trigger] mid.blocks[block].body[i]).is_terminator() by {
            assert(!m.blocks[block].body[i].is_terminator());
        }
    }
    lemma_with_instruction_orderly(mid, block, op);
    lemma_with_instruction_valid(mid, block, op);
    let n = m.defining(block, t, op);
    assert(n.blocks[block].body[m.blocks[block].body.len() as int] == op);
}

} // verus!
