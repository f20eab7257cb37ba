use vstd::prelude::*;

verus! {

pub type CellOffset = isize;

pub type BlockBalanced = bool;

/// A run of `length` cells that starts `start` cells away from the data pointer.
#[derive(Copy, Clone, Debug, PartialEq, Eq, Hash, Structural)]
pub struct BoundsRange {
    pub start: isize,
    pub length: usize,
}

/// The hull of two runs of cells, each given by its first cell and its length.
pub open spec fn hull(s1: int, l1: int, s2: int, l2: int) -> (int, int) {
    let lo = if s1 <= s2 { s1 } else { s2 };
    let hi = if s1 + l1 >= s2 + l2 { s1 + l1 } else { s2 + l2 };
    (lo, hi - lo)
}

/// Whether the run `(s1, l1)` covers every cell of the run `(s2, l2)`.
pub open spec fn covers(s1: int, l1: int, s2: int, l2: int) -> bool {
    s1 <= s2 && s1 + l1 >= s2 + l2
}

/// The distance between two offsets, which always fits the unsigned word.
fn span(start: isize, end: isize) -> (r: usize)
    requires
        start <= end,
    ensures
        r == end - start,
{
    if start >= 0 || end < 0 {
        (end - start) as usize
    } else {
        let below: usize = (-(start + 1)) as usize;
        let above: usize = end as usize;
        above + below + 1
    }
}

impl BoundsRange {
    /// The first offset past the run.
    pub open spec fn end(self) -> int {
        self.start + self.length
    }

    /// The end of the run is itself an offset.
    pub open spec fn valid(self) -> bool {
        self.end() <= isize::MAX
    }

    /// The smallest run that covers both `self` and `other`.
    pub fn merge(self, other: Self) -> (r: Self)
        requires
            self.valid(),
            other.valid(),
        ensures
            r.valid(),
            (r.start as int, r.length as int) == hull(
                self.start as int,
                self.length as int,
                other.start as int,
                other.length as int,
            ),
    {
        let start: isize = if self.start <= other.start { self.start } else { other.start };
        let end1: isize = self.start.checked_add_unsigned(self.length).unwrap();
        let end2: isize = other.start.checked_add_unsigned(other.length).unwrap();
        let end: isize = if end1 >= end2 { end1 } else { end2 };
        BoundsRange { start, length: span(start, end) }
    }

    /// Whether every cell of `other` is a cell of `self`.
    pub fn includes(&self, other: &Self) -> (r: bool)
        requires
            self.valid(),
            other.valid(),
        ensures
            r == covers(
                self.start as int,
                self.length as int,
                other.start as int,
                other.length as int,
            ),
    {
        let self_end: isize = self.start.checked_add_unsigned(self.length).unwrap();
        let other_end: isize = other.start.checked_add_unsigned(other.length).unwrap();
        self.start <= other.start && self_end >= other_end
    }
}

/// One instruction of the expression tree, with machine integers.
#[derive(Debug, PartialEq, Eq, Hash)]
pub enum Instruction {
    Modify(CellOffset, i8),
    Move(isize),
    Output(CellOffset),
    Input(CellOffset),
    SetCell(CellOffset, u8),
    AddMultiple { target: CellOffset, base: CellOffset, factor: i8 },
    BoundsCheck(BoundsRange),
    Loop(BlockBalanced, CellOffset, Vec<Instruction>),
    If(BlockBalanced, CellOffset, Vec<Instruction>),
}

/// A program of the expression tree: its instructions in order.
#[derive(Debug, PartialEq, Eq, Hash)]
pub struct Program(pub Vec<Instruction>);

/// The mathematical form of an instruction: offsets are unbounded integers and
/// bodies are sequences.
pub enum Instr {
    Modify(int, i8),
    Move(int),
    Output(int),
    Input(int),
    SetCell(int, u8),
    AddMultiple { target: int, base: int, factor: i8 },
    BoundsCheck { start: int, length: int },
    Loop(bool, int, Seq<Instr>),
    If(bool, int, Seq<Instr>),
}

impl Instr {
    /// Whether the instruction may leave the data pointer elsewhere than it
    /// found it, going by the flags of blocks.
    pub open spec fn moves_pointer(self) -> bool {
        match self {
            Instr::Move(_) => true,
            Instr::Loop(balanced, _, _) => !balanced,
            Instr::If(balanced, _, _) => !balanced,
            _ => false,
        }
    }

    pub open spec fn is_block(self) -> bool {
        self is Loop || self is If
    }

    /// The body of a block; empty for any other instruction.
    pub open spec fn body(self) -> Seq<Instr> {
        match self {
            Instr::Loop(_, _, body) => body,
            Instr::If(_, _, body) => body,
            _ => Seq::empty(),
        }
    }
}

/// Whether every integer of the instructions, at any depth, is one that the
/// machine form can hold.
pub open spec fn representable(s: Seq<Instr>) -> bool
    decreases s, 1int,
{
    forall|k: int| 0 <= k < s.len() ==> representable_instr(#[trigger] s[k])
}

pub open spec fn is_offset(x: int) -> bool {
    isize::MIN <= x <= isize::MAX
}

pub open spec fn representable_instr(i: Instr) -> bool
    decreases i, 0int,
{
    match i {
        Instr::Modify(c, _) => is_offset(c),
        Instr::Move(d) => is_offset(d),
        Instr::Output(c) => is_offset(c),
        Instr::Input(c) => is_offset(c),
        Instr::SetCell(c, _) => is_offset(c),
        Instr::AddMultiple { target, base, .. } => is_offset(target) && is_offset(base),
        Instr::BoundsCheck { start, length } => is_offset(start) && 0 <= length <= usize::MAX,
        Instr::Loop(_, c, body) => is_offset(c) && representable(body),
        Instr::If(_, c, body) => is_offset(c) && representable(body),
    }
}

/// The mathematical form of a list of instructions.
pub open spec fn list_view(s: Seq<Instruction>) -> Seq<Instr>
    decreases s, 1int,
{
    Seq::new(s.len(), |k: int| if 0 <= k < s.len() { s[k]@ } else { Instr::Move(0) })
}

impl View for Instruction {
    type V = Instr;

    open spec fn view(&self) -> Instr
        decreases self, 0int,
    {
        match self {
            Instruction::Modify(c, a) => Instr::Modify(*c as int, *a),
            Instruction::Move(d) => Instr::Move(*d as int),
            Instruction::Output(c) => Instr::Output(*c as int),
            Instruction::Input(c) => Instr::Input(*c as int),
            Instruction::SetCell(c, v) => Instr::SetCell(*c as int, *v),
            Instruction::AddMultiple { target, base, factor } => Instr::AddMultiple {
                target: *target as int,
                base: *base as int,
                factor: *factor,
            },
            Instruction::BoundsCheck(r) => Instr::BoundsCheck {
                start: r.start as int,
                length: r.length as int,
            },
            Instruction::Loop(b, c, body) => Instr::Loop(*b, *c as int, list_view(body@)),
            Instruction::If(b, c, body) => Instr::If(*b, *c as int, list_view(body@)),
        }
    }
}

impl View for Program {
    type V = Seq<Instr>;

    open spec fn view(&self) -> Seq<Instr> {
        list_view(self.0@)
    }
}

/// Taking one item more from a sequence appends that item.
pub proof fn lemma_take_step<T>(s: Seq<T>, k: int)
    requires
        0 <= k < s.len(),
    ensures
        s.take(k + 1) == s.take(k).push(s[k]),
        s.take(k + 1).drop_last() == s.take(k),
        s.take(k + 1).last() == s[k],
{
    assert(s.take(k + 1) =~= s.take(k).push(s[k]));
    assert(s.take(k + 1).drop_last() =~= s.take(k));
}

/// Taking every item of a sequence gives the sequence.
pub proof fn lemma_take_all<T>(s: Seq<T>)
    ensures
        s.take(s.len() as int) == s,
        s.take(0) == Seq::<T>::empty(),
{
    assert(s.take(s.len() as int) =~= s);
    assert(s.take(0) =~= Seq::<T>::empty());
}

/// A sequence with one item appended, taken apart again.
pub proof fn lemma_push_parts<T>(s: Seq<T>, x: T)
    ensures
        s.push(x).drop_last() == s,
        s.push(x).last() == x,
{
    assert(s.push(x).drop_last() =~= s);
}

/// The view of a list is taken item by item.
pub proof fn lemma_list_view_push(s: Seq<Instruction>, i: Instruction)
    ensures
        list_view(s.push(i)) == list_view(s).push(i@),
{
    assert(list_view(s.push(i)) =~= list_view(s).push(i@));
}

pub proof fn lemma_list_view_insert(s: Seq<Instruction>, k: int, i: Instruction)
    requires
        0 <= k <= s.len(),
    ensures
        list_view(s.insert(k, i)) == list_view(s).insert(k, i@),
{
    assert(list_view(s.insert(k, i)) =~= list_view(s).insert(k, i@));
}

/// Inserting between two sequences appends to the first.
pub proof fn lemma_insert_between<T>(a: Seq<T>, b: Seq<T>, x: T)
    ensures
        (a + b).insert(a.len() as int, x) == a.push(x) + b,
{
    assert((a + b).insert(a.len() as int, x) =~= a.push(x) + b);
}

pub proof fn lemma_list_view_take(s: Seq<Instruction>, k: int)
    requires
        0 <= k <= s.len(),
    ensures
        list_view(s.take(k)) == list_view(s).take(k),
        list_view(s).len() == s.len(),
        k < s.len() ==> list_view(s).take(k + 1) == list_view(s).take(k).push(s[k]@),
        list_view(s).take(s.len() as int) == list_view(s),
{
    assert(list_view(s.take(k)) =~= list_view(s).take(k));
    if k < s.len() {
        assert(list_view(s).take(k + 1) =~= list_view(s).take(k).push(s[k]@));
    }
    assert(list_view(s).take(s.len() as int) =~= list_view(s));
}

/// Machine instructions are always representable.
pub proof fn lemma_view_representable(s: Seq<Instruction>)
    ensures
        representable(list_view(s)),
    decreases s, 1int,
{
    assert forall|k: int| 0 <= k < s.len() implies representable_instr(
        #[trigger] list_view(s)[k],
    ) by {
        lemma_instr_representable(s[k]);
    }
}

pub proof fn lemma_instr_representable(i: Instruction)
    ensures
        representable_instr(i@),
    decreases i, 0int,
{
    match i {
        Instruction::Loop(_, _, body) => lemma_view_representable(body@),
        Instruction::If(_, _, body) => lemma_view_representable(body@),
        _ => {},
    }
}

impl Instruction {
    /// Whether the instruction may leave the data pointer elsewhere than it found it.
    pub fn moves_pointer(&self) -> (r: bool)
        ensures
            r == self@.moves_pointer(),
    {
        match self {
            Instruction::Move(_) => true,
            Instruction::If(bal, _, _) => !*bal,
            Instruction::Loop(bal, _, _) => !*bal,
            _ => false,
        }
    }
}

/// A fresh copy of an instruction.
pub fn copy_instruction(i: &Instruction) -> (r: Instruction)
    ensures
        r@ == i@,
    decreases i, 0int,
{
    match i {
        Instruction::Modify(c, a) => Instruction::Modify(*c, *a),
        Instruction::Move(d) => Instruction::Move(*d),
        Instruction::Output(c) => Instruction::Output(*c),
        Instruction::Input(c) => Instruction::Input(*c),
        Instruction::SetCell(c, v) => Instruction::SetCell(*c, *v),
        Instruction::AddMultiple { target, base, factor } => Instruction::AddMultiple {
            target: *target,
            base: *base,
            factor: *factor,
        },
        Instruction::BoundsCheck(r) => Instruction::BoundsCheck(*r),
        Instruction::Loop(b, c, body) => Instruction::Loop(*b, *c, copy_list(body)),
        Instruction::If(b, c, body) => Instruction::If(*b, *c, copy_list(body)),
    }
}

/// A fresh copy of a list of instructions.
pub fn copy_list(v: &Vec<Instruction>) -> (r: Vec<Instruction>)
    ensures
        list_view(r@) == list_view(v@),
    decreases v, 1int,
{
    let mut out: Vec<Instruction> = Vec::new();
    let mut k: usize = 0;
    while k < v.len()
        invariant
            k <= v.len(),
            list_view(out@) == list_view(v@).take(k as int),
        decreases v.len() - k,
    {
        let item = copy_instruction(&v[k]);
        proof {
            lemma_list_view_push(out@, item);
            lemma_list_view_take(v@, k as int);
        }
        out.push(item);
        k += 1;
    }
    proof {
        lemma_list_view_take(v@, k as int);
    }
    out
}

impl Clone for Instruction {
    fn clone(&self) -> (r: Self)
        ensures
            r@ == self@,
    {
        copy_instruction(self)
    }
}

impl Clone for Program {
    fn clone(&self) -> (r: Self)
        ensures
            r@ == self@,
    {
        Program(copy_list(&self.0))
    }
}

} // verus!
