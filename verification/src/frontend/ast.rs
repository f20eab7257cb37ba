use vstd::prelude::*;
use super::expr_tree::{
    lemma_list_view_push, lemma_take_all, lemma_take_step, list_view, BoundsRange, Instr,
    Instruction, Program,
};

verus! {

/// One node of the syntax tree. A node works on the cell under the data pointer.
#[derive(Debug, PartialEq, Eq)]
pub enum AstNode {
    Modify(i8),
    Move(isize),
    Output,
    Input,
    SetCell(u8),
    Loop(Vec<AstNode>),
}

/// The syntax tree of a program: its nodes in order.
#[derive(Debug, PartialEq, Eq)]
pub struct Ast(pub Vec<AstNode>);

/// The mathematical form of a node: bodies are sequences.
pub enum Node {
    Modify(i8),
    Move(isize),
    Output,
    Input,
    SetCell(u8),
    Loop(Seq<Node>),
}

/// The mathematical form of a list of nodes.
pub open spec fn nodes_view(s: Seq<AstNode>) -> Seq<Node>
    decreases s, 1int,
{
    Seq::new(s.len(), |k: int| if 0 <= k < s.len() { s[k]@ } else { Node::Output })
}

impl View for AstNode {
    type V = Node;

    open spec fn view(&self) -> Node
        decreases self, 0int,
    {
        match self {
            AstNode::Modify(a) => Node::Modify(*a),
            AstNode::Move(d) => Node::Move(*d),
            AstNode::Output => Node::Output,
            AstNode::Input => Node::Input,
            AstNode::SetCell(v) => Node::SetCell(*v),
            AstNode::Loop(body) => Node::Loop(nodes_view(body@)),
        }
    }
}

impl View for Ast {
    type V = Seq<Node>;

    open spec fn view(&self) -> Seq<Node> {
        nodes_view(self.0@)
    }
}

pub proof fn lemma_nodes_view_push(s: Seq<AstNode>, n: AstNode)
    ensures
        nodes_view(s.push(n)) == nodes_view(s).push(n@),
{
    assert(nodes_view(s.push(n)) =~= nodes_view(s).push(n@));
}

pub proof fn lemma_nodes_view_drop_last(s: Seq<AstNode>)
    requires
        s.len() > 0,
    ensures
        nodes_view(s.drop_last()) == nodes_view(s).drop_last(),
        nodes_view(s).last() == s.last()@,
{
    assert(nodes_view(s.drop_last()) =~= nodes_view(s).drop_last());
}

pub proof fn lemma_nodes_view_take(s: Seq<AstNode>, k: int)
    requires
        0 <= k <= s.len(),
    ensures
        nodes_view(s).len() == s.len(),
        k < s.len() ==> nodes_view(s)[k] == s[k]@,
{
}

/// The check that stands in front of every access to the current cell.
pub open spec fn current_cell_check() -> Instr {
    Instr::BoundsCheck { start: 0, length: 1 }
}

impl Node {
    /// Whether the node reads or writes the cell under the data pointer.
    pub open spec fn accesses_cell(self) -> bool {
        !(self is Move)
    }

    /// The instruction that does what the node does, at offset zero. A loop
    /// checks the current cell once more at the end of its body, before its
    /// guard is read again.
    pub open spec fn instruction(self) -> Instr
        decreases self, 0int,
    {
        match self {
            Node::Modify(a) => Instr::Modify(0, a),
            Node::Move(d) => Instr::Move(d as int),
            Node::Output => Instr::Output(0),
            Node::Input => Instr::Input(0),
            Node::SetCell(v) => Instr::SetCell(0, v),
            Node::Loop(body) => Instr::Loop(false, 0, expr_tree_of(body).push(current_cell_check())),
        }
    }

    /// The instructions of a node: its instruction, behind a check of the
    /// current cell where the node accesses it.
    pub open spec fn instructions(self) -> Seq<Instr>
        decreases self, 1int,
    {
        if self.accesses_cell() {
            seq![current_cell_check(), self.instruction()]
        } else {
            seq![self.instruction()]
        }
    }
}

/// The expression tree of a list of nodes.
pub open spec fn expr_tree_of(s: Seq<Node>) -> Seq<Instr>
    decreases s, 2int,
{
    if s.len() == 0 {
        Seq::empty()
    } else {
        expr_tree_of(s.drop_last()) + s.last().instructions()
    }
}

impl AstNode {
    fn gen_expr_tree(&self, instructions: &mut Vec<Instruction>)
        ensures
            list_view(final(instructions)@) == list_view(old(instructions)@) + self@.instructions(),
        decreases self, 0int,
    {
        let ghost before = list_view(instructions@);
        if self.accesses_cell() {
            let check = Instruction::BoundsCheck(BoundsRange { start: 0, length: 1 });
            proof {
                lemma_list_view_push(instructions@, check);
            }
            instructions.push(check);
        }
        let ghost middle = list_view(instructions@);
        let item = match self {
            AstNode::Modify(amount) => Instruction::Modify(0, *amount),
            AstNode::Move(amount) => Instruction::Move(*amount),
            AstNode::Output => Instruction::Output(0),
            AstNode::Input => Instruction::Input(0),
            AstNode::SetCell(val) => Instruction::SetCell(0, *val),
            AstNode::Loop(body) => {
                let mut new_body = gen_list(body);
                let check = Instruction::BoundsCheck(BoundsRange { start: 0, length: 1 });
                proof {
                    lemma_list_view_push(new_body@, check);
                }
                new_body.push(check);
                Instruction::Loop(false, 0, new_body)
            },
        };
        proof {
            assert(item@ == self@.instruction());
            lemma_list_view_push(instructions@, item);
            if self@.accesses_cell() {
                assert(before.push(current_cell_check()).push(item@) =~= before
                    + self@.instructions());
            } else {
                assert(before.push(item@) =~= before + self@.instructions());
            }
        }
        instructions.push(item);
    }

    fn accesses_cell(&self) -> (r: bool)
        ensures
            r == self@.accesses_cell(),
    {
        match self {
            AstNode::Modify(_) => true,
            AstNode::Move(_) => false,
            AstNode::Output => true,
            AstNode::Input => true,
            AstNode::SetCell(_) => true,
            AstNode::Loop(_) => true,
        }
    }
}

fn gen_list(nodes: &Vec<AstNode>) -> (r: Vec<Instruction>)
    ensures
        list_view(r@) == expr_tree_of(nodes_view(nodes@)),
    decreases nodes, 1int,
{
    let ghost s = nodes_view(nodes@);
    let mut body: Vec<Instruction> = Vec::new();
    let mut k: usize = 0;
    proof {
        lemma_take_all(s);
        assert(list_view(body@) =~= Seq::<Instr>::empty());
    }
    while k < nodes.len()
        invariant
            k <= nodes.len(),
            s == nodes_view(nodes@),
            s.len() == nodes.len(),
            list_view(body@) == expr_tree_of(s.take(k as int)),
        decreases nodes.len() - k,
    {
        proof {
            lemma_take_step(s, k as int);
            lemma_nodes_view_take(nodes@, k as int);
        }
        nodes[k].gen_expr_tree(&mut body);
        k += 1;
    }
    body
}

impl Ast {
    /// The expression tree of the program: each node becomes its instruction
    /// at offset zero, behind a check of the cell it accesses.
    pub fn gen_expr_tree(&self) -> (r: Program)
        ensures
            r@ == expr_tree_of(self@),
    {
        Program(gen_list(&self.0))
    }
}

} // verus!
