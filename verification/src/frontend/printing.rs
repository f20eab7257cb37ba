use vstd::prelude::*;
use vstd::string::*;
use super::expr_tree::{
    lemma_list_view_take, lemma_take_all, lemma_take_step, list_view, Instr, Instruction, Program,
};
use crate::util::{
    branch_text, deeper, integer_text, natural_text, print_indent, push_integer, push_natural,
};

verus! {

/// The text of a cell: the data pointer and the offset from it.
pub open spec fn cell_text(c: int) -> Seq<char> {
    if c > 0 {
        "[ptr + "@ + natural_text(c as nat) + "]"@
    } else if c < 0 {
        "[ptr - "@ + natural_text((-c) as nat) + "]"@
    } else {
        "[ptr]"@
    }
}

/// The line of an instruction, without its indentation.
pub open spec fn line_text(i: Instr) -> Seq<char> {
    match i {
        Instr::Modify(c, a) => cell_text(c) + " += "@ + integer_text(a as int) + "\n"@,
        Instr::Move(d) => "ptr += "@ + integer_text(d) + "\n"@,
        Instr::Output(c) => "write(stdout, "@ + cell_text(c) + ")\n"@,
        Instr::Input(c) => cell_text(c) + " = read(stdin)\n"@,
        Instr::SetCell(c, v) => cell_text(c) + " = "@ + natural_text(v as nat) + "\n"@,
        Instr::AddMultiple { target, base, factor } => cell_text(target) + " += "@ + cell_text(
            base,
        ) + " * "@ + integer_text(factor as int) + "\n"@,
        Instr::BoundsCheck { start, length } => "verify("@ + integer_text(start) + ".."@
            + integer_text(start + length) + ")\n"@,
        Instr::Loop(_, c, _) => "while "@ + cell_text(c) + " != 0\n"@,
        Instr::If(_, c, _) => "if "@ + cell_text(c) + " != 0\n"@,
    }
}

/// The lines of an instruction: its own line behind the mark of its place
/// among its siblings, and the lines of its body one step deeper.
pub open spec fn instruction_text(i: Instr, indent: Seq<char>, last: bool) -> Seq<char>
    decreases i, 0int,
{
    indent + branch_text(last) + line_text(i) + match i {
        Instr::Loop(_, _, body) => children_text(body, deeper(indent, last)),
        Instr::If(_, _, body) => children_text(body, deeper(indent, last)),
        _ => Seq::empty(),
    }
}

/// The lines of instructions none of which is the last of its list.
pub open spec fn inner_text(s: Seq<Instr>, indent: Seq<char>) -> Seq<char>
    decreases s, 1int,
{
    if s.len() == 0 {
        Seq::empty()
    } else {
        inner_text(s.drop_last(), indent) + instruction_text(s.last(), indent, false)
    }
}

/// The lines of a list of instructions.
pub open spec fn children_text(s: Seq<Instr>, indent: Seq<char>) -> Seq<char>
    decreases s, 2int,
{
    if s.len() == 0 {
        Seq::empty()
    } else {
        inner_text(s.drop_last(), indent) + instruction_text(s.last(), indent, true)
    }
}

/// The text of a program: a tree with one line for each instruction.
pub open spec fn program_text(p: Seq<Instr>) -> Seq<char> {
    branch_text(true) + "Program:\n"@ + children_text(p, deeper(Seq::empty(), true))
}

fn print_cell(cell: isize, out: &mut String)
    ensures
        final(out)@ == old(out)@ + cell_text(cell as int),
{
    if cell > 0 {
        out.append("[ptr + ");
        push_natural(out, cell as u128);
        out.append("]");
        assert(out@ =~= old(out)@ + cell_text(cell as int));
    } else if cell < 0 {
        out.append("[ptr - ");
        let magnitude: u128 = ((-(cell + 1)) as u128) + 1;
        push_natural(out, magnitude);
        out.append("]");
        assert(out@ =~= old(out)@ + cell_text(cell as int));
    } else {
        out.append("[ptr]");
    }
}

fn print_line(node: &Instruction, out: &mut String)
    ensures
        final(out)@ == old(out)@ + line_text(node@),
{
    match node {
        Instruction::Modify(cell, amount) => {
            print_cell(*cell, out);
            out.append(" += ");
            push_integer(out, *amount as i128);
            out.append("\n");
        },
        Instruction::Move(amount) => {
            out.append("ptr += ");
            push_integer(out, *amount as i128);
            out.append("\n");
        },
        Instruction::Output(cell) => {
            out.append("write(stdout, ");
            print_cell(*cell, out);
            out.append(")\n");
        },
        Instruction::Input(cell) => {
            print_cell(*cell, out);
            out.append(" = read(stdin)\n");
        },
        Instruction::SetCell(cell, value) => {
            print_cell(*cell, out);
            out.append(" = ");
            push_natural(out, *value as u128);
            out.append("\n");
        },
        Instruction::AddMultiple { target, base, factor } => {
            print_cell(*target, out);
            out.append(" += ");
            print_cell(*base, out);
            out.append(" * ");
            push_integer(out, *factor as i128);
            out.append("\n");
        },
        Instruction::BoundsCheck(range) => {
            out.append("verify(");
            push_integer(out, range.start as i128);
            out.append("..");
            push_integer(out, range.start as i128 + range.length as i128);
            out.append(")\n");
        },
        Instruction::Loop(_, cell, _) => {
            out.append("while ");
            print_cell(*cell, out);
            out.append(" != 0\n");
        },
        Instruction::If(_, cell, _) => {
            out.append("if ");
            print_cell(*cell, out);
            out.append(" != 0\n");
        },
    }
    assert(out@ =~= old(out)@ + line_text(node@));
}

/// Writes a program as a tree, one instruction to a line.
pub fn pretty_print(program: &Program, out: &mut String)
    ensures
        final(out)@ == old(out)@ + program_text(program@),
{
    let indent = print_indent("", true, out);
    out.append("Program:\n");
    let ghost before = out@;
    assert("".view() =~= Seq::<char>::empty()) by {
        reveal_strlit("");
    }
    print_children(&program.0, indent.as_str(), out);
    assert(out@ =~= old(out)@ + program_text(program@));
}

fn print_children(body: &Vec<Instruction>, indent: &str, out: &mut String)
    ensures
        final(out)@ == old(out)@ + children_text(list_view(body@), indent@),
    decreases body, 1int,
{
    let ghost s = list_view(body@);
    if body.len() == 0 {
        assert(out@ =~= old(out)@ + children_text(s, indent@));
        return ;
    }
    let n = body.len() - 1;
    let mut k: usize = 0;
    proof {
        lemma_take_all(s);
        assert(out@ =~= old(out)@ + inner_text(s.take(0), indent@));
    }
    while k < n
        invariant
            k <= n,
            n + 1 == body.len(),
            s == list_view(body@),
            s.len() == body.len(),
            out@ == old(out)@ + inner_text(s.take(k as int), indent@),
        decreases n - k,
    {
        proof {
            lemma_take_step(s, k as int);
            lemma_list_view_take(body@, k as int);
        }
        print_instruction(&body[k], indent, false, out);
        assert(out@ =~= old(out)@ + inner_text(s.take(k as int + 1), indent@));
        k += 1;
    }
    proof {
        lemma_list_view_take(body@, n as int);
        assert(s.take(n as int) =~= s.drop_last());
        assert(s.last() == body[n as int]@);
    }
    print_instruction(&body[n], indent, true, out);
    assert(out@ =~= old(out)@ + children_text(s, indent@));
}

/// Writes an instruction and its body as a tree.
pub fn print_instruction(node: &Instruction, indent: &str, last: bool, out: &mut String)
    ensures
        final(out)@ == old(out)@ + instruction_text(node@, indent@, last),
    decreases node, 0int,
{
    let inner = print_indent(indent, last, out);
    print_line(node, out);
    let ghost middle = out@;
    match node {
        Instruction::Loop(_, _, body) => {
            print_children(body, inner.as_str(), out);
        },
        Instruction::If(_, _, body) => {
            print_children(body, inner.as_str(), out);
        },
        _ => {
            assert(out@ =~= middle + Seq::<char>::empty());
        },
    }
    assert(out@ =~= old(out)@ + instruction_text(node@, indent@, last));
}

} // verus!
