use vstd::prelude::*;
use vstd::std_specs::convert::FromSpec;
use vstd::string::*;

pub mod arena;

verus! {

/// Appends the item that `f` makes for the place it will stand at, and gives
/// that place.
pub fn add_with_index<T, I, F>(vec: &mut Vec<T>, f: F) -> (i: I) where
    I: From<usize> + Clone,
    F: FnOnce(I) -> T,

    requires
        forall|id: I| call_requires(f, (id,)),
    ensures
        I::obeys_from_spec() ==> i == I::from_spec(old(vec)@.len() as usize),
        final(vec)@.len() == old(vec)@.len() + 1,
        final(vec)@.drop_last() == old(vec)@,
        exists|id: I| cloned(i, id) && call_ensures(f, (id,), #[trigger] final(vec)@.last()),
{
    let i = I::from(vec.len());
    let id = i.clone();
    let item = f(id);
    vec.push(item);
    assert(vec@.drop_last() =~= old(vec)@);
    assert(cloned(i, id) && call_ensures(f, (id,), vec@.last()));
    i
}

/// The mark in front of a line of a tree: a corner for the last child, a
/// tee for any other.
pub open spec fn branch_text(last: bool) -> Seq<char> {
    if last {
        "└── "@
    } else {
        "├── "@
    }
}

/// The indentation of the children of a line: under the last child nothing
/// is drawn, under any other the line goes on down.
pub open spec fn deeper(indent: Seq<char>, last: bool) -> Seq<char> {
    if last {
        indent + "   "@
    } else {
        indent + "│   "@
    }
}

/// Writes the indentation and the mark of a line, and gives the indentation
/// for the children of that line.
pub fn print_indent(indent: &str, last: bool, out: &mut String) -> (new: String)
    ensures
        final(out)@ == old(out)@ + indent@ + branch_text(last),
        new@ == deeper(indent@, last),
{
    out.append(indent);
    if last {
        out.append("└── ");
    } else {
        out.append("├── ");
    }
    let mut new = String::from_str(indent);
    if last {
        new.append("   ");
    } else {
        new.append("│   ");
    }
    new
}

/// The text of one decimal digit.
pub open spec fn digit_text(d: int) -> Seq<char> {
    if d == 0 {
        "0"@
    } else if d == 1 {
        "1"@
    } else if d == 2 {
        "2"@
    } else if d == 3 {
        "3"@
    } else if d == 4 {
        "4"@
    } else if d == 5 {
        "5"@
    } else if d == 6 {
        "6"@
    } else if d == 7 {
        "7"@
    } else if d == 8 {
        "8"@
    } else {
        "9"@
    }
}

/// The decimal text of a number that is not negative.
pub open spec fn natural_text(n: nat) -> Seq<char>
    decreases n,
{
    if n < 10 {
        digit_text(n as int)
    } else {
        natural_text(n / 10) + digit_text((n % 10) as int)
    }
}

/// The decimal text of a number, with a minus sign where it is negative.
pub open spec fn integer_text(i: int) -> Seq<char> {
    if i < 0 {
        "-"@ + natural_text((-i) as nat)
    } else {
        natural_text(i as nat)
    }
}

fn push_digit(out: &mut String, d: u8)
    requires
        d < 10,
    ensures
        final(out)@ == old(out)@ + digit_text(d as int),
{
    if d == 0 {
        out.append("0");
    } else if d == 1 {
        out.append("1");
    } else if d == 2 {
        out.append("2");
    } else if d == 3 {
        out.append("3");
    } else if d == 4 {
        out.append("4");
    } else if d == 5 {
        out.append("5");
    } else if d == 6 {
        out.append("6");
    } else if d == 7 {
        out.append("7");
    } else if d == 8 {
        out.append("8");
    } else {
        out.append("9");
    }
}

/// Writes a number that is not negative in decimal.
pub fn push_natural(out: &mut String, n: u128)
    ensures
        final(out)@ == old(out)@ + natural_text(n as nat),
    decreases n,
{
    if n < 10 {
        push_digit(out, n as u8);
    } else {
        push_natural(out, n / 10);
        push_digit(out, (n % 10) as u8);
        assert(old(out)@ + natural_text((n / 10) as nat) + digit_text((n % 10) as int) =~= old(
            out,
        )@ + natural_text(n as nat));
    }
}

/// Writes a number in decimal.
pub fn push_integer(out: &mut String, i: i128)
    ensures
        final(out)@ == old(out)@ + integer_text(i as int),
{
    if i < 0 {
        out.append("-");
        let magnitude: u128 = ((-(i + 1)) as u128) + 1;
        push_natural(out, magnitude);
        assert(old(out)@ + "-"@ + natural_text((-i) as nat) =~= old(out)@ + integer_text(i as int));
    } else {
        push_natural(out, i as u128);
    }
}

} // verus!
