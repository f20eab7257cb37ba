use rustfck::util::arena::{Arena, ID};
use rustfck::util::{add_with_index, print_indent, push_integer, push_natural};

#[test]
fn arena_hands_out_places() {
    let mut a: Arena<&str> = Arena::new();
    assert_eq!(a.len(), 0);
    assert_eq!(a.next_id().index, 0);
    let first = a.push("one");
    let second = a.push("two");
    assert_eq!(first.index, 0);
    assert_eq!(second.index, 1);
    assert!(first == first.clone());
    assert!(first != second);
    assert_eq!(a.len(), 2);
    assert_eq!(a.next_id().index, 2);
    assert_eq!(a.get(second), Some(&"two"));
    assert_eq!(a.get(a.next_id()), None);
    *a.get_mut(first).unwrap() = "uno";
    assert_eq!(a.iter(), &["uno", "two"]);
    a.iter_mut()[1] = "dos";
    assert_eq!(a.iter(), &["uno", "dos"]);
    let next = a.next_id();
    assert!(a.get_mut(next).is_none());
}

#[test]
fn arena_finds_the_first_match() {
    let mut a: Arena<u32> = Arena::new();
    for v in [4, 7, 9, 7] {
        a.push(v);
    }
    let found: Option<ID<u32>> = a.find(|v| *v == 7);
    assert_eq!(found.map(|id| id.index), Some(1));
    assert!(a.find(|v| *v == 8).is_none());
}

#[test]
fn add_with_index_hands_the_place_to_the_maker() {
    let mut v: Vec<(usize, char)> = vec![(0, 'a')];
    let i: usize = add_with_index(&mut v, |i: usize| (i, 'b'));
    assert_eq!(i, 1);
    assert_eq!(v, vec![(0, 'a'), (1, 'b')]);
}

#[test]
fn print_indent_marks_the_line_and_deepens() {
    let mut out = String::new();
    let inner = print_indent("  ", false, &mut out);
    assert_eq!(out, "  ├── ");
    assert_eq!(inner, "  │   ");
    let last = print_indent(&inner, true, &mut out);
    assert_eq!(out, "  ├──   │   └── ");
    assert_eq!(last, "  │      ");
}

#[test]
fn numbers_are_written_in_decimal() {
    let mut out = String::new();
    push_natural(&mut out, 0);
    out.push(' ');
    push_natural(&mut out, 1234567890);
    out.push(' ');
    push_integer(&mut out, -1);
    out.push(' ');
    push_integer(&mut out, i128::MIN);
    out.push(' ');
    push_integer(&mut out, 42);
    out.push(' ');
    push_natural(&mut out, u128::MAX);
    assert_eq!(
        out,
        "0 1234567890 -1 -170141183460469231731687303715884105728 42 \
         340282366920938463463374607431768211455"
    );
}
