use rustfck::frontend::ast::{Ast, AstNode};
use rustfck::frontend::expr_tree::{BoundsRange, Instruction, Program};
use rustfck::frontend::lexer::{lex, Token};
use rustfck::frontend::optimize::{
    apply_optimizations, can_optimize, mark_balanced_blocks, merge_verifications,
    normalize_pointer_movement, recog_additions, remove_dead, remove_dead_if_statements,
    remove_dead_verifications,
};
use rustfck::frontend::parser::{parse, ParseError};
use rustfck::frontend::printing::{pretty_print, print_instruction};

fn check(start: isize, length: usize) -> Instruction {
    Instruction::BoundsCheck(BoundsRange { start, length })
}

fn tree(src: &[u8]) -> Program {
    parse(&lex(src)).unwrap().gen_expr_tree()
}

#[test]
fn lexer_keeps_the_eight_tokens() {
    assert_eq!(
        lex(b"+-><.,[]"),
        vec![
            Token::Plus,
            Token::Minus,
            Token::Next,
            Token::Previous,
            Token::Dot,
            Token::Comma,
            Token::Open,
            Token::Close
        ]
    );
}

#[test]
fn lexer_passes_over_other_bytes() {
    assert_eq!(lex(b"a+ b\n-\xff!"), vec![Token::Plus, Token::Minus]);
    assert_eq!(lex(b""), vec![]);
}

#[test]
fn parser_fuses_modifications() {
    assert_eq!(parse(&lex(b"+++")), Ok(Ast(vec![AstNode::Modify(3)])));
    assert_eq!(parse(&lex(b"+-")), Ok(Ast(vec![AstNode::Modify(0)])));
    assert_eq!(parse(&lex(b"--")), Ok(Ast(vec![AstNode::Modify(-2)])));
}

#[test]
fn parser_fuses_modifications_with_wrap_around() {
    let src = vec![b'+'; 130];
    assert_eq!(parse(&lex(&src)), Ok(Ast(vec![AstNode::Modify(-126)])));
}

#[test]
fn parser_fuses_moves() {
    assert_eq!(parse(&lex(b">>><")), Ok(Ast(vec![AstNode::Move(2)])));
}

#[test]
fn parser_keeps_unlike_neighbours_apart() {
    assert_eq!(
        parse(&lex(b"+>+.,")),
        Ok(Ast(vec![
            AstNode::Modify(1),
            AstNode::Move(1),
            AstNode::Modify(1),
            AstNode::Output,
            AstNode::Input
        ]))
    );
}

#[test]
fn parser_recognizes_the_clear_idiom() {
    assert_eq!(parse(&lex(b"[-]")), Ok(Ast(vec![AstNode::SetCell(0)])));
    assert_eq!(parse(&lex(b"[+]")), Ok(Ast(vec![AstNode::SetCell(0)])));
    assert_eq!(parse(&lex(b"[+++]")), Ok(Ast(vec![AstNode::SetCell(0)])));
}

#[test]
fn parser_keeps_loops_on_even_amounts() {
    assert_eq!(
        parse(&lex(b"[--]")),
        Ok(Ast(vec![AstNode::Loop(vec![AstNode::Modify(-2)])]))
    );
    assert_eq!(parse(&lex(b"[]")), Ok(Ast(vec![AstNode::Loop(vec![])])));
}

#[test]
fn parser_fuses_a_modification_into_a_clearing() {
    assert_eq!(parse(&lex(b"[-]+++")), Ok(Ast(vec![AstNode::SetCell(3)])));
    assert_eq!(parse(&lex(b"[-]-")), Ok(Ast(vec![AstNode::SetCell(255)])));
}

#[test]
fn parser_nests_loops() {
    assert_eq!(
        parse(&lex(b"[>[.]<]")),
        Ok(Ast(vec![AstNode::Loop(vec![
            AstNode::Move(1),
            AstNode::Loop(vec![AstNode::Output]),
            AstNode::Move(-1)
        ])]))
    );
}

#[test]
fn parser_rejects_unmatched_close() {
    assert_eq!(parse(&lex(b"+]")), Err(ParseError::UnmatchedClose { position: 1 }));
    assert_eq!(parse(&lex(b"[]]")), Err(ParseError::UnmatchedClose { position: 2 }));
}

#[test]
fn parser_rejects_unmatched_open() {
    assert_eq!(parse(&lex(b"+[")), Err(ParseError::UnmatchedOpen { position: 1 }));
    assert_eq!(parse(&lex(b"[[]")), Err(ParseError::UnmatchedOpen { position: 0 }));
    assert_eq!(parse(&lex(b"[[")), Err(ParseError::UnmatchedOpen { position: 1 }));
}

#[test]
fn expr_tree_checks_each_access() {
    assert_eq!(
        tree(b"+>."),
        Program(vec![
            check(0, 1),
            Instruction::Modify(0, 1),
            Instruction::Move(1),
            check(0, 1),
            Instruction::Output(0)
        ])
    );
}

#[test]
fn expr_tree_of_a_loop_checks_before_the_guard_is_read_again() {
    assert_eq!(
        tree(b"[,]"),
        Program(vec![
            check(0, 1),
            Instruction::Loop(false, 0, vec![check(0, 1), Instruction::Input(0), check(0, 1)])
        ])
    );
}

#[test]
fn bounds_range_merge_gives_the_hull() {
    let a = BoundsRange { start: 0, length: 1 };
    let b = BoundsRange { start: 5, length: 2 };
    assert_eq!(a.merge(b), BoundsRange { start: 0, length: 7 });
    assert_eq!(b.merge(a), BoundsRange { start: 0, length: 7 });
    let c = BoundsRange { start: -3, length: 2 };
    assert_eq!(a.merge(c), BoundsRange { start: -3, length: 4 });
}

#[test]
fn bounds_range_merge_spans_the_whole_word() {
    let low = BoundsRange { start: isize::MIN, length: 1 };
    let high = BoundsRange { start: isize::MAX - 1, length: 1 };
    assert_eq!(low.merge(high), BoundsRange { start: isize::MIN, length: usize::MAX });
}

#[test]
fn bounds_range_includes() {
    let a = BoundsRange { start: 0, length: 4 };
    assert!(a.includes(&BoundsRange { start: 1, length: 2 }));
    assert!(a.includes(&a));
    assert!(!a.includes(&BoundsRange { start: 1, length: 4 }));
    assert!(!a.includes(&BoundsRange { start: -1, length: 2 }));
}

#[test]
fn moves_pointer_goes_by_the_flag() {
    assert!(Instruction::Move(0).moves_pointer());
    assert!(Instruction::Loop(false, 0, vec![]).moves_pointer());
    assert!(!Instruction::Loop(true, 0, vec![Instruction::Move(1)]).moves_pointer());
    assert!(Instruction::If(false, 0, vec![]).moves_pointer());
    assert!(!Instruction::Modify(0, 1).moves_pointer());
}

#[test]
fn normalize_folds_moves_into_offsets() {
    let mut p = Program(vec![
        Instruction::Modify(0, 1),
        Instruction::Move(2),
        Instruction::Output(0),
        Instruction::Move(-3),
        Instruction::SetCell(1, 7),
    ]);
    normalize_pointer_movement(&mut p);
    assert_eq!(
        p,
        Program(vec![
            Instruction::Modify(0, 1),
            Instruction::Move(0),
            Instruction::Output(2),
            Instruction::Move(0),
            Instruction::SetCell(0, 7),
            Instruction::Move(-1),
        ])
    );
}

#[test]
fn normalize_appends_nothing_where_moves_cancel() {
    let mut p = Program(vec![Instruction::Move(1), Instruction::Move(-1)]);
    normalize_pointer_movement(&mut p);
    assert_eq!(p, Program(vec![Instruction::Move(0), Instruction::Move(0)]));
}

#[test]
fn normalize_hands_the_offset_down_to_bodies() {
    let mut p = Program(vec![
        Instruction::Move(1),
        Instruction::Loop(false, 0, vec![
            Instruction::Modify(0, -1),
            Instruction::Move(1),
        ]),
        check(0, 1),
        Instruction::AddMultiple { target: 1, base: 0, factor: 2 },
    ]);
    normalize_pointer_movement(&mut p);
    assert_eq!(
        p,
        Program(vec![
            Instruction::Move(0),
            Instruction::Loop(false, 1, vec![
                Instruction::Modify(1, -1),
                Instruction::Move(0),
                Instruction::Move(1),
            ]),
            check(1, 1),
            Instruction::AddMultiple { target: 2, base: 1, factor: 2 },
            Instruction::Move(1),
        ])
    );
}

#[test]
fn remove_dead_drops_zero_amounts_and_empty_conditionals() {
    let mut p = Program(vec![
        Instruction::Modify(0, 0),
        Instruction::Move(0),
        Instruction::Modify(0, 1),
        Instruction::If(false, 0, vec![Instruction::Move(0)]),
        Instruction::If(false, 0, vec![Instruction::Output(0)]),
        Instruction::Loop(false, 0, vec![Instruction::Modify(1, 0)]),
    ]);
    remove_dead(&mut p);
    assert_eq!(
        p,
        Program(vec![
            Instruction::Modify(0, 1),
            Instruction::If(false, 0, vec![Instruction::Output(0)]),
            Instruction::Loop(false, 0, vec![]),
        ])
    );
}

#[test]
fn mark_balanced_sets_and_clears_flags() {
    let mut p = Program(vec![
        Instruction::Loop(false, 0, vec![Instruction::Modify(0, -1)]),
        Instruction::Loop(true, 0, vec![Instruction::Move(1)]),
        Instruction::If(false, 0, vec![
            Instruction::Loop(false, 0, vec![Instruction::Move(1)]),
        ]),
        Instruction::If(false, 0, vec![
            Instruction::Loop(false, 0, vec![Instruction::Output(0)]),
        ]),
    ]);
    mark_balanced_blocks(&mut p);
    assert_eq!(
        p,
        Program(vec![
            Instruction::Loop(true, 0, vec![Instruction::Modify(0, -1)]),
            Instruction::Loop(false, 0, vec![Instruction::Move(1)]),
            Instruction::If(false, 0, vec![
                Instruction::Loop(false, 0, vec![Instruction::Move(1)]),
            ]),
            Instruction::If(true, 0, vec![
                Instruction::Loop(true, 0, vec![Instruction::Output(0)]),
            ]),
        ])
    );
}

#[test]
fn merge_puts_the_hull_in_front_of_each_run() {
    let mut p = Program(vec![
        check(0, 1),
        Instruction::Output(0),
        check(3, 2),
        Instruction::Move(1),
        Instruction::Output(0),
        check(-1, 1),
        check(1, 1),
    ]);
    merge_verifications(&mut p);
    assert_eq!(
        p,
        Program(vec![
            check(0, 5),
            Instruction::Output(0),
            Instruction::Move(1),
            check(-1, 3),
            Instruction::Output(0),
        ])
    );
}

#[test]
fn merge_leaves_one_check_to_a_run() {
    let mut p = Program(vec![check(0, 1), Instruction::Modify(0, 1), check(2, 1)]);
    merge_verifications(&mut p);
    assert_eq!(p, Program(vec![check(0, 3), Instruction::Modify(0, 1)]));
    let mut q = Program(vec![Instruction::Modify(0, 1), check(4, 2)]);
    merge_verifications(&mut q);
    assert_eq!(q, Program(vec![check(4, 2), Instruction::Modify(0, 1)]));
    let mut r = Program(vec![Instruction::Modify(0, 1), Instruction::Move(2)]);
    merge_verifications(&mut r);
    assert_eq!(r, Program(vec![Instruction::Modify(0, 1), Instruction::Move(2)]));
}

#[test]
fn merge_goes_across_balanced_blocks_and_into_bodies() {
    let mut p = Program(vec![
        check(0, 1),
        Instruction::Loop(true, 0, vec![check(2, 1), check(4, 1)]),
        check(1, 1),
        Instruction::Loop(false, 0, vec![]),
        check(7, 1),
    ]);
    merge_verifications(&mut p);
    assert_eq!(
        p,
        Program(vec![
            check(0, 2),
            Instruction::Loop(true, 0, vec![check(2, 3)]),
            Instruction::Loop(false, 0, vec![]),
            check(7, 1),
        ])
    );
}

#[test]
fn dead_verifications_are_dropped() {
    let mut p = Program(vec![
        check(0, 5),
        check(0, 1),
        Instruction::Output(0),
        check(3, 2),
        check(4, 3),
        check(5, 1),
        Instruction::Move(1),
        check(0, 1),
    ]);
    remove_dead_verifications(&mut p);
    assert_eq!(
        p,
        Program(vec![
            check(0, 5),
            Instruction::Output(0),
            check(4, 3),
            Instruction::Move(1),
            check(0, 1),
        ])
    );
}

#[test]
fn dead_verifications_know_in_bodies_what_is_checked_in_front() {
    let mut p = Program(vec![
        check(0, 2),
        Instruction::Loop(true, 0, vec![check(1, 1), check(2, 1)]),
        check(2, 1),
        Instruction::Loop(false, 0, vec![check(0, 1)]),
        check(0, 1),
    ]);
    remove_dead_verifications(&mut p);
    assert_eq!(
        p,
        Program(vec![
            check(0, 2),
            Instruction::Loop(true, 0, vec![check(2, 1)]),
            check(2, 1),
            Instruction::Loop(false, 0, vec![check(0, 1)]),
            check(0, 1),
        ])
    );
}

#[test]
fn additions_are_recognized() {
    let mut p = Program(vec![Instruction::Loop(true, 0, vec![
        Instruction::Modify(1, 2),
        Instruction::Modify(0, -1),
        Instruction::Modify(2, -3),
    ])]);
    recog_additions(&mut p);
    assert_eq!(
        p,
        Program(vec![Instruction::If(true, 0, vec![
            Instruction::AddMultiple { target: 1, base: 0, factor: 2 },
            Instruction::AddMultiple { target: 2, base: 0, factor: -3 },
            Instruction::SetCell(0, 0),
        ])])
    );
}

#[test]
fn additions_need_the_decrement() {
    let body = vec![Instruction::Modify(1, 2), Instruction::Modify(0, -2)];
    let mut p = Program(vec![Instruction::Loop(true, 0, body.clone())]);
    recog_additions(&mut p);
    assert_eq!(p, Program(vec![Instruction::Loop(true, 0, body)]));
}

#[test]
fn additions_need_a_body_of_modifications() {
    let body = vec![Instruction::Modify(0, -1), Instruction::Output(0)];
    let mut p = Program(vec![Instruction::Loop(true, 0, body.clone())]);
    recog_additions(&mut p);
    assert_eq!(p, Program(vec![Instruction::Loop(true, 0, body)]));
}

#[test]
fn additions_fail_on_a_counter_modified_after_the_decrement() {
    let body = vec![Instruction::Modify(0, -1), Instruction::Modify(0, 2)];
    let mut p = Program(vec![Instruction::Loop(true, 0, body.clone())]);
    recog_additions(&mut p);
    assert_eq!(p, Program(vec![Instruction::Loop(true, 0, body)]));
}

#[test]
fn additions_are_recognized_innermost_first_and_twice_is_once() {
    let mut p = Program(vec![Instruction::Loop(false, 0, vec![
        Instruction::Loop(true, 1, vec![Instruction::Modify(1, -1), Instruction::Modify(2, 1)]),
    ])]);
    recog_additions(&mut p);
    let once = p.clone();
    assert_eq!(
        once,
        Program(vec![Instruction::Loop(false, 0, vec![
            Instruction::If(true, 1, vec![
                Instruction::AddMultiple { target: 2, base: 1, factor: 1 },
                Instruction::SetCell(1, 0),
            ]),
        ])])
    );
    recog_additions(&mut p);
    assert_eq!(p, once);
}

#[test]
fn conditionals_without_need_of_a_guard_are_replaced_by_their_bodies() {
    let mut p = Program(vec![
        Instruction::Output(0),
        Instruction::If(true, 3, vec![
            Instruction::AddMultiple { target: 1, base: 3, factor: 2 },
            Instruction::SetCell(3, 0),
        ]),
        Instruction::If(true, 3, vec![Instruction::SetCell(3, 1)]),
        Instruction::Loop(true, 0, vec![Instruction::If(true, 0, vec![])]),
    ]);
    remove_dead_if_statements(&mut p);
    assert_eq!(
        p,
        Program(vec![
            Instruction::Output(0),
            Instruction::AddMultiple { target: 1, base: 3, factor: 2 },
            Instruction::SetCell(3, 0),
            Instruction::If(true, 3, vec![Instruction::SetCell(3, 1)]),
            Instruction::Loop(true, 0, vec![]),
        ])
    );
}

#[test]
fn schedule_turns_a_multiplication_into_additions() {
    let mut p = tree(b"++++++++[>++++++++<-]>+.");
    assert!(can_optimize(&p));
    apply_optimizations(&mut p);
    assert_eq!(
        p,
        Program(vec![
            check(0, 2),
            Instruction::Modify(0, 8),
            Instruction::AddMultiple { target: 1, base: 0, factor: 8 },
            Instruction::SetCell(0, 0),
            Instruction::Modify(1, 1),
            Instruction::Output(1),
            Instruction::Move(1),
        ])
    );
}

#[test]
fn schedule_run_twice_changes_nothing_more() {
    for src in [&b"++[>+++[>++<-]<-]>>."[..], b",[.,]", b"+>+>+<<[>]<.", b"+[]"] {
        let mut p = tree(src);
        apply_optimizations(&mut p);
        let once = p.clone();
        assert!(can_optimize(&p));
        apply_optimizations(&mut p);
        assert_eq!(p, once);
    }
}

#[test]
fn merging_and_removing_settles_at_once() {
    let mut p = Program(vec![
        check(0, 1),
        Instruction::Loop(true, 0, vec![check(3, 1), Instruction::Output(0), check(1, 1)]),
        check(5, 1),
        Instruction::Move(1),
        check(0, 1),
    ]);
    merge_verifications(&mut p);
    remove_dead_verifications(&mut p);
    let once = p.clone();
    merge_verifications(&mut p);
    remove_dead_verifications(&mut p);
    assert_eq!(p, once);
}

#[test]
fn cannot_optimize_where_offsets_overflow() {
    let p = Program(vec![Instruction::Move(isize::MAX), Instruction::Move(1)]);
    assert!(!can_optimize(&p));
    let q = Program(vec![Instruction::Move(1), Instruction::Output(isize::MAX)]);
    assert!(!can_optimize(&q));
    let r = Program(vec![Instruction::Move(1), check(isize::MAX - 1, 1)]);
    assert!(!can_optimize(&r));
    let s = Program(vec![Instruction::Move(1), check(isize::MAX - 2, 1)]);
    assert!(can_optimize(&s));
}

#[test]
fn pretty_print_draws_a_tree() {
    let p = Program(vec![
        check(0, 2),
        Instruction::Modify(0, 8),
        Instruction::Loop(true, 0, vec![
            Instruction::Modify(1, -8),
            Instruction::Output(-1),
        ]),
        Instruction::If(true, 2, vec![Instruction::SetCell(2, 0)]),
        Instruction::AddMultiple { target: 1, base: 0, factor: -2 },
        Instruction::Input(3),
        Instruction::Move(-1),
    ]);
    let mut out = String::new();
    pretty_print(&p, &mut out);
    let expected = "\
└── Program:
   ├── verify(0..2)
   ├── [ptr] += 8
   ├── while [ptr] != 0
   │   ├── [ptr + 1] += -8
   │   └── write(stdout, [ptr - 1])
   ├── if [ptr + 2] != 0
   │   └── [ptr + 2] = 0
   ├── [ptr + 1] += [ptr] * -2
   ├── [ptr + 3] = read(stdin)
   └── ptr += -1
";
    assert_eq!(out, expected);
}

#[test]
fn print_instruction_writes_one_line() {
    let mut out = String::from(">");
    print_instruction(&Instruction::SetCell(-12, 255), "  ", false, &mut out);
    assert_eq!(out, ">  ├── [ptr - 12] = 255\n");
}
