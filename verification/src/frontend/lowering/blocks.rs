use vstd::prelude::*;
use crate::frontend::code_gen::GenState;
use crate::frontend::expr_tree::Instr;
use crate::frontend::laws::lemma_still_list_keeps;
use crate::frontend::lowering::relation::{
    at, carried, frame, holds, index_cached, known, lemma_arrive, lemma_carried_chain,
    lemma_earlier_within, lemma_holds_caches, lemma_run_add, placed, related, takes_index, within,
};
use crate::frontend::lowering::steps::{
    lemma_branch_step, lemma_jump_step, lemma_left, lemma_simple, lemma_tested, ready,
};
use crate::frontend::lowering::structure::{
    bounded, fits, if_back, if_blocks, if_body, if_done, if_end, if_flag, if_inner, if_out,
    if_split, if_tested, lemma_bounded_wider, lemma_branched_straight, lemma_if_front,
    lemma_if_structure, lemma_instr_structure, lemma_jumped_straight, lemma_left_straight,
    lemma_list_structure, lemma_loop_front, lemma_loop_structure, lemma_lowerable_if,
    lemma_lowerable_loop, lemma_lowerable_parts, lemma_span_list_positive, lemma_span_positive,
    loop_back, loop_blocks, loop_body, loop_done, loop_end, loop_flag, loop_head, loop_header,
    loop_inner, loop_left, loop_out, loop_split, loop_tested, lowerable, lowerable_instr,
    span_limit, span_list,
};
use crate::frontend::optimize::still;
use crate::frontend::semantics::{lemma_reach_list_runs, reach_instr, reach_list, Reached};
use crate::ir::ModuleView;
use crate::ir::exec::{magnitude, wrap64, Machine, Value};
use crate::ir::instruction::LeafExpr;

verus! {

/// What the lemmas on loops start from: the state of the lowering before
/// the loop, a body that the lowering is proved right for, offsets within
/// the limit, and a module that holds what the loop is lowered to.
pub open spec fn loop_ready(
    g: GenState,
    unbalanced: bool,
    cond: isize,
    body: Seq<Instr>,
    limit: int,
    big: ModuleView,
) -> bool {
    &&& placed(g)
    &&& known(g)
    &&& bounded(g, limit)
    &&& 0 <= limit
    &&& limit + magnitude(cond as int) + span_list(body) <= span_limit()
    &&& lowerable(body)
    &&& !unbalanced ==> still(body)
    &&& within(big, g.after_loop(unbalanced, cond, body))
}

/// The module that holds what a loop is lowered to holds what the lowering
/// has made at every stage of the loop, and the header and the block that
/// follows take the tape index where the loop is unbalanced.
pub proof fn lemma_loop_within(
    g: GenState,
    unbalanced: bool,
    cond: isize,
    body: Seq<Instr>,
    limit: int,
    big: ModuleView,
)
    requires
        loop_ready(g, unbalanced, cond, body, limit, big),
    ensures
        within(big, loop_blocks(g)),
        within(big, loop_blocks(g).left(unbalanced)),
        within(big, loop_left(g, unbalanced)),
        within(big, loop_head(g, unbalanced)),
        within(big, loop_tested(g, unbalanced, cond)),
        within(big, loop_tested(g, unbalanced, cond).left(unbalanced)),
        within(big, loop_split(g, unbalanced, cond)),
        within(big, loop_body(g, unbalanced, cond)),
        within(big, loop_done(g, unbalanced, cond, body)),
        within(big, loop_done(g, unbalanced, cond, body).left(unbalanced)),
        within(big, loop_back(g, unbalanced, cond, body)),
        takes_index(big, loop_header(g), unbalanced),
        takes_index(big, loop_inner(g), false),
        takes_index(big, loop_end(g), unbalanced),
        unbalanced ==> big.blocks[loop_header(g).0 as int].parameters[0] == loop_head(
            g,
            unbalanced,
        ).index,
        unbalanced ==> big.blocks[loop_end(g).0 as int].parameters[0] == g.after_loop(
            unbalanced,
            cond,
            body,
        ).index,
{
    let header = loop_header(g);
    let inner = loop_inner(g);
    let end = loop_end(g);
    let s0 = loop_blocks(g);
    let s1 = loop_left(g, unbalanced);
    let s2 = loop_head(g, unbalanced);
    let s3 = loop_tested(g, unbalanced, cond);
    let s4 = loop_split(g, unbalanced, cond);
    let s5 = loop_body(g, unbalanced, cond);
    let s6 = loop_done(g, unbalanced, cond, body);
    let s7 = loop_back(g, unbalanced, cond, body);
    let s8 = loop_out(g, unbalanced, cond, body);
    let r = g.after_loop(unbalanced, cond, body);
    let inside = limit + magnitude(cond as int);
    let wide = inside + span_list(body);
    lemma_span_list_positive(body);
    lemma_bounded_wider(g, limit, inside);
    lemma_loop_structure(g, unbalanced, cond, body, limit);
    lemma_loop_front(g, unbalanced, cond, inside);
    assert(fits(r.module));
    assert(within(big, s8));
    lemma_earlier_within(s7, s8, big);
    lemma_earlier_within(s6, s7, big);
    lemma_earlier_within(s5, s6, big);
    lemma_earlier_within(s4, s5, big);
    lemma_earlier_within(s3, s4, big);
    lemma_earlier_within(s2, s3, big);
    lemma_earlier_within(s1, s2, big);
    lemma_jumped_straight(s0, header, unbalanced, inside);
    lemma_left_straight(s0, unbalanced, inside);
    lemma_earlier_within(s0.left(unbalanced), s1, big);
    lemma_earlier_within(s0, s1, big);
    lemma_branched_straight(
        s3,
        LeafExpr::Register(loop_flag(g, unbalanced, cond)),
        inner,
        end,
        unbalanced,
        inside,
    );
    lemma_left_straight(s3, unbalanced, inside);
    lemma_earlier_within(s3.left(unbalanced), s4, big);
    lemma_jumped_straight(s6, header, unbalanced, wide);
    lemma_left_straight(s6, unbalanced, wide);
    lemma_earlier_within(s6.left(unbalanced), s7, big);
    assert(big.blocks[header.0 as int].parameters == s2.module.blocks[header.0 as int].parameters);
    assert(big.blocks[end.0 as int].parameters == s8.module.blocks[end.0 as int].parameters);
}

/// The machine comes to the header of a loop.
pub proof fn lemma_loop_enter(
    g: GenState,
    unbalanced: bool,
    cond: isize,
    body: Seq<Instr>,
    c: Reached,
    ms: Machine,
    big: ModuleView,
    limit: int,
) -> (n: nat)
    requires
        loop_ready(g, unbalanced, cond, body, limit, big),
        at(g, ms, big),
        holds(g, c, ms, 0),
    ensures
        related(loop_head(g, unbalanced), c, ms.run(big, n), big),
        frame(g, ms, ms.run(big, n)),
{
    let header = loop_header(g);
    let s0 = loop_blocks(g);
    let s1 = loop_left(g, unbalanced);
    let s2 = loop_head(g, unbalanced);
    let inside = limit + magnitude(cond as int);
    lemma_span_list_positive(body);
    lemma_bounded_wider(g, limit, inside);
    lemma_loop_structure(g, unbalanced, cond, body, limit);
    lemma_loop_front(g, unbalanced, cond, inside);
    lemma_loop_within(g, unbalanced, cond, body, limit, big);
    assert(at(s0, ms, big));
    lemma_holds_caches(g, s0, c, ms, 0);
    let n1 = lemma_left(s0, c, ms, big, unbalanced, inside);
    let ms1 = ms.run(big, n1);
    let left = s0.left(unbalanced);
    lemma_jump_step(left, c, ms1, big, header, unbalanced);
    let ms2 = ms1.run(big, 1);
    lemma_run_add(big, ms, n1, 1);
    lemma_left_straight(s0, unbalanced, inside);
    assert forall|k: int| 0 <= k < s2.indices.len() implies index_cached(
        #[trigger] s2.indices[k],
        c,
        ms2,
    ) by {
        assert(index_cached(left.indices[k], c, ms1));
    }
    lemma_arrive(s2, c, ms2, big);
    n1 + 1
}

/// The machine runs the header of a loop: where the cell holds zero it
/// comes to the block that follows the loop, and else to the body.
pub proof fn lemma_loop_test(
    g: GenState,
    unbalanced: bool,
    cond: isize,
    body: Seq<Instr>,
    c: Reached,
    ms: Machine,
    big: ModuleView,
    limit: int,
) -> (n: nat)
    requires
        loop_ready(g, unbalanced, cond, body, limit, big),
        related(loop_head(g, unbalanced), c, ms, big),
        c.reaches(cond as int),
    ensures
        frame(loop_left(g, unbalanced), ms, ms.run(big, n)),
        c.state.read(cond as int) != 0 ==> frame(loop_head(g, unbalanced), ms, ms.run(big, n)),
        c.state.read(cond as int) != 0 ==> related(
            loop_body(g, unbalanced, cond),
            c,
            ms.run(big, n),
            big,
        ),
        c.state.read(cond as int) == 0 ==> related(
            g.after_loop(unbalanced, cond, body),
            c,
            ms.run(big, n),
            big,
        ),
{
    let header = loop_header(g);
    let inner = loop_inner(g);
    let end = loop_end(g);
    let s1 = loop_left(g, unbalanced);
    let s2 = loop_head(g, unbalanced);
    let s3 = loop_tested(g, unbalanced, cond);
    let flag = loop_flag(g, unbalanced, cond);
    let s4 = loop_split(g, unbalanced, cond);
    let s5 = loop_body(g, unbalanced, cond);
    let r = g.after_loop(unbalanced, cond, body);
    let inside = limit + magnitude(cond as int);
    lemma_span_list_positive(body);
    lemma_bounded_wider(g, limit, inside);
    lemma_loop_structure(g, unbalanced, cond, body, limit);
    lemma_loop_front(g, unbalanced, cond, inside);
    lemma_loop_within(g, unbalanced, cond, body, limit, big);
    let n1 = lemma_tested(s2, c, ms, big, cond, inside);
    let ms3 = ms.run(big, n1);
    let n2 = lemma_left(s3, c, ms3, big, unbalanced, inside);
    let left = s3.left(unbalanced);
    let ms4 = ms3.run(big, n2);
    let goes_on = c.state.read(cond as int) != 0;
    lemma_left_straight(s3, unbalanced, inside);
    assert(ms4.registers[flag.0 as int] == Value::I1(goes_on));
    lemma_branch_step(left, c, ms4, big, flag, goes_on, inner, end, unbalanced);
    let ms5 = ms4.run(big, 1);
    lemma_run_add(big, ms, n1, n2);
    lemma_run_add(big, ms, n1 + n2, 1);
    lemma_branched_straight(s3, LeafExpr::Register(flag), inner, end, unbalanced, inside);
    if goes_on {
        assert forall|k: int| 0 <= k < s5.indices.len() implies index_cached(
            #[trigger] s5.indices[k],
            c,
            ms5,
        ) by {
            assert(index_cached(left.indices[k], c, ms4));
        }
        lemma_arrive(s5, c, ms5, big);
    } else {
        assert forall|k: int| 0 <= k < r.indices.len() implies index_cached(
            #[trigger] r.indices[k],
            c,
            ms5,
        ) by {
            assert(index_cached(s2.indices[k], c, ms));
            assert(s2.indices[k].register.0 < s2.module.registers.len());
        }
        lemma_arrive(r, c, ms5, big);
    }
    n1 + n2 + 1
}

/// The machine jumps back from the end of the body of a loop to its
/// header.
pub proof fn lemma_loop_again(
    g: GenState,
    unbalanced: bool,
    cond: isize,
    body: Seq<Instr>,
    c: Reached,
    ms: Machine,
    big: ModuleView,
    limit: int,
) -> (n: nat)
    requires
        loop_ready(g, unbalanced, cond, body, limit, big),
        related(loop_done(g, unbalanced, cond, body), c, ms, big),
        !unbalanced ==> ms.registers[loop_head(g, unbalanced).index.0 as int] == Value::I64(
            wrap64(c.state.pointer),
        ),
        forall|k: int|
            0 <= k < loop_head(g, unbalanced).indices.len() ==> index_cached(
                #[trigger] loop_head(g, unbalanced).indices[k],
                c,
                ms,
            ),
    ensures
        related(loop_head(g, unbalanced), c, ms.run(big, n), big),
        frame(loop_left(g, unbalanced), ms, ms.run(big, n)),
{
    let header = loop_header(g);
    let s1 = loop_left(g, unbalanced);
    let s2 = loop_head(g, unbalanced);
    let s5 = loop_body(g, unbalanced, cond);
    let s6 = loop_done(g, unbalanced, cond, body);
    let inside = limit + magnitude(cond as int);
    let wide = inside + span_list(body);
    lemma_span_list_positive(body);
    lemma_bounded_wider(g, limit, inside);
    lemma_loop_structure(g, unbalanced, cond, body, limit);
    lemma_loop_front(g, unbalanced, cond, inside);
    lemma_loop_within(g, unbalanced, cond, body, limit, big);
    let n1 = lemma_left(s6, c, ms, big, unbalanced, wide);
    let left = s6.left(unbalanced);
    let ms1 = ms.run(big, n1);
    lemma_jump_step(left, c, ms1, big, header, unbalanced);
    let ms2 = ms1.run(big, 1);
    lemma_run_add(big, ms, n1, 1);
    assert forall|k: int| 0 <= k < s2.indices.len() implies index_cached(
        #[trigger] s2.indices[k],
        c,
        ms2,
    ) by {
        assert(index_cached(s2.indices[k], c, ms));
        assert(s2.indices[k].register.0 < s2.module.registers.len());
    }
    lemma_arrive(s2, c, ms2, big);
    n1 + 1
}

/// The machine runs a loop from its header to the block that follows it,
/// turn by turn as the tape machine does.
pub proof fn lemma_loop_turns(
    g: GenState,
    unbalanced: bool,
    cond: isize,
    body: Seq<Instr>,
    c: Reached,
    ms: Machine,
    big: ModuleView,
    limit: int,
    fuel: nat,
) -> (n: nat)
    requires
        loop_ready(g, unbalanced, cond, body, limit, big),
        related(loop_head(g, unbalanced), c, ms, big),
        reach_instr(Instr::Loop(!unbalanced, cond as int, body), c, fuel) is Some,
    ensures
        related(
            g.after_loop(unbalanced, cond, body),
            reach_instr(Instr::Loop(!unbalanced, cond as int, body), c, fuel).unwrap(),
            ms.run(big, n),
            big,
        ),
        frame(loop_left(g, unbalanced), ms, ms.run(big, n)),
    decreases fuel, body, 3int,
{
    let i = Instr::Loop(!unbalanced, cond as int, body);
    let s1 = loop_left(g, unbalanced);
    let s2 = loop_head(g, unbalanced);
    let s5 = loop_body(g, unbalanced, cond);
    let s6 = loop_done(g, unbalanced, cond, body);
    let inside = limit + magnitude(cond as int);
    lemma_span_list_positive(body);
    lemma_bounded_wider(g, limit, inside);
    lemma_loop_structure(g, unbalanced, cond, body, limit);
    lemma_loop_front(g, unbalanced, cond, inside);
    lemma_loop_within(g, unbalanced, cond, body, limit, big);
    let n1 = lemma_loop_test(g, unbalanced, cond, body, c, ms, big, limit);
    let ms1 = ms.run(big, n1);
    if c.state.read(cond as int) == 0 {
        n1
    } else {
        let rest = (fuel - 1) as nat;
        let next = reach_list(body, c, rest).unwrap();
        let n2 = lemma_list_runs(s5, c, ms1, big, body, inside, rest);
        let ms2 = ms1.run(big, n2);
        lemma_reach_list_runs(body, c, rest);
        if !unbalanced {
            lemma_still_list_keeps(body, c.state, rest);
        }
        assert forall|k: int| 0 <= k < s2.indices.len() implies index_cached(
            #[trigger] s2.indices[k],
            next,
            ms2,
        ) by {
            assert(index_cached(s2.indices[k], c, ms));
            assert(s2.indices[k].register.0 < s2.module.registers.len());
        }
        let n3 = lemma_loop_again(g, unbalanced, cond, body, next, ms2, big, limit);
        let ms3 = ms2.run(big, n3);
        let n4 = lemma_loop_turns(g, unbalanced, cond, body, next, ms3, big, limit, rest);
        lemma_run_add(big, ms, n1, n2);
        lemma_run_add(big, ms, n1 + n2, n3);
        lemma_run_add(big, ms, n1 + n2 + n3, n4);
        n1 + n2 + n3 + n4
    }
}

/// The machine runs what a loop is lowered to.
pub proof fn lemma_loop_runs(
    g: GenState,
    unbalanced: bool,
    cond: isize,
    body: Seq<Instr>,
    c: Reached,
    ms: Machine,
    big: ModuleView,
    limit: int,
    fuel: nat,
) -> (n: nat)
    requires
        loop_ready(g, unbalanced, cond, body, limit, big),
        at(g, ms, big),
        holds(g, c, ms, 0),
        reach_instr(Instr::Loop(!unbalanced, cond as int, body), c, fuel) is Some,
    ensures
        carried(
            g,
            ms,
            g.after_loop(unbalanced, cond, body),
            reach_instr(Instr::Loop(!unbalanced, cond as int, body), c, fuel).unwrap(),
            ms.run(big, n),
            big,
            0,
        ),
    decreases fuel, body, 4int,
{
    let inside = limit + magnitude(cond as int);
    lemma_span_list_positive(body);
    lemma_bounded_wider(g, limit, inside);
    lemma_loop_structure(g, unbalanced, cond, body, limit);
    lemma_loop_front(g, unbalanced, cond, inside);
    let n1 = lemma_loop_enter(g, unbalanced, cond, body, c, ms, big, limit);
    let ms1 = ms.run(big, n1);
    let n2 = lemma_loop_turns(g, unbalanced, cond, body, c, ms1, big, limit, fuel);
    lemma_run_add(big, ms, n1, n2);
    n1 + n2
}

/// What the lemmas on conditionals start from.
pub open spec fn if_ready(
    g: GenState,
    unbalanced: bool,
    cond: isize,
    body: Seq<Instr>,
    limit: int,
    big: ModuleView,
) -> bool {
    &&& placed(g)
    &&& known(g)
    &&& bounded(g, limit)
    &&& 0 <= limit
    &&& limit + magnitude(cond as int) + span_list(body) <= span_limit()
    &&& lowerable(body)
    &&& !unbalanced ==> still(body)
    &&& within(big, g.after_if(unbalanced, cond, body))
}

/// The module that holds what a conditional is lowered to holds what the
/// lowering has made at every stage of the conditional, and the block that
/// follows takes the tape index where the conditional is unbalanced.
pub proof fn lemma_if_within(
    g: GenState,
    unbalanced: bool,
    cond: isize,
    body: Seq<Instr>,
    limit: int,
    big: ModuleView,
)
    requires
        if_ready(g, unbalanced, cond, body, limit, big),
    ensures
        within(big, if_blocks(g)),
        within(big, if_tested(g, cond)),
        within(big, if_tested(g, cond).left(unbalanced)),
        within(big, if_split(g, unbalanced, cond)),
        within(big, if_body(g, unbalanced, cond)),
        within(big, if_done(g, unbalanced, cond, body)),
        within(big, if_done(g, unbalanced, cond, body).left(unbalanced)),
        within(big, if_back(g, unbalanced, cond, body)),
        takes_index(big, if_inner(g), false),
        takes_index(big, if_end(g), unbalanced),
        unbalanced ==> big.blocks[if_end(g).0 as int].parameters[0] == g.after_if(
            unbalanced,
            cond,
            body,
        ).index,
{
    let inner = if_inner(g);
    let end = if_end(g);
    let s0 = if_blocks(g);
    let s1 = if_tested(g, cond);
    let s2 = if_split(g, unbalanced, cond);
    let s3 = if_body(g, unbalanced, cond);
    let s4 = if_done(g, unbalanced, cond, body);
    let s5 = if_back(g, unbalanced, cond, body);
    let s6 = if_out(g, unbalanced, cond, body);
    let r = g.after_if(unbalanced, cond, body);
    let inside = limit + magnitude(cond as int);
    let wide = inside + span_list(body);
    lemma_span_list_positive(body);
    lemma_bounded_wider(g, limit, inside);
    lemma_if_structure(g, unbalanced, cond, body, limit);
    lemma_if_front(g, unbalanced, cond, inside);
    assert(fits(r.module));
    assert(within(big, s6));
    lemma_earlier_within(s5, s6, big);
    lemma_earlier_within(s4, s5, big);
    lemma_earlier_within(s3, s4, big);
    lemma_earlier_within(s2, s3, big);
    lemma_earlier_within(s1, s2, big);
    lemma_earlier_within(s0, s1, big);
    lemma_branched_straight(
        s1,
        LeafExpr::Register(if_flag(g, cond)),
        inner,
        end,
        unbalanced,
        inside,
    );
    lemma_left_straight(s1, unbalanced, inside);
    lemma_earlier_within(s1.left(unbalanced), s2, big);
    lemma_jumped_straight(s4, end, unbalanced, wide);
    lemma_left_straight(s4, unbalanced, wide);
    lemma_earlier_within(s4.left(unbalanced), s5, big);
    assert(big.blocks[end.0 as int].parameters == s6.module.blocks[end.0 as int].parameters);
}

/// The machine runs the test of a conditional: where the cell holds zero
/// it comes to the block that follows, and else to the body.
pub proof fn lemma_if_test(
    g: GenState,
    unbalanced: bool,
    cond: isize,
    body: Seq<Instr>,
    c: Reached,
    ms: Machine,
    big: ModuleView,
    limit: int,
) -> (n: nat)
    requires
        if_ready(g, unbalanced, cond, body, limit, big),
        at(g, ms, big),
        holds(g, c, ms, 0),
        c.reaches(cond as int),
    ensures
        frame(g, ms, ms.run(big, n)),
        c.state.read(cond as int) != 0 ==> related(
            if_body(g, unbalanced, cond),
            c,
            ms.run(big, n),
            big,
        ),
        c.state.read(cond as int) == 0 ==> related(
            g.after_if(unbalanced, cond, body),
            c,
            ms.run(big, n),
            big,
        ),
{
    let inner = if_inner(g);
    let end = if_end(g);
    let s0 = if_blocks(g);
    let s1 = if_tested(g, cond);
    let flag = if_flag(g, cond);
    let s2 = if_split(g, unbalanced, cond);
    let s3 = if_body(g, unbalanced, cond);
    let r = g.after_if(unbalanced, cond, body);
    let inside = limit + magnitude(cond as int);
    lemma_span_list_positive(body);
    lemma_bounded_wider(g, limit, inside);
    lemma_if_structure(g, unbalanced, cond, body, limit);
    lemma_if_front(g, unbalanced, cond, inside);
    lemma_if_within(g, unbalanced, cond, body, limit, big);
    assert(at(s0, ms, big));
    lemma_holds_caches(g, s0, c, ms, 0);
    let n1 = lemma_tested(s0, c, ms, big, cond, inside);
    let ms1 = ms.run(big, n1);
    let n2 = lemma_left(s1, c, ms1, big, unbalanced, inside);
    let left = s1.left(unbalanced);
    let ms2 = ms1.run(big, n2);
    let goes_on = c.state.read(cond as int) != 0;
    lemma_left_straight(s1, unbalanced, inside);
    assert(ms2.registers[flag.0 as int] == Value::I1(goes_on));
    lemma_branch_step(left, c, ms2, big, flag, goes_on, inner, end, unbalanced);
    let ms3 = ms2.run(big, 1);
    lemma_run_add(big, ms, n1, n2);
    lemma_run_add(big, ms, n1 + n2, 1);
    lemma_branched_straight(s1, LeafExpr::Register(flag), inner, end, unbalanced, inside);
    if goes_on {
        assert forall|k: int| 0 <= k < s3.indices.len() implies index_cached(
            #[trigger] s3.indices[k],
            c,
            ms3,
        ) by {
            assert(index_cached(left.indices[k], c, ms2));
        }
        lemma_arrive(s3, c, ms3, big);
    } else {
        assert forall|k: int| 0 <= k < r.indices.len() implies index_cached(
            #[trigger] r.indices[k],
            c,
            ms3,
        ) by {
            assert(index_cached(left.indices[k], c, ms2));
        }
        lemma_arrive(r, c, ms3, big);
    }
    n1 + n2 + 1
}

/// The machine jumps from the end of the body of a conditional to the
/// block that follows.
pub proof fn lemma_if_leave(
    g: GenState,
    unbalanced: bool,
    cond: isize,
    body: Seq<Instr>,
    c: Reached,
    ms: Machine,
    big: ModuleView,
    limit: int,
) -> (n: nat)
    requires
        if_ready(g, unbalanced, cond, body, limit, big),
        related(if_done(g, unbalanced, cond, body), c, ms, big),
        !unbalanced ==> ms.registers[g.index.0 as int] == Value::I64(wrap64(c.state.pointer)),
        forall|k: int|
            0 <= k < if_split(g, unbalanced, cond).indices.len() ==> index_cached(
                #[trigger] if_split(g, unbalanced, cond).indices[k],
                c,
                ms,
            ),
    ensures
        related(g.after_if(unbalanced, cond, body), c, ms.run(big, n), big),
        frame(if_done(g, unbalanced, cond, body), ms, ms.run(big, n)),
{
    let end = if_end(g);
    let s2 = if_split(g, unbalanced, cond);
    let s4 = if_done(g, unbalanced, cond, body);
    let r = g.after_if(unbalanced, cond, body);
    let inside = limit + magnitude(cond as int);
    let wide = inside + span_list(body);
    lemma_span_list_positive(body);
    lemma_bounded_wider(g, limit, inside);
    lemma_if_structure(g, unbalanced, cond, body, limit);
    lemma_if_front(g, unbalanced, cond, inside);
    lemma_if_within(g, unbalanced, cond, body, limit, big);
    let n1 = lemma_left(s4, c, ms, big, unbalanced, wide);
    let left = s4.left(unbalanced);
    let ms1 = ms.run(big, n1);
    lemma_jump_step(left, c, ms1, big, end, unbalanced);
    let ms2 = ms1.run(big, 1);
    lemma_run_add(big, ms, n1, 1);
    assert forall|k: int| 0 <= k < r.indices.len() implies index_cached(
        #[trigger] r.indices[k],
        c,
        ms2,
    ) by {
        assert(index_cached(s2.indices[k], c, ms));
        assert(s2.indices[k].register.0 < s2.module.registers.len());
    }
    lemma_arrive(r, c, ms2, big);
    n1 + 1
}

/// The machine runs what a conditional is lowered to.
pub proof fn lemma_if_runs(
    g: GenState,
    unbalanced: bool,
    cond: isize,
    body: Seq<Instr>,
    c: Reached,
    ms: Machine,
    big: ModuleView,
    limit: int,
    fuel: nat,
) -> (n: nat)
    requires
        if_ready(g, unbalanced, cond, body, limit, big),
        at(g, ms, big),
        holds(g, c, ms, 0),
        reach_instr(Instr::If(!unbalanced, cond as int, body), c, fuel) is Some,
    ensures
        carried(
            g,
            ms,
            g.after_if(unbalanced, cond, body),
            reach_instr(Instr::If(!unbalanced, cond as int, body), c, fuel).unwrap(),
            ms.run(big, n),
            big,
            0,
        ),
    decreases fuel, body, 4int,
{
    let s2 = if_split(g, unbalanced, cond);
    let s3 = if_body(g, unbalanced, cond);
    let s4 = if_done(g, unbalanced, cond, body);
    let inside = limit + magnitude(cond as int);
    lemma_span_list_positive(body);
    lemma_bounded_wider(g, limit, inside);
    lemma_if_structure(g, unbalanced, cond, body, limit);
    lemma_if_front(g, unbalanced, cond, inside);
    lemma_if_within(g, unbalanced, cond, body, limit, big);
    let n1 = lemma_if_test(g, unbalanced, cond, body, c, ms, big, limit);
    let ms1 = ms.run(big, n1);
    if c.state.read(cond as int) == 0 {
        n1
    } else {
        let next = reach_list(body, c, fuel).unwrap();
        let n2 = lemma_list_runs(s3, c, ms1, big, body, inside, fuel);
        let ms2 = ms1.run(big, n2);
        lemma_reach_list_runs(body, c, fuel);
        if !unbalanced {
            lemma_still_list_keeps(body, c.state, fuel);
        }
        assert forall|k: int| 0 <= k < s2.indices.len() implies index_cached(
            #[trigger] s2.indices[k],
            next,
            ms2,
        ) by {
            assert(index_cached(s3.indices[k], c, ms1));
            assert(s3.indices[k].register.0 < s3.module.registers.len());
        }
        let n3 = lemma_if_leave(g, unbalanced, cond, body, next, ms2, big, limit);
        lemma_run_add(big, ms, n1, n2);
        lemma_run_add(big, ms, n1 + n2, n3);
        n1 + n2 + n3
    }
}

/// The machine runs what an instruction is lowered to, and then holds
/// what the tape machine holds after the instruction.
pub proof fn lemma_instr_runs(
    g: GenState,
    c: Reached,
    ms: Machine,
    big: ModuleView,
    i: Instr,
    limit: int,
    fuel: nat,
) -> (n: nat)
    requires
        ready(g, c, ms, big, i, limit),
        lowerable_instr(i),
        reach_instr(i, c, fuel) is Some,
    ensures
        carried(g, ms, g.after(i), reach_instr(i, c, fuel).unwrap(), ms.run(big, n), big, 0),
    decreases fuel, i, 0int,
{
    match i {
        Instr::Loop(balanced, cond, body) => {
            lemma_lowerable_loop(balanced, cond, body);
            lemma_span_list_positive(body);
            assert(g.after(i) == g.after_loop(!balanced, cond as isize, body));
            lemma_loop_runs(g, !balanced, cond as isize, body, c, ms, big, limit, fuel)
        },
        Instr::If(balanced, cond, body) => {
            lemma_lowerable_if(balanced, cond, body);
            lemma_span_list_positive(body);
            assert(g.after(i) == g.after_if(!balanced, cond as isize, body));
            lemma_if_runs(g, !balanced, cond as isize, body, c, ms, big, limit, fuel)
        },
        _ => lemma_simple(g, c, ms, big, i, limit),
    }
}

/// The machine runs what a list of instructions is lowered to, and then
/// holds what the tape machine holds after the list.
pub proof fn lemma_list_runs(
    g: GenState,
    c: Reached,
    ms: Machine,
    big: ModuleView,
    s: Seq<Instr>,
    limit: int,
    fuel: nat,
) -> (n: nat)
    requires
        at(g, ms, big),
        holds(g, c, ms, 0),
        within(big, g.after_list(s)),
        bounded(g, limit),
        0 <= limit,
        limit + span_list(s) <= span_limit(),
        lowerable(s),
        reach_list(s, c, fuel) is Some,
    ensures
        carried(g, ms, g.after_list(s), reach_list(s, c, fuel).unwrap(), ms.run(big, n), big, 0),
    decreases fuel, s, 1int,
{
    if s.len() == 0 {
        assert(ms.run(big, 0) == ms);
        0
    } else {
        let front = s.drop_last();
        let mid = g.after_list(front);
        let last = g.after_list(s);
        lemma_lowerable_parts(s);
        lemma_span_list_positive(front);
        lemma_span_positive(s.last());
        lemma_list_structure(g, front, limit);
        lemma_instr_structure(mid, s.last(), limit + span_list(front));
        lemma_earlier_within(mid, last, big);
        let n1 = lemma_list_runs(g, c, ms, big, front, limit, fuel);
        let ms1 = ms.run(big, n1);
        let c1 = reach_list(front, c, fuel).unwrap();
        let n2 = lemma_instr_runs(mid, c1, ms1, big, s.last(), limit + span_list(front), fuel);
        let ms2 = ms1.run(big, n2);
        lemma_run_add(big, ms, n1, n2);
        lemma_carried_chain(g, ms, mid, ms1, last, reach_instr(s.last(), c1, fuel).unwrap(), ms2, big, 0);
        n1 + n2
    }
}

} // verus!
