//! The parts of the analysis, one by one.

use explicit_reinitialization::graph::reachable_blocks;
use explicit_reinitialization::lint::{check_body, fresh_variable};
use explicit_reinitialization::mir::{BasicBlockData, Body, LocalUse, Location, MutatingUseContext};
use explicit_reinitialization::mir::{Mutability, PlaceContext, Statement, StatementKind};
use explicit_reinitialization::mir::{Terminator, TerminatorKind, VarDebugInfoContents};
use explicit_reinitialization::search::{check_local_spans, check_value_spans};
use explicit_reinitialization::search::{search_local, search_mir_by_span};
use explicit_reinitialization::span::{cmp_span, in_external_macro, Session, Span, SpanCmp};
use explicit_reinitialization::usage::{check_later_blocks, dominate_all_usage, find_usage};

fn sp(lo: u32, hi: u32) -> Span {
    Span { lo, hi, ctxt: 0, parent: None }
}

fn at(block: usize, statement_index: usize) -> Location {
    Location { block, statement_index }
}

fn nothing() -> Session {
    Session { external_macros: vec![] }
}

fn block(statements: Vec<(u32, u32, StatementKind)>, successors: Vec<usize>) -> BasicBlockData {
    BasicBlockData {
        statements: statements
            .into_iter()
            .map(|(lo, hi, kind)| Statement { span: sp(lo, hi), kind })
            .collect(),
        terminator: Terminator { span: sp(900, 901), kind: TerminatorKind::Other, successors },
        is_cleanup: false,
    }
}

fn body(basic_blocks: Vec<BasicBlockData>) -> Body {
    Body {
        basic_blocks,
        var_debug_info: vec![VarDebugInfoContents::Place(1), VarDebugInfoContents::Place(2)],
        local_uses: vec![],
    }
}

fn used(mut mir: Body, uses: Vec<(usize, PlaceContext, Location)>) -> Body {
    for (local, context, location) in uses {
        mir.local_uses.push(LocalUse { local, context, location });
    }
    mir
}

const READ: PlaceContext = PlaceContext::NonMutatingUse;
const WRITE: PlaceContext = PlaceContext::MutatingUse(MutatingUseContext::Other);
const DROP: PlaceContext = PlaceContext::MutatingUse(MutatingUseContext::Drop);
const MARK: PlaceContext = PlaceContext::NonUse;

/// 0 -> 1, 2; both -> 3; 3 -> 1. Block 4 cannot be entered.
fn branching() -> Body {
    body(vec![
        block(vec![], vec![1, 2]),
        block(vec![], vec![3]),
        block(vec![], vec![3]),
        block(vec![], vec![1]),
        block(vec![], vec![3]),
    ])
}

// ---- spans ---------------------------------------------------------------------------

#[test]
fn spans_compare() {
    assert_eq!(cmp_span(sp(2, 5), sp(2, 5)), SpanCmp::Eq);
    assert_eq!(cmp_span(sp(1, 5), sp(2, 5)), SpanCmp::AContainB);
    assert_eq!(cmp_span(sp(2, 4), sp(1, 4)), SpanCmp::BContainA);
    assert_eq!(cmp_span(sp(1, 4), sp(3, 6)), SpanCmp::Overlap);
    assert_eq!(cmp_span(sp(1, 3), sp(3, 6)), SpanCmp::NoOverLap);
}

#[test]
fn relations_over_bounds() {
    let bounds = [0, 1, 2, 3];
    let spans: Vec<Span> = bounds
        .iter()
        .flat_map(|lo| bounds.iter().filter(move |hi| lo <= *hi).map(move |hi| sp(*lo, *hi)))
        .collect();
    for a in &spans {
        for b in &spans {
            let a_holds_b = a.lo <= b.lo && b.hi <= a.hi;
            let b_holds_a = b.lo <= a.lo && a.hi <= b.hi;
            let expected = if a_holds_b && b_holds_a {
                SpanCmp::Eq
            } else if a_holds_b {
                SpanCmp::AContainB
            } else if b_holds_a {
                SpanCmp::BContainA
            } else if a.hi <= b.lo || b.hi <= a.lo {
                SpanCmp::NoOverLap
            } else {
                SpanCmp::Overlap
            };
            assert_eq!(cmp_span(*a, *b), expected);
        }
    }
}

#[test]
fn swapped_spans_mirror() {
    let spans = [sp(2, 5), sp(1, 5), sp(3, 6), sp(7, 9), sp(5, 5)];
    for a in spans {
        for b in spans {
            let mirrored = match cmp_span(a, b) {
                SpanCmp::AContainB => SpanCmp::BContainA,
                SpanCmp::BContainA => SpanCmp::AContainB,
                same => same,
            };
            assert_eq!(cmp_span(b, a), mirrored);
        }
    }
}

#[test]
fn one_range_in_two_contexts_contains_itself() {
    let a = sp(2, 5);
    let b = Span { lo: 2, hi: 5, ctxt: 1, parent: None };
    assert_eq!(cmp_span(a, b), SpanCmp::AContainB);
    assert_eq!(cmp_span(b, a), SpanCmp::AContainB);
}

#[test]
fn one_range_relative_to_two_items_contains_itself() {
    let a = sp(2, 5);
    let b = Span { lo: 2, hi: 5, ctxt: 0, parent: Some(4) };
    let c = Span { lo: 2, hi: 5, ctxt: 0, parent: Some(6) };
    for (x, y) in [(a, b), (b, a), (b, c), (c, b)] {
        assert_eq!(cmp_span(x, y), SpanCmp::AContainB);
    }
    assert_eq!(cmp_span(b, b), SpanCmp::Eq);
    let outer = Span { lo: 1, hi: 5, ctxt: 0, parent: Some(6) };
    assert_eq!(cmp_span(b, outer), SpanCmp::BContainA);
}

#[test]
fn common_range_is_never_apart() {
    assert_ne!(cmp_span(sp(1, 5), sp(4, 9)), SpanCmp::NoOverLap);
    assert!(sp(1, 9).contains(sp(1, 5)) && sp(1, 5).contains(sp(4, 5)));
    assert!(sp(1, 9).contains(sp(4, 5)));
}

#[test]
fn expansions_are_told() {
    let sess = Session { external_macros: vec![4, 6] };
    assert!(!sp(0, 1).from_expansion());
    assert!(Span { lo: 0, hi: 1, ctxt: 5, parent: None }.from_expansion());
    assert!(!in_external_macro(&sess, Span { lo: 0, hi: 1, ctxt: 5, parent: None }));
    assert!(in_external_macro(&sess, Span { lo: 0, hi: 1, ctxt: 6, parent: None }));
}

// ---- the graph -----------------------------------------------------------------------

#[test]
fn blocks_are_reached() {
    let mir = branching();
    assert_eq!(reachable_blocks(&mir, &vec![0], None), vec![true, true, true, true, false]);
    assert_eq!(reachable_blocks(&mir, &vec![0], Some(3)), vec![true, true, true, false, false]);
    assert_eq!(reachable_blocks(&mir, &vec![3], None), vec![false, true, false, true, false]);
    assert_eq!(reachable_blocks(&mir, &vec![3], Some(3)), vec![false; 5]);
    assert_eq!(reachable_blocks(&mir, &vec![], None), vec![false; 5]);
}

#[test]
fn blocks_dominate() {
    let mir = branching();
    let dominators = mir.dominators();
    let table: Vec<Vec<bool>> = (0..5)
        .map(|a| (0..4).map(|b| dominators.dominates(a, b)).collect())
        .collect();
    assert_eq!(
        table,
        vec![
            vec![true, true, true, true],
            vec![false, true, false, false],
            vec![false, false, true, false],
            vec![false, false, false, true],
            vec![false, false, false, false],
        ]
    );
    assert!(dominators.is_reachable(3));
    assert!(!dominators.is_reachable(4));
}

#[test]
fn dominance_is_a_partial_order() {
    let mir = body(vec![
        block(vec![], vec![1]),
        block(vec![], vec![2, 4]),
        block(vec![], vec![3]),
        block(vec![], vec![1, 4]),
        block(vec![], vec![]),
    ]);
    let d = mir.dominators();
    for a in 0..5 {
        assert!(d.dominates(a, a));
        for b in 0..5 {
            assert!(a == b || !(d.dominates(a, b) && d.dominates(b, a)));
            for c in 0..5 {
                assert!(!(d.dominates(a, b) && d.dominates(b, c)) || d.dominates(a, c));
            }
        }
    }
    assert!(d.dominates(1, 4) && !d.dominates(2, 4) && d.dominates(2, 3));
}

#[test]
fn locations_dominate() {
    let mir = branching();
    let dominators = mir.dominators();
    assert!(at(1, 0).dominates(at(1, 0), &dominators));
    assert!(at(1, 0).dominates(at(1, 2), &dominators));
    assert!(!at(1, 2).dominates(at(1, 0), &dominators));
    assert!(at(0, 9).dominates(at(3, 0), &dominators));
    assert!(!at(1, 0).dominates(at(3, 0), &dominators));
    assert!(!at(4, 0).dominates(at(3, 0), &dominators));
}

#[test]
fn bodies_are_well_formed_or_not() {
    assert!(branching().is_well_formed());
    assert!(!body(vec![]).is_well_formed());
    assert!(!body(vec![block(vec![], vec![1])]).is_well_formed());
    let one = || body(vec![block(vec![(0, 1, StatementKind::Other)], vec![])]);
    assert!(used(one(), vec![(1, READ, at(0, 1))]).is_well_formed());
    assert!(!used(one(), vec![(1, READ, at(0, 2))]).is_well_formed());
    assert!(!used(one(), vec![(1, READ, at(1, 0))]).is_well_formed());
}

// ---- searching -----------------------------------------------------------------------

#[test]
fn innermost_write_is_found() {
    let mir = body(vec![
        block(
            vec![
                (0, 50, StatementKind::Assign(2)),
                (10, 20, StatementKind::StorageLive(1)),
                (5, 30, StatementKind::Assign(2)),
                (10, 11, StatementKind::Other),
            ],
            vec![1],
        ),
        block(vec![(30, 31, StatementKind::Assign(1))], vec![]),
    ]);
    assert!(check_local_spans(&mir, sp(10, 11), &nothing()));
    assert_eq!(search_local(&mir, sp(10, 11), &nothing()), Some((sp(10, 20), 1, at(0, 1))));
    assert_eq!(search_local(&mir, sp(25, 26), &nothing()), Some((sp(5, 30), 2, at(0, 2))));
    assert_eq!(search_local(&mir, sp(60, 61), &nothing()), None);
    assert_eq!(search_local(&mir, Span { lo: 10, hi: 11, ctxt: 2, parent: None }, &nothing()), None);
}

#[test]
fn calls_write_their_destination() {
    let mut mir = body(vec![block(vec![], vec![1]), block(vec![], vec![])]);
    mir.basic_blocks[0].terminator.span = sp(10, 20);
    mir.basic_blocks[0].terminator.kind = TerminatorKind::Call(1);
    let dominators = mir.dominators();
    assert_eq!(search_local(&mir, sp(10, 11), &nothing()), Some((sp(10, 20), 1, at(0, 0))));
    assert_eq!(
        search_mir_by_span(&mir, sp(14, 20), &dominators, &nothing()),
        Some((sp(10, 20), at(0, 0)))
    );
}

#[test]
fn hidden_writes_are_passed_over() {
    let plain = || body(vec![block(vec![(10, 20, StatementKind::Assign(1))], vec![])]);
    assert!(search_local(&plain(), sp(10, 11), &nothing()).is_some());
    let mut unnamed = plain();
    unnamed.var_debug_info = vec![VarDebugInfoContents::Const, VarDebugInfoContents::Place(2)];
    assert_eq!(search_local(&unnamed, sp(10, 11), &nothing()), None);
    let mut unwinding = plain();
    unwinding.basic_blocks[0].is_cleanup = true;
    assert_eq!(search_local(&unwinding, sp(10, 11), &nothing()), None);
    let mut expanded = plain();
    expanded.basic_blocks[0].statements[0].span.ctxt = 3;
    assert_eq!(search_local(&expanded, Span { lo: 10, hi: 11, ctxt: 3, parent: None }, &nothing()), None);
    let external = Session { external_macros: vec![0] };
    assert_eq!(search_local(&plain(), sp(10, 11), &external), None);
}

#[test]
fn writes_that_do_not_nest_are_refused() {
    let pair = |a: (u32, u32), b: (u32, u32)| {
        body(vec![block(
            vec![(a.0, a.1, StatementKind::Assign(1)), (b.0, b.1, StatementKind::Assign(2))],
            vec![],
        )])
    };
    assert!(check_local_spans(&pair((10, 30), (10, 20)), sp(10, 11), &nothing()));
    assert!(!check_local_spans(&pair((10, 20), (10, 20)), sp(10, 11), &nothing()));
    assert!(!check_local_spans(&pair((5, 20), (10, 30)), sp(10, 11), &nothing()));
    assert!(!check_local_spans(&pair((5, 10), (10, 30)), sp(10, 10), &nothing()));
}

#[test]
fn outer_writes_need_not_nest_with_each_other() {
    let mir = body(vec![block(
        vec![
            (0, 30, StatementKind::Assign(1)),
            (10, 11, StatementKind::Assign(2)),
            (5, 40, StatementKind::Assign(1)),
            (5, 40, StatementKind::Assign(2)),
        ],
        vec![],
    )]);
    assert!(check_local_spans(&mir, sp(10, 11), &nothing()));
    assert_eq!(search_local(&mir, sp(10, 11), &nothing()), Some((sp(10, 11), 2, at(0, 1))));
}

/// One block that assigns at 10..20, recorded relative to the given items in turn.
fn relative_to(items: Vec<Option<u32>>) -> Body {
    let n = items.len();
    let mut mir = body(vec![block(vec![(10, 20, StatementKind::Assign(1)); n], vec![])]);
    for (statement, item) in mir.basic_blocks[0].statements.iter_mut().zip(items) {
        statement.span.parent = item;
    }
    mir
}

#[test]
fn last_write_of_one_range_is_found() {
    let found = |items: Vec<Option<u32>>| {
        let mir = relative_to(items);
        if check_local_spans(&mir, sp(10, 11), &nothing()) {
            search_local(&mir, sp(10, 11), &nothing()).map(|(_, _, l)| l.statement_index)
        } else {
            None
        }
    };
    assert_eq!(found(vec![None]), Some(0));
    assert_eq!(found(vec![None, Some(4)]), Some(1));
    assert_eq!(found(vec![None, Some(4), None]), Some(2));
    assert_eq!(found(vec![None, None]), None);
    assert_eq!(found(vec![None, Some(4), Some(4)]), None);
}

#[test]
fn values_compete_since_the_last_change_of_item() {
    // Visited in the order 0, 1, 2, 3, but run in the order 0, 3, 2, 1.
    let mut mir = body(vec![
        block(vec![(10, 20, StatementKind::Assign(4))], vec![3]),
        block(vec![(10, 20, StatementKind::Assign(4))], vec![]),
        block(vec![(10, 20, StatementKind::Assign(4))], vec![1]),
        block(vec![(10, 20, StatementKind::Assign(4))], vec![2]),
    ]);
    let mut found = |items: [Option<u32>; 4]| {
        for (data, item) in mir.basic_blocks.iter_mut().zip(items) {
            data.statements[0].span.parent = item;
        }
        let dominators = mir.dominators();
        assert!(check_value_spans(&mir, sp(10, 20), &dominators, &nothing()));
        search_mir_by_span(&mir, sp(10, 20), &dominators, &nothing()).map(|(_, l)| l.block)
    };
    assert_eq!(found([None, None, None, None]), Some(1));
    assert_eq!(found([None, Some(4), None, None]), Some(2));
    assert_eq!(found([None, None, None, Some(4)]), Some(3));
    assert_eq!(found([Some(4), None, Some(4), Some(4)]), Some(2));
}

#[test]
fn innermost_value_is_found() {
    let mir = body(vec![
        block(
            vec![
                (10, 20, StatementKind::Assign(4)),
                (10, 20, StatementKind::StorageLive(4)),
                (5, 30, StatementKind::Assign(2)),
            ],
            vec![1],
        ),
        block(vec![(10, 20, StatementKind::Assign(5))], vec![]),
    ]);
    let dominators = mir.dominators();
    assert!(check_value_spans(&mir, sp(10, 20), &dominators, &nothing()));
    assert_eq!(
        search_mir_by_span(&mir, sp(10, 20), &dominators, &nothing()),
        Some((sp(10, 20), at(1, 0)))
    );
    assert_eq!(
        search_mir_by_span(&mir, sp(22, 23), &dominators, &nothing()),
        Some((sp(5, 30), at(0, 2)))
    );
    assert_eq!(search_mir_by_span(&mir, sp(40, 41), &dominators, &nothing()), None);
}

#[test]
fn dominated_value_is_kept_when_visited_first() {
    let mir = body(vec![
        block(vec![], vec![2]),
        block(vec![(10, 20, StatementKind::Assign(5))], vec![]),
        block(vec![(10, 20, StatementKind::Assign(4))], vec![1]),
    ]);
    let dominators = mir.dominators();
    assert_eq!(
        search_mir_by_span(&mir, sp(10, 20), &dominators, &nothing()),
        Some((sp(10, 20), at(1, 0)))
    );
}

#[test]
fn values_that_do_not_narrow_down_are_refused() {
    let mut siblings = branching();
    for b in [1, 2] {
        siblings.basic_blocks[b]
            .statements
            .push(Statement { span: sp(10, 20), kind: StatementKind::Assign(3) });
    }
    let dominators = siblings.dominators();
    assert!(!check_value_spans(&siblings, sp(10, 20), &dominators, &nothing()));
    let mut stranded = branching();
    for b in [0, 4] {
        stranded.basic_blocks[b]
            .statements
            .push(Statement { span: sp(10, 20), kind: StatementKind::Assign(3) });
    }
    let dominators = stranded.dominators();
    assert!(!check_value_spans(&stranded, sp(10, 20), &dominators, &nothing()));
}

// ---- usage ---------------------------------------------------------------------------

#[test]
fn usage_is_listed_once() {
    let mir = used(
        branching(),
        vec![
            (1, READ, at(0, 0)),
            (1, MARK, at(0, 0)),
            (1, WRITE, at(0, 0)),
            (2, WRITE, at(1, 0)),
            (1, DROP, at(3, 0)),
        ],
    );
    assert_eq!(
        find_usage(&mir, 1),
        vec![
            (at(0, 0), Mutability::Not),
            (at(0, 0), Mutability::Mut),
            (at(3, 0), Mutability::Not),
        ]
    );
    assert_eq!(find_usage(&mir, 2), vec![(at(1, 0), Mutability::Mut)]);
    assert_eq!(find_usage(&mir, 3), vec![]);
}

/// 0 -> 1 -> 2, with room for three statements in each block.
fn straight() -> Body {
    let three = || {
        vec![
            (0, 1, StatementKind::Other),
            (0, 1, StatementKind::Other),
            (0, 1, StatementKind::Other),
        ]
    };
    body(vec![block(three(), vec![1]), block(three(), vec![2]), block(three(), vec![])])
}

fn verdict(mir: &Body, start: Location) -> Option<Mutability> {
    let dominators = mir.dominators();
    assert!(check_later_blocks(mir, &dominators, 1, start));
    dominate_all_usage(mir, &dominators, 1, start)
}

#[test]
fn unused_variable_is_governed() {
    let mir = used(straight(), vec![(1, WRITE, at(0, 0)), (1, WRITE, at(1, 1))]);
    assert_eq!(verdict(&mir, at(1, 1)), Some(Mutability::Not));
}

#[test]
fn later_mutation_asks_for_mut() {
    let later = used(straight(), vec![(1, WRITE, at(1, 1)), (1, WRITE, at(2, 0))]);
    assert_eq!(verdict(&later, at(1, 1)), Some(Mutability::Mut));
    let same_block = used(straight(), vec![(1, WRITE, at(1, 1)), (1, WRITE, at(1, 2))]);
    assert_eq!(verdict(&same_block, at(1, 1)), Some(Mutability::Mut));
    let dropped = used(straight(), vec![(1, WRITE, at(1, 1)), (1, DROP, at(2, 0))]);
    assert_eq!(verdict(&dropped, at(1, 1)), Some(Mutability::Not));
}

#[test]
fn loop_usage_is_not_governed() {
    let mut mir = used(straight(), vec![(1, WRITE, at(1, 1)), (1, READ, at(1, 0))]);
    assert_eq!(verdict(&mir, at(1, 1)), Some(Mutability::Not));
    mir.basic_blocks[2].terminator.successors.push(1);
    assert_eq!(verdict(&mir, at(1, 1)), None);
}

#[test]
fn reinitialisation_in_a_loop_does_not_mutate_itself() {
    let mut mir = used(straight(), vec![(1, WRITE, at(1, 1)), (1, READ, at(1, 2))]);
    mir.basic_blocks[2].terminator.successors.push(1);
    assert_eq!(verdict(&mir, at(1, 1)), Some(Mutability::Not));
}

#[test]
fn bypassed_usage_is_not_governed() {
    let mir = used(branching(), vec![(1, WRITE, at(1, 0)), (1, READ, at(3, 0))]);
    assert_eq!(verdict(&mir, at(1, 0)), None);
    assert_eq!(verdict(&mir, at(0, 0)), Some(Mutability::Mut));
}

#[test]
fn unwinding_usage_does_not_count() {
    let mut mir = used(branching(), vec![(1, WRITE, at(1, 0)), (1, WRITE, at(3, 0))]);
    mir.basic_blocks[3].is_cleanup = true;
    assert_eq!(verdict(&mir, at(1, 0)), Some(Mutability::Not));
}

#[test]
fn unwinding_blocks_never_change_the_answer() {
    let with = |extra: Vec<(usize, PlaceContext, Location)>| {
        let mut mir = used(straight(), vec![(1, WRITE, at(0, 1)), (1, READ, at(1, 0))]);
        let mut last = block(vec![(0, 1, StatementKind::Assign(1))], vec![]);
        last.is_cleanup = true;
        mir.basic_blocks.push(last);
        mir.basic_blocks[1].terminator.successors.push(3);
        used(mir, extra)
    };
    for start in [at(0, 1), at(1, 0), at(2, 0)] {
        let plain = verdict(&with(vec![]), start);
        for context in [READ, WRITE, DROP, MARK] {
            assert_eq!(verdict(&with(vec![(1, context, at(3, 0))]), start), plain);
        }
    }
}

#[test]
fn usage_that_cannot_run_is_refused() {
    let mir = used(
        body(vec![block(vec![], vec![]), block(vec![], vec![2]), block(vec![], vec![])]),
        vec![(1, READ, at(2, 0))],
    );
    let dominators = mir.dominators();
    assert!(!check_later_blocks(&mir, &dominators, 1, at(1, 0)));
    assert!(check_later_blocks(&mir, &dominators, 1, at(0, 0)));
    assert!(check_later_blocks(&mir, &dominators, 2, at(1, 0)));
}

// ---- the decision --------------------------------------------------------------------

/// `x = 2` at 10..15, with the write and the computation as given.
fn assignment(write: (u32, u32), value: (u32, u32)) -> Body {
    used(
        body(vec![block(
            vec![(value.0, value.1, StatementKind::Assign(4)), (write.0, write.1, StatementKind::Assign(1))],
            vec![],
        )]),
        vec![(1, WRITE, at(0, 1))],
    )
}

#[test]
fn decision_needs_write_and_value() {
    let decide = |mir: &Body| {
        assert!(check_body(mir, sp(10, 11), sp(14, 15), &nothing()));
        fresh_variable(mir, sp(10, 11), sp(14, 15), &nothing())
    };
    assert_eq!(decide(&assignment((10, 15), (14, 15))), Some(Mutability::Not));
    assert_eq!(decide(&assignment((10, 11), (14, 15))), Some(Mutability::Not));
    assert_eq!(decide(&assignment((10, 11), (20, 21))), None);
    assert_eq!(decide(&assignment((20, 21), (14, 15))), None);
}

#[test]
fn odd_bodies_are_refused() {
    let spans = (sp(10, 11), sp(14, 15));
    let check = |mir: &Body| check_body(mir, spans.0, spans.1, &nothing());
    assert!(!check(&body(vec![])));
    let mut twice = assignment((10, 15), (14, 15));
    twice.basic_blocks[0]
        .statements
        .push(Statement { span: sp(10, 15), kind: StatementKind::Assign(2) });
    assert!(!check(&twice));
    let mut value_last = assignment((10, 15), (20, 21));
    value_last.basic_blocks[0]
        .statements
        .push(Statement { span: sp(14, 15), kind: StatementKind::Assign(4) });
    assert!(!check(&value_last));
}
