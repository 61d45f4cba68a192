//! The lint on small programs, each lowered by hand to the body that it is checked by.

use explicit_reinitialization::hir::{Expr, ExprKind, ItemKind, Node, Parent, Path, PathSegment};
use explicit_reinitialization::hir::{QPath, Res, Stmt, StmtKind};
use explicit_reinitialization::lint::{check_body, Answers, Applicability, ExplicitReinitialization};
use explicit_reinitialization::mir::{BasicBlockData, Body, LocalUse, Location, MutatingUseContext};
use explicit_reinitialization::mir::{PlaceContext, Statement, StatementKind, Terminator};
use explicit_reinitialization::mir::{TerminatorKind, VarDebugInfoContents};
use explicit_reinitialization::span::{Session, Span};

/// The variable of each program.
const X: usize = 1;
/// The expansion context of `println!`.
const PRINTLN: u32 = 3;

const READ: PlaceContext = PlaceContext::NonMutatingUse;
const WRITE: PlaceContext = PlaceContext::MutatingUse(MutatingUseContext::Other);
const DROP: PlaceContext = PlaceContext::MutatingUse(MutatingUseContext::Drop);
const MARK: PlaceContext = PlaceContext::NonUse;

fn sp(lo: u32, hi: u32) -> Span {
    Span { lo, hi, ctxt: 0, parent: None }
}

fn println_span(lo: u32, hi: u32) -> Span {
    Span { lo, hi, ctxt: PRINTLN, parent: None }
}

fn assign(span: Span, local: usize) -> Statement {
    Statement { span, kind: StatementKind::Assign(local) }
}

fn live(span: Span, local: usize) -> Statement {
    Statement { span, kind: StatementKind::StorageLive(local) }
}

fn other(span: Span) -> Statement {
    Statement { span, kind: StatementKind::Other }
}

fn call(span: Span, local: usize, successors: Vec<usize>) -> Terminator {
    Terminator { span, kind: TerminatorKind::Call(local), successors }
}

fn go(span: Span, successors: Vec<usize>) -> Terminator {
    Terminator { span, kind: TerminatorKind::Other, successors }
}

fn bb(statements: Vec<Statement>, terminator: Terminator) -> BasicBlockData {
    BasicBlockData { statements, terminator, is_cleanup: false }
}

fn cleanup(statements: Vec<Statement>, terminator: Terminator) -> BasicBlockData {
    BasicBlockData { statements, terminator, is_cleanup: true }
}

/// A body whose only variable is `X`, used as listed.
fn body(basic_blocks: Vec<BasicBlockData>, uses: Vec<(PlaceContext, usize, usize)>) -> Body {
    let mut local_uses: Vec<LocalUse> = uses
        .into_iter()
        .map(|(context, block, statement_index)| LocalUse {
            local: X,
            context,
            location: Location { block, statement_index },
        })
        .collect();
    local_uses.push(LocalUse {
        local: X,
        context: MARK,
        location: Location { block: 0, statement_index: 0 },
    });
    Body {
        basic_blocks,
        var_debug_info: vec![VarDebugInfoContents::Const, VarDebugInfoContents::Place(X)],
        local_uses,
    }
}

/// The suggestion, if any, for the statement at `lo..hi`, which assigns the value at
/// `right` to the variable at its beginning.
fn lint(mir: Body, text: &str, lo: u32, hi: u32, right: Span) -> Option<String> {
    let name = Expr {
        kind: ExprKind::Path(QPath::Resolved(
            false,
            Path { segments: vec![PathSegment { has_args: false }], res: Res::Local(9) },
        )),
        span: sp(lo, lo + 1),
    };
    let value = Expr { kind: ExprKind::Other, span: right };
    let stmt = Stmt {
        kind: StmtKind::Semi(Expr {
            kind: ExprKind::Assign(Box::new(name), Box::new(value)),
            span: sp(lo, hi - 1),
        }),
        span: sp(lo, hi),
    };
    let parents = vec![
        Parent { node: Node::Other, span: sp(0, 1000) },
        Parent { node: Node::Item(7, ItemKind::Fn), span: sp(0, 1000) },
    ];
    let sess = Session { external_macros: vec![PRINTLN] };
    assert!(check_body(&mir, sp(lo, lo + 1), right, &sess));
    let answers = Answers {
        from_proc_macro: false,
        snippet: Some(text.to_string()),
        unsatisfiable_preds: false,
        optimized_mir: mir,
    };
    let report = ExplicitReinitialization.check_stmt(&stmt, &parents, &sess, &answers)?;
    assert_eq!(report.span, sp(lo, hi));
    assert_eq!(report.message, "create a fresh variable is more explicit");
    assert_eq!(report.help, "create a fresh variable instead of reinitialization");
    assert_eq!(report.applicability, Applicability::MachineApplicable);
    Some(report.suggestion)
}

fn test_copy() -> Option<String> {
    let mir = body(
        vec![
            bb(
                vec![live(sp(4, 9), X), assign(sp(12, 13), X), assign(println_span(20, 33), 4)],
                call(println_span(20, 33), 3, vec![1]),
            ),
            bb(
                vec![assign(sp(40, 45), X), assign(println_span(50, 63), 6)],
                call(println_span(50, 63), 5, vec![2]),
            ),
            bb(vec![other(sp(70, 71))], go(sp(71, 71), vec![])),
        ],
        vec![(MARK, 0, 0), (WRITE, 0, 1), (READ, 0, 2), (WRITE, 1, 0), (READ, 1, 1), (MARK, 2, 0)],
    );
    lint(mir, "x = 2;", 40, 46, sp(44, 45))
}

/// The value is computed first, the old value is dropped, and both ways out of the drop
/// write the new value.
fn test_move() -> Option<String> {
    let mir = body(
        vec![
            bb(vec![live(sp(4, 9), X)], call(sp(12, 25), X, vec![1])),
            bb(vec![assign(println_span(30, 43), 4)], call(println_span(30, 43), 3, vec![2, 7])),
            bb(vec![live(sp(54, 67), 8)], call(sp(54, 67), 8, vec![3, 7])),
            bb(vec![], go(sp(50, 51), vec![4, 6])),
            bb(
                vec![assign(sp(50, 51), X), assign(println_span(70, 83), 6)],
                call(println_span(70, 83), 5, vec![5, 7]),
            ),
            bb(vec![], go(sp(90, 91), vec![8])),
            cleanup(vec![assign(sp(50, 51), X)], go(sp(50, 51), vec![7])),
            cleanup(vec![], go(sp(90, 91), vec![9])),
            bb(vec![other(sp(90, 91))], go(sp(91, 91), vec![])),
            cleanup(vec![], go(sp(0, 91), vec![])),
        ],
        vec![
            (MARK, 0, 0),
            (WRITE, 0, 1),
            (READ, 1, 0),
            (DROP, 3, 0),
            (WRITE, 4, 0),
            (READ, 4, 1),
            (DROP, 5, 0),
            (WRITE, 6, 0),
            (DROP, 7, 0),
            (MARK, 8, 0),
        ],
    );
    lint(mir, "x = String::new();", 50, 68, sp(54, 67))
}

fn should_lint() -> Option<String> {
    let mir = body(
        vec![
            bb(
                vec![live(sp(4, 9), X), assign(sp(12, 13), X), assign(sp(24, 29), 3)],
                go(sp(24, 29), vec![1]),
            ),
            bb(vec![assign(sp(24, 29), 2), assign(sp(24, 33), 4)], go(sp(24, 33), vec![2])),
            bb(vec![assign(sp(20, 33), X), other(sp(40, 41))], go(sp(41, 41), vec![])),
        ],
        vec![
            (MARK, 0, 0),
            (WRITE, 0, 1),
            (READ, 0, 2),
            (READ, 1, 1),
            (WRITE, 2, 0),
            (MARK, 2, 1),
        ],
    );
    lint(mir, "a = a * a * a;", 20, 34, sp(24, 33))
}

/// `foo` borrows the string mutably behind the reinitialisation.
fn should_lint_2() -> Option<String> {
    let mir = body(
        vec![
            bb(vec![live(sp(4, 9), X)], call(sp(12, 25), X, vec![1])),
            bb(vec![assign(sp(34, 35), 5)], call(sp(34, 57), 4, vec![2])),
            bb(vec![], go(sp(30, 31), vec![3, 6])),
            bb(vec![assign(sp(30, 31), X), assign(sp(64, 70), 7)], call(sp(60, 71), 6, vec![4])),
            bb(vec![assign(sp(78, 79), 9)], call(sp(73, 80), 8, vec![5])),
            bb(vec![other(sp(90, 91))], go(sp(91, 91), vec![])),
            cleanup(vec![assign(sp(30, 31), X)], go(sp(30, 31), vec![])),
        ],
        vec![
            (MARK, 0, 0),
            (WRITE, 0, 1),
            (READ, 1, 0),
            (DROP, 2, 0),
            (WRITE, 3, 0),
            (WRITE, 3, 1),
            (READ, 4, 0),
            (MARK, 5, 0),
            (WRITE, 6, 0),
        ],
    );
    lint(mir, "s = s.replacen('o', \"a\", 3);", 30, 58, sp(34, 57))
}

/// As above, inside the branch of a condition.
fn should_lint_3() -> Option<String> {
    let mir = body(
        vec![
            bb(vec![], go(sp(3, 7), vec![1, 6])),
            bb(vec![live(sp(14, 19), X)], call(sp(22, 90), X, vec![2])),
            bb(vec![assign(sp(104, 105), 5)], call(sp(104, 130), 4, vec![3])),
            bb(vec![], go(sp(100, 101), vec![4])),
            bb(vec![assign(sp(100, 101), X), assign(sp(136, 142), 7)], call(sp(132, 143), 6, vec![5])),
            bb(vec![other(sp(150, 151))], go(sp(150, 151), vec![6])),
            bb(vec![], call(println_span(160, 175), 9, vec![7])),
            bb(vec![], go(sp(180, 180), vec![])),
        ],
        vec![
            (MARK, 1, 0),
            (WRITE, 1, 1),
            (READ, 2, 0),
            (DROP, 3, 0),
            (WRITE, 4, 0),
            (WRITE, 4, 1),
            (MARK, 5, 0),
        ],
    );
    lint(mir, "s = s.replacen(&mod_decl, \"a\", 3);", 100, 131, sp(104, 130))
}

/// The next round of the loop prints what the first round printed or what was assigned.
fn should_not_lint_1() -> Option<String> {
    let mir = body(
        vec![
            bb(vec![live(sp(4, 9), X), assign(sp(12, 13), X)], go(sp(15, 80), vec![1])),
            bb(vec![assign(println_span(30, 43), 4)], call(println_span(30, 43), 3, vec![2])),
            bb(vec![assign(sp(50, 55), X)], go(sp(15, 80), vec![1])),
        ],
        vec![(MARK, 0, 0), (WRITE, 0, 1), (READ, 1, 0), (WRITE, 2, 0)],
    );
    lint(mir, "x = 2;", 50, 56, sp(54, 55))
}

fn should_not_lint_2() -> Option<String> {
    let mir = body(
        vec![
            bb(vec![live(sp(4, 9), X)], call(sp(12, 25), X, vec![1])),
            bb(vec![assign(println_span(30, 43), 4)], call(println_span(30, 43), 3, vec![2, 5])),
            bb(vec![], call(sp(54, 67), 8, vec![3, 5])),
            bb(vec![], go(sp(50, 51), vec![4, 6])),
            bb(vec![assign(sp(50, 51), X)], go(sp(15, 80), vec![1])),
            cleanup(vec![], go(sp(0, 81), vec![])),
            cleanup(vec![assign(sp(50, 51), X)], go(sp(50, 51), vec![5])),
        ],
        vec![
            (MARK, 0, 0),
            (WRITE, 0, 1),
            (READ, 1, 0),
            (DROP, 3, 0),
            (WRITE, 4, 0),
            (DROP, 5, 0),
            (WRITE, 6, 0),
        ],
    );
    lint(mir, "x = String::new();", 50, 68, sp(54, 67))
}

/// Both branches reinitialise, and the variable is dropped where they meet again.
fn should_not_lint_3_body() -> Body {
    body(
        vec![
            bb(vec![live(sp(4, 9), X)], call(sp(12, 25), X, vec![1])),
            bb(vec![], go(sp(30, 34), vec![2, 4])),
            bb(vec![], call(sp(44, 57), 8, vec![3])),
            bb(vec![assign(sp(40, 41), X)], go(sp(40, 41), vec![7])),
            bb(vec![assign(sp(84, 85), 5)], call(sp(84, 92), 4, vec![5])),
            bb(vec![], call(sp(84, 103), 9, vec![6])),
            bb(vec![assign(sp(80, 81), X)], go(sp(80, 81), vec![7])),
            bb(vec![assign(sp(115, 116), 10)], call(sp(110, 117), 0, vec![8])),
            bb(vec![other(sp(118, 119))], go(sp(119, 119), vec![])),
        ],
        vec![
            (MARK, 0, 0),
            (WRITE, 0, 1),
            (WRITE, 3, 0),
            (READ, 4, 0),
            (WRITE, 6, 0),
            (READ, 7, 0),
            (MARK, 8, 0),
        ],
    )
}

/// The old value is read before the new one is written, in every round.
fn should_not_lint_4() -> Option<String> {
    let mir = body(
        vec![
            bb(vec![live(sp(4, 9), X), assign(sp(12, 16), X)], go(sp(20, 60), vec![1])),
            bb(
                vec![live(sp(36, 37), 3), assign(sp(36, 37), 3), assign(sp(31, 37), X), other(sp(37, 38))],
                go(sp(20, 60), vec![1]),
            ),
        ],
        vec![(MARK, 0, 0), (WRITE, 0, 1), (READ, 1, 1), (WRITE, 1, 2)],
    );
    lint(mir, "b = !b;", 31, 38, sp(35, 37))
}

/// The loop can be left before the vector was ever reinitialised.
fn should_not_lint_5() -> Option<String> {
    let mir = body(
        vec![
            bb(vec![], call(sp(60, 65), 4, vec![1])),
            bb(vec![assign(sp(60, 65), 6)], call(sp(60, 65), 5, vec![2])),
            bb(vec![], go(sp(60, 65), vec![3, 7])),
            bb(vec![], go(sp(70, 74), vec![4, 6])),
            bb(vec![], call(sp(84, 94), 8, vec![5])),
            bb(vec![assign(sp(80, 81), X)], go(sp(96, 104), vec![1])),
            bb(vec![assign(sp(110, 111), 9)], call(sp(110, 131), 10, vec![1])),
            bb(vec![assign(sp(140, 141), 0)], go(sp(141, 141), vec![])),
        ],
        vec![(WRITE, 5, 0), (WRITE, 6, 0), (READ, 7, 0)],
    );
    lint(mir, "v = Vec::new();", 80, 95, sp(84, 94))
}

/// The lint looks at the body, where the inner block of the source has left no trace.
fn known_false_negative() -> Option<String> {
    let mir = body(
        vec![
            bb(
                vec![live(sp(4, 9), X), assign(sp(12, 13), X), assign(println_span(20, 33), 4)],
                call(println_span(20, 33), 3, vec![1]),
            ),
            bb(
                vec![assign(sp(48, 53), X), assign(sp(40, 60), 7), assign(println_span(62, 75), 6)],
                call(println_span(62, 75), 5, vec![2]),
            ),
            bb(vec![other(sp(80, 81))], go(sp(81, 81), vec![])),
        ],
        vec![(MARK, 0, 0), (WRITE, 0, 1), (READ, 0, 2), (WRITE, 1, 0), (READ, 1, 2), (MARK, 2, 0)],
    );
    lint(mir, "x = 2;", 48, 54, sp(52, 53))
}

/// Each branch reinitialises and uses the variable, and nothing uses it later.
/// The body is lowered without storage markers, as it is where no optimisation is asked
/// for: the marker that ends the storage of the variable would be a later usage, in the block
/// where the branches meet.
fn false_positive_body() -> Body {
    body(
        vec![
            bb(
                vec![assign(sp(12, 13), X), assign(println_span(20, 33), 4)],
                call(println_span(20, 33), 3, vec![1]),
            ),
            bb(vec![], go(sp(40, 44), vec![2, 4])),
            bb(
                vec![assign(sp(50, 55), X), assign(println_span(60, 73), 6)],
                call(println_span(60, 73), 5, vec![3]),
            ),
            bb(vec![], go(sp(40, 120), vec![6])),
            bb(
                vec![assign(sp(90, 95), X), assign(println_span(100, 113), 8)],
                call(println_span(100, 113), 7, vec![5]),
            ),
            bb(vec![], go(sp(40, 120), vec![6])),
            bb(vec![], go(sp(122, 122), vec![])),
        ],
        vec![
            (WRITE, 0, 0),
            (READ, 0, 1),
            (WRITE, 2, 0),
            (READ, 2, 1),
            (WRITE, 4, 0),
            (READ, 4, 1),
        ],
    )
}

#[test]
fn ui() {
    assert_eq!(test_copy(), Some("let x = 2;".to_string()));
    assert_eq!(test_move(), Some("let x = String::new();".to_string()));
    assert_eq!(should_lint(), Some("let a = a * a * a;".to_string()));
    assert_eq!(should_lint_2(), Some("let mut s = s.replacen('o', \"a\", 3);".to_string()));
    assert_eq!(should_lint_3(), Some("let mut s = s.replacen(&mod_decl, \"a\", 3);".to_string()));
    assert_eq!(should_not_lint_1(), None);
    assert_eq!(should_not_lint_2(), None);
    assert_eq!(
        lint(should_not_lint_3_body(), "x = String::new();", 40, 58, sp(44, 57)),
        None
    );
    assert_eq!(
        lint(should_not_lint_3_body(), "x = x.trim().to_owned();", 80, 104, sp(84, 103)),
        None
    );
    assert_eq!(should_not_lint_4(), None);
    assert_eq!(should_not_lint_5(), None);
    assert_eq!(known_false_negative(), Some("let x = 2;".to_string()));
    assert_eq!(
        lint(false_positive_body(), "x = 2;", 50, 56, sp(54, 55)),
        Some("let x = 2;".to_string())
    );
    assert_eq!(
        lint(false_positive_body(), "x = 3;", 90, 96, sp(94, 95)),
        Some("let x = 3;".to_string())
    );
}
