//! From a statement to its report.

use explicit_reinitialization::hir::{associated_fn, Expr, ExprKind, ImplItemKind, ItemKind, Node};
use explicit_reinitialization::hir::{Parent, Path, PathSegment, QPath, Res, Stmt, StmtKind};
use explicit_reinitialization::hir::TraitItemKind;
use explicit_reinitialization::lint::{find_reinitialization, Answers, Diagnostic};
use explicit_reinitialization::lint::{ExplicitReinitialization, Reinitialization};
use explicit_reinitialization::mir::{BasicBlockData, Body, LocalUse, Location, MutatingUseContext};
use explicit_reinitialization::mir::{Mutability, PlaceContext, Statement, StatementKind};
use explicit_reinitialization::mir::{Terminator, TerminatorKind, VarDebugInfoContents};
use explicit_reinitialization::span::{Session, Span};

fn sp(lo: u32, hi: u32) -> Span {
    Span { lo, hi, ctxt: 0, parent: None }
}

fn name(qualified: bool, args: Vec<bool>, res: Res) -> ExprKind {
    let segments = args.into_iter().map(|has_args| PathSegment { has_args }).collect();
    ExprKind::Path(QPath::Resolved(qualified, Path { segments, res }))
}

fn plain_name() -> ExprKind {
    name(false, vec![false], Res::Local(3))
}

/// `left = 2;` at 10..16.
fn stmt(left: ExprKind) -> Stmt {
    Stmt {
        kind: StmtKind::Semi(Expr {
            kind: ExprKind::Assign(
                Box::new(Expr { kind: left, span: sp(10, 11) }),
                Box::new(Expr { kind: ExprKind::Other, span: sp(14, 15) }),
            ),
            span: sp(10, 15),
        }),
        span: sp(10, 16),
    }
}

fn inside(nodes: Vec<Node>) -> Vec<Parent> {
    nodes.into_iter().map(|node| Parent { node, span: sp(0, 100) }).collect()
}

fn in_fn() -> Vec<Parent> {
    inside(vec![Node::Other, Node::Item(7, ItemKind::Fn)])
}

fn nothing() -> Session {
    Session { external_macros: vec![] }
}

fn answers() -> Answers {
    let assign = |lo, hi, local| Statement { span: sp(lo, hi), kind: StatementKind::Assign(local) };
    Answers {
        from_proc_macro: false,
        snippet: Some("x = 2;".to_string()),
        unsatisfiable_preds: false,
        optimized_mir: Body {
            basic_blocks: vec![BasicBlockData {
                statements: vec![assign(4, 5, 1), assign(10, 15, 1)],
                terminator: Terminator {
                    span: sp(99, 100),
                    kind: TerminatorKind::Other,
                    successors: vec![],
                },
                is_cleanup: false,
            }],
            var_debug_info: vec![VarDebugInfoContents::Place(1)],
            local_uses: vec![LocalUse {
                local: 1,
                context: PlaceContext::MutatingUse(MutatingUseContext::Other),
                location: Location { block: 0, statement_index: 1 },
            }],
        },
    }
}

fn check(stmt: &Stmt, parents: &Vec<Parent>, sess: &Session, answers: &Answers) -> Option<Diagnostic> {
    ExplicitReinitialization.check_stmt(stmt, parents, sess, answers)
}

#[test]
fn plain_assignments_are_recognised() {
    assert_eq!(stmt(plain_name()).assignment(), Some((sp(10, 11), sp(14, 15))));
    assert_eq!(stmt(name(true, vec![false], Res::Local(3))).assignment(), None);
    assert_eq!(stmt(name(false, vec![true], Res::Local(3))).assignment(), None);
    assert_eq!(stmt(name(false, vec![false, false], Res::Local(3))).assignment(), None);
    assert_eq!(stmt(name(false, vec![], Res::Local(3))).assignment(), None);
    assert_eq!(stmt(name(false, vec![false], Res::Other)).assignment(), None);
    assert_eq!(stmt(ExprKind::Path(QPath::Other)).assignment(), None);
    assert_eq!(stmt(ExprKind::Other).assignment(), None);
    let bare = Expr { kind: plain_name(), span: sp(10, 11) };
    assert_eq!(Stmt { kind: StmtKind::Semi(bare), span: sp(10, 12) }.assignment(), None);
    assert_eq!(Stmt { kind: StmtKind::Other, span: sp(10, 12) }.assignment(), None);
}

#[test]
fn expanded_statements_are_passed_over() {
    let found = Reinitialization { span: sp(10, 16), left_span: sp(10, 11), right_span: sp(14, 15) };
    assert_eq!(find_reinitialization(&stmt(plain_name()), &in_fn(), &nothing()), Some(found));
    let mut expanded = stmt(plain_name());
    expanded.span.ctxt = 2;
    assert_eq!(find_reinitialization(&expanded, &in_fn(), &nothing()), None);
    let mut around = in_fn();
    around[1].span.ctxt = 2;
    assert_eq!(find_reinitialization(&stmt(plain_name()), &around, &nothing()), None);
    let external = Session { external_macros: vec![0] };
    assert_eq!(find_reinitialization(&stmt(plain_name()), &in_fn(), &external), None);
}

#[test]
fn owners_are_found() {
    let owner = |nodes| associated_fn(&inside(nodes));
    assert_eq!(owner(vec![]), None);
    assert_eq!(owner(vec![Node::Other, Node::Item(7, ItemKind::Fn)]), Some(7));
    assert_eq!(owner(vec![Node::Item(5, ItemKind::Other), Node::Item(7, ItemKind::Fn)]), Some(7));
    assert_eq!(owner(vec![Node::TraitItem(4, TraitItemKind::Const(true))]), Some(4));
    assert_eq!(owner(vec![Node::TraitItem(4, TraitItemKind::Const(false))]), None);
    assert_eq!(owner(vec![Node::TraitItem(4, TraitItemKind::Fn(true))]), Some(4));
    assert_eq!(owner(vec![Node::TraitItem(4, TraitItemKind::Fn(false))]), None);
    assert_eq!(owner(vec![Node::TraitItem(4, TraitItemKind::Type)]), None);
    assert_eq!(owner(vec![Node::ImplItem(4, ImplItemKind::Const)]), Some(4));
    assert_eq!(owner(vec![Node::ImplItem(4, ImplItemKind::Fn)]), Some(4));
    assert_eq!(owner(vec![Node::ImplItem(4, ImplItemKind::Type), Node::Other]), None);
}

#[test]
fn closures_hide_the_owner() {
    let owner = |nodes| associated_fn(&inside(nodes));
    assert_eq!(owner(vec![Node::Other, Node::Closure, Node::Item(7, ItemKind::Fn)]), None);
    assert_eq!(owner(vec![Node::Item(7, ItemKind::Fn), Node::Closure]), Some(7));
    assert_eq!(owner(vec![Node::Item(3, ItemKind::Impl), Node::Item(7, ItemKind::Fn)]), None);
}

#[test]
fn outer_nodes_do_not_change_the_owner() {
    let mut nodes = vec![Node::Other, Node::Item(7, ItemKind::Fn)];
    for outer in [Node::Closure, Node::Item(8, ItemKind::Fn), Node::Item(9, ItemKind::Impl)] {
        nodes.push(outer);
        assert_eq!(associated_fn(&inside(nodes.clone())), Some(7));
    }
}

#[test]
fn located_with_text_and_owner() {
    let found = Reinitialization { span: sp(10, 16), left_span: sp(10, 11), right_span: sp(14, 15) };
    let text = || Some("x = 2;".to_string());
    let located = found.locate(false, text(), &in_fn()).unwrap();
    assert_eq!(located.reinitialization, found);
    assert_eq!(located.snippet, "x = 2;");
    assert_eq!(located.def_id, 7);
    assert!(found.locate(true, text(), &in_fn()).is_none());
    assert!(found.locate(false, None, &in_fn()).is_none());
    assert!(found.locate(false, text(), &inside(vec![Node::Closure])).is_none());
    let again = || found.locate(false, text(), &in_fn()).unwrap();
    assert!(again().check_preds(true).is_none());
    assert_eq!(again().check_preds(false).unwrap().located.def_id, 7);
}

#[test]
fn statement_is_reported() {
    let report = check(&stmt(plain_name()), &in_fn(), &nothing(), &answers()).unwrap();
    assert_eq!(report.suggestion, "let x = 2;");
    assert_eq!(report.span, sp(10, 16));
}

#[test]
fn mutated_variable_is_reported_with_mut() {
    let mut mutated = answers();
    mutated.optimized_mir.local_uses.push(LocalUse {
        local: 1,
        context: PlaceContext::MutatingUse(MutatingUseContext::Other),
        location: Location { block: 0, statement_index: 2 },
    });
    let report = check(&stmt(plain_name()), &in_fn(), &nothing(), &mutated).unwrap();
    assert_eq!(report.suggestion, "let mut x = 2;");
}

#[test]
fn refused_statements_are_not_reported() {
    let s = stmt(plain_name());
    assert!(check(&stmt(ExprKind::Other), &in_fn(), &nothing(), &answers()).is_none());
    assert!(check(&s, &inside(vec![Node::Closure]), &nothing(), &answers()).is_none());
    assert!(check(&s, &in_fn(), &Session { external_macros: vec![0] }, &answers()).is_none());
    let generated = Answers { from_proc_macro: true, ..answers() };
    assert!(check(&s, &in_fn(), &nothing(), &generated).is_none());
    let unreadable = Answers { snippet: None, ..answers() };
    assert!(check(&s, &in_fn(), &nothing(), &unreadable).is_none());
    let impossible = Answers { unsatisfiable_preds: true, ..answers() };
    assert!(check(&s, &in_fn(), &nothing(), &impossible).is_none());
}

#[test]
fn prefixes() {
    assert_eq!(Mutability::Mut.prefix_str(), "mut ");
    assert_eq!(Mutability::Not.prefix_str(), "");
}
