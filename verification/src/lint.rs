//! The lint: from a statement to the fresh variable that should take its place.

use vstd::prelude::*;
use vstd::string::*;
use crate::execution::{always_after, comes_to};
use crate::execution::{law_governing_means_every_run, law_mutation_means_a_run};
use crate::graph::{enterable, leads, location_dominates, may_follow};
use crate::hir::{LocalDefId, Parent, Stmt, associated_fn, owner_of};
use crate::mir::{BasicBlock, Body, Local, Location, MutatingUseContext, Mutability};
use crate::mir::{PlaceContext, START_BLOCK};
use crate::search::{check_local_spans, check_value_spans, search_local, search_mir_by_span};
use crate::search::{innermost_value, innermost_write, local_spans_nest, value_spans_nest};
use crate::search::{law_innermost_value_unique, law_innermost_write_unique};
use crate::search::{law_nested_values_narrow_down, law_nested_writes_narrow_down};
use crate::search::{computes_value, writes_variable};
use crate::span::{ROOT_CONTEXT, Session, Span, expanded, in_external_macro};
use crate::usage::{check_later_blocks, dominate_all_usage};
use crate::usage::{governs_all_usage, is_usage, later_blocks_run, mutated_later, usage_verdict};
use crate::usage::{law_bypassed_mention_rules_out, law_verdict_by_mentions};

verus! {

// ---- the decision ------------------------------------------------------------------

/// The write at `l` reinitialises the variable at `left_span` with the value at
/// `right_span`, and governs all later usage of the variable.
pub open spec fn replaceable_at(
    mir: &Body,
    left_span: Span,
    right_span: Span,
    sess: &Session,
    l: Location,
) -> bool {
    &&& innermost_write(mir, left_span, sess, l)
    &&& exists|s: Location| innermost_value(mir, right_span, sess, s)
    &&& governs_all_usage(mir, mir.target_at(l)->0, l)
}

/// Whether a fresh variable can take the place of the assignment, and whether it has to be
/// mutable.
pub open spec fn replacement(
    mir: &Body,
    left_span: Span,
    right_span: Span,
    sess: &Session,
) -> Option<Mutability> {
    if exists|l: Location| replaceable_at(mir, left_span, right_span, sess, l) {
        let l = choose|l: Location| replaceable_at(mir, left_span, right_span, sess, l);
        if mutated_later(mir, mir.target_at(l)->0, l) {
            Some(Mutability::Mut)
        } else {
            Some(Mutability::Not)
        }
    } else {
        None
    }
}

/// The body holds the assignment in the form that assignments are lowered to: what was
/// written around the variable and around the value narrows down to one write and one
/// computation, the computation dominates the write, and later usage can run.
pub open spec fn analyzable(
    mir: &Body,
    left_span: Span,
    right_span: Span,
    sess: &Session,
) -> bool {
    &&& mir.well_formed()
    &&& local_spans_nest(mir, left_span, sess)
    &&& forall|l: Location| #[trigger]
        innermost_write(mir, left_span, sess, l) ==> {
            &&& value_spans_nest(mir, right_span, sess)
            &&& forall|s: Location| #[trigger]
                innermost_value(mir, right_span, sess, s) ==> location_dominates(
                    mir.cfg(),
                    s,
                    l,
                ) && later_blocks_run(mir, mir.target_at(l)->0, l)
        }
}

/// Tells whether the body holds the assignment in the form that assignments are lowered to.
pub fn check_body(mir: &Body, left_span: Span, right_span: Span, sess: &Session) -> (r: bool)
    ensures
        r == analyzable(mir, left_span, right_span, sess),
{
    if !mir.is_well_formed() || !check_local_spans(mir, left_span, sess) {
        return false;
    }
    match search_local(mir, left_span, sess) {
        None => {
            assert forall|l: Location| !#[trigger] innermost_write(mir, left_span, sess, l) by {
                assert(!writes_variable(mir, left_span, sess, l));
            }
            true
        },
        Some((_, local, location)) => {
            assert forall|l: Location| #[trigger]
                innermost_write(mir, left_span, sess, l) implies l == location by {
                law_innermost_write_unique(mir, left_span, sess, l, location);
            }
            let dominators = mir.dominators();
            if !check_value_spans(mir, right_span, &dominators, sess) {
                return false;
            }
            match search_mir_by_span(mir, right_span, &dominators, sess) {
                None => {
                    assert forall|s: Location| !#[trigger]
                        innermost_value(mir, right_span, sess, s) by {
                        assert(!computes_value(mir, right_span, sess, s));
                    }
                    true
                },
                Some((_, start)) => {
                    assert forall|s: Location| #[trigger]
                        innermost_value(mir, right_span, sess, s) implies s == start by {
                        law_innermost_value_unique(mir, right_span, sess, s, start);
                    }
                    if start.block != location.block && !dominators.is_reachable(location.block) {
                        return false;
                    }
                    start.dominates(location, &dominators) && check_later_blocks(
                        mir,
                        &dominators,
                        local,
                        location,
                    )
                },
            }
        },
    }
}

/// Decides whether a fresh variable can take the place of the assignment of the value at
/// `right_span` to the variable at `left_span`, and whether it has to be mutable.
pub fn fresh_variable(
    mir: &Body,
    left_span: Span,
    right_span: Span,
    sess: &Session,
) -> (r: Option<Mutability>)
    requires
        analyzable(mir, left_span, right_span, sess),
    ensures
        r == replacement(mir, left_span, right_span, sess),
{
    match search_local(mir, left_span, sess) {
        None => {
            assert forall|l: Location| !replaceable_at(mir, left_span, right_span, sess, l) by {
                assert(!writes_variable(mir, left_span, sess, l));
            }
            None
        },
        Some((_, local, location)) => {
            assert forall|l: Location|
                replaceable_at(mir, left_span, right_span, sess, l) implies l == location by {
                law_innermost_write_unique(mir, left_span, sess, l, location);
            }
            let dominators = mir.dominators();
            match search_mir_by_span(mir, right_span, &dominators, sess) {
                None => {
                    assert forall|s: Location| !innermost_value(mir, right_span, sess, s) by {
                        assert(!computes_value(mir, right_span, sess, s));
                    }
                    None
                },
                Some((_, start)) => {
                    assert(innermost_value(mir, right_span, sess, start));
                    let r = dominate_all_usage(mir, &dominators, local, location);
                    assert(r is Some <==> replaceable_at(
                        mir,
                        left_span,
                        right_span,
                        sess,
                        location,
                    ));
                    r
                },
            }
        },
    }
}

/// A fresh variable takes the place of a reinitialisation that can run exactly when every
/// run that comes to a usage, of those that can run after the reinitialisation and outside
/// of unwinding, has gone through the reinitialisation.
pub proof fn law_replacement_means_every_run(
    mir: &Body,
    left_span: Span,
    right_span: Span,
    sess: &Session,
    l: Location,
    s: Location,
)
    requires
        mir.well_formed(),
        innermost_write(mir, left_span, sess, l),
        innermost_value(mir, right_span, sess, s),
        enterable(mir.cfg(), l.block),
    ensures
        replacement(mir, left_span, right_span, sess) is Some <==> forall|
            u: (Location, Mutability),
        |
            #[trigger] is_usage(mir, mir.target_at(l)->0, u) && !mir.unwinds(u.0) && comes_to(
                mir,
                l,
                u.0,
            ) ==> always_after(mir, l, u.0),
{
    law_governing_means_every_run(mir, mir.target_at(l)->0, l);
    assert(replaceable_at(mir, left_span, right_span, sess, l) <==> governs_all_usage(
        mir,
        mir.target_at(l)->0,
        l,
    ));
    assert forall|k: Location| replaceable_at(mir, left_span, right_span, sess, k) implies k == l by {
        law_innermost_write_unique(mir, left_span, sess, k, l);
    }
}

/// The fresh variable is declared without `mut` exactly when no run goes on from the
/// reinitialisation and comes, outside of unwinding, to another location that mutates the
/// variable.
pub proof fn law_mut_means_a_later_mutation(
    mir: &Body,
    left_span: Span,
    right_span: Span,
    sess: &Session,
    l: Location,
)
    requires
        mir.well_formed(),
        replaceable_at(mir, left_span, right_span, sess, l),
    ensures
        replacement(mir, left_span, right_span, sess) == Some(Mutability::Not) <==> !exists|
            u: (Location, Mutability),
        |
            #[trigger] is_usage(mir, mir.target_at(l)->0, u) && !mir.unwinds(u.0) && comes_to(
                mir,
                l,
                u.0,
            ) && u.0 != l && u.1 == Mutability::Mut,
{
    law_mutation_means_a_run(mir, mir.target_at(l)->0, l);
    assert forall|k: Location| replaceable_at(mir, left_span, right_span, sess, k) implies k == l by {
        law_innermost_write_unique(mir, left_span, sess, k, l);
    }
}

// ---- the report --------------------------------------------------------------------

impl Mutability {
    /// What `let` needs in front of the name of the variable.
    pub open spec fn prefix(self) -> Seq<char> {
        match self {
            Mutability::Mut => "mut "@,
            Mutability::Not => ""@,
        }
    }

    /// What `let` needs in front of the name of the variable.
    pub fn prefix_str(self) -> (r: &'static str)
        ensures
            r@ == self.prefix(),
    {
        match self {
            Mutability::Mut => "mut ",
            Mutability::Not => "",
        }
    }
}

/// Whether a suggestion can be applied without a second look.
#[derive(Clone, Copy, Debug, PartialEq, Eq, Structural)]
pub enum Applicability {
    MachineApplicable,
    MaybeIncorrect,
    HasPlaceholders,
    Unspecified,
}

/// What is reported of a statement.
#[derive(Debug)]
pub struct Diagnostic {
    pub span: Span,
    pub message: &'static str,
    pub help: &'static str,
    /// The text that should take the place of what is at `span`.
    pub suggestion: String,
    pub applicability: Applicability,
}

impl Diagnostic {
    /// The report that the statement at `span`, with the text `snippet`, should declare a
    /// fresh variable.
    pub open spec fn reports(self, span: Span, mutability: Mutability, snippet: Seq<char>) -> bool {
        &&& self.span == span
        &&& self.message@ == "create a fresh variable is more explicit"@
        &&& self.help@ == "create a fresh variable instead of reinitialization"@
        &&& self.suggestion@ == "let "@ + mutability.prefix() + snippet
        &&& self.applicability == Applicability::MachineApplicable
    }

    fn new(span: Span, mutability: Mutability, snippet: &String) -> (r: Diagnostic)
        ensures
            r.reports(span, mutability, snippet@),
    {
        let mut suggestion = "let ".to_owned();
        suggestion.append(mutability.prefix_str());
        suggestion.append(snippet.as_str());
        Diagnostic {
            span,
            message: "create a fresh variable is more explicit",
            help: "create a fresh variable instead of reinitialization",
            suggestion,
            applicability: Applicability::MachineApplicable,
        }
    }
}

// ---- from statement to report, one question to the compiler at a time --------------

/// `x = value;` for a local variable `x`, written by hand.
#[derive(Clone, Copy, Debug, PartialEq, Eq, Structural)]
pub struct Reinitialization {
    pub span: Span,
    pub left_span: Span,
    pub right_span: Span,
}

/// A reinitialisation with its text and the function that it belongs to.
#[derive(Debug)]
pub struct Located {
    pub reinitialization: Reinitialization,
    pub snippet: String,
    pub def_id: LocalDefId,
}

/// A located reinitialisation whose function has a body to look at.
#[derive(Debug)]
pub struct Lowered {
    pub located: Located,
}

/// Neither the statement nor anything around it comes out of an expansion.
pub open spec fn hand_written(stmt: &Stmt, parents: Seq<Parent>, sess: &Session) -> bool {
    &&& !expanded(sess, stmt.span)
    &&& forall|i: int| 0 <= i < parents.len() ==> !expanded(sess, (#[trigger] parents[i]).span)
}

/// Recognises `x = value;` for a local variable `x`, unless the statement or anything
/// around it comes out of an expansion.
pub fn find_reinitialization(stmt: &Stmt, parents: &Vec<Parent>, sess: &Session) -> (r: Option<
    Reinitialization,
>)
    ensures
        r is Some <==> hand_written(stmt, parents@, sess) && stmt.assigned_spans() is Some,
        r matches Some(f) ==> f.span == stmt.span && stmt.assigned_spans() == Some(
            (f.left_span, f.right_span),
        ),
        r is Some ==> stmt.span.ctxt == ROOT_CONTEXT && forall|i: int|
            0 <= i < parents@.len() ==> (#[trigger] parents@[i]).span.ctxt == ROOT_CONTEXT,
        r is Some ==> !sess.external_macros@.contains(ROOT_CONTEXT),
        r is None && stmt.assigned_spans() is Some ==> stmt.span.ctxt != ROOT_CONTEXT
            || sess.external_macros@.contains(ROOT_CONTEXT) || exists|i: int|
            0 <= i < parents@.len() && (#[trigger] parents@[i]).span.ctxt != ROOT_CONTEXT,
{
    if stmt.span.from_expansion() || in_external_macro(sess, stmt.span) {
        return None;
    }
    let mut i: usize = 0;
    while i < parents.len()
        invariant
            i <= parents@.len(),
            !expanded(sess, stmt.span),
            forall|j: int| 0 <= j < i ==> !expanded(sess, (#[trigger] parents@[j]).span),
        decreases parents.len() - i,
    {
        let span = parents[i].span;
        if span.from_expansion() || in_external_macro(sess, span) {
            assert(expanded(sess, parents@[i as int].span));
            return None;
        }
        i += 1;
    }
    match stmt.assignment() {
        Some((left_span, right_span)) => Some(
            Reinitialization { span: stmt.span, left_span, right_span },
        ),
        None => None,
    }
}

impl Reinitialization {
    /// Goes on once it is known whether a procedural macro wrote the assignment, and what
    /// the text of the statement is.
    pub fn locate(
        self,
        from_proc_macro: bool,
        snippet: Option<String>,
        parents: &Vec<Parent>,
    ) -> (r: Option<Located>)
        ensures
            r is Some <==> !from_proc_macro && snippet is Some && owner_of(parents@) is Some,
            r matches Some(f) ==> f.reinitialization == self && Some(f.snippet) == snippet && Some(
                f.def_id,
            ) == owner_of(parents@),
    {
        if from_proc_macro {
            return None;
        }
        match snippet {
            Some(snippet) => match associated_fn(parents) {
                Some(def_id) => Some(Located { reinitialization: self, snippet, def_id }),
                None => None,
            },
            None => None,
        }
    }
}

impl Located {
    /// Goes on once it is known whether the bounds of the function can be met at all. Where
    /// they cannot, there is no body to look at.
    pub fn check_preds(self, unsatisfiable_preds: bool) -> (r: Option<Lowered>)
        ensures
            r is Some <==> !unsatisfiable_preds,
            r matches Some(f) ==> f.located == self,
    {
        if unsatisfiable_preds {
            None
        } else {
            Some(Lowered { located: self })
        }
    }
}

impl Lowered {
    /// Goes on once the body of the function is known.
    pub fn diagnose(&self, mir: &Body, sess: &Session) -> (r: Option<Diagnostic>)
        requires
            analyzable(
                mir,
                self.located.reinitialization.left_span,
                self.located.reinitialization.right_span,
                sess,
            ),
        ensures
            r is Some <==> replacement(
                mir,
                self.located.reinitialization.left_span,
                self.located.reinitialization.right_span,
                sess,
            ) is Some,
            r matches Some(d) ==> d.reports(
                self.located.reinitialization.span,
                replacement(
                    mir,
                    self.located.reinitialization.left_span,
                    self.located.reinitialization.right_span,
                    sess,
                )->0,
                self.located.snippet@,
            ),
    {
        let found = self.located.reinitialization;
        match fresh_variable(mir, found.left_span, found.right_span, sess) {
            Some(mutability) => Some(Diagnostic::new(found.span, mutability, &self.located.snippet)),
            None => None,
        }
    }
}

/// What the compiler says of a statement and of the function that it belongs to.
#[derive(Debug)]
pub struct Answers {
    pub from_proc_macro: bool,
    pub snippet: Option<String>,
    pub unsatisfiable_preds: bool,
    pub optimized_mir: Body,
}

/// The statement is an assignment whose function has a body to look at.
pub open spec fn looks_at_body(
    stmt: &Stmt,
    parents: Seq<Parent>,
    sess: &Session,
    answers: &Answers,
) -> bool {
    &&& hand_written(stmt, parents, sess)
    &&& stmt.assigned_spans() is Some
    &&& !answers.from_proc_macro
    &&& answers.snippet is Some
    &&& owner_of(parents) is Some
    &&& !answers.unsatisfiable_preds
}

/// The lint pass.
#[derive(Clone, Copy, Debug)]
pub struct ExplicitReinitialization;

impl ExplicitReinitialization {
    /// Checks one statement, given what it is nested in from the inside out and what the
    /// compiler says of it.
    pub fn check_stmt(
        &self,
        stmt: &Stmt,
        parents: &Vec<Parent>,
        sess: &Session,
        answers: &Answers,
    ) -> (r: Option<Diagnostic>)
        requires
            looks_at_body(stmt, parents@, sess, answers) ==> analyzable(
                &answers.optimized_mir,
                stmt.left_span(),
                stmt.right_span(),
                sess,
            ),
        ensures
            r is Some <==> looks_at_body(stmt, parents@, sess, answers) && replacement(
                &answers.optimized_mir,
                stmt.left_span(),
                stmt.right_span(),
                sess,
            ) is Some,
            r matches Some(d) ==> d.reports(
                stmt.span,
                replacement(
                    &answers.optimized_mir,
                    stmt.left_span(),
                    stmt.right_span(),
                    sess,
                )->0,
                answers.snippet->0@,
            ),
    {
        let found = match find_reinitialization(stmt, parents, sess) {
            Some(found) => found,
            None => {
                return None;
            },
        };
        let snippet = match &answers.snippet {
            Some(snippet) => Some(snippet.clone()),
            None => None,
        };
        let located = match found.locate(answers.from_proc_macro, snippet, parents) {
            Some(located) => located,
            None => {
                return None;
            },
        };
        match located.check_preds(answers.unsatisfiable_preds) {
            Some(lowered) => lowered.diagnose(&answers.optimized_mir, sess),
            None => None,
        }
    }
}

// ---- what decides, and what does not ----------------------------------------------------

/// A fresh variable takes the place of an assignment exactly when the verdict on the usage of
/// the variable that is written is in favour, given that the write and the value were found.
pub proof fn law_verdict_decides(
    mir: &Body,
    left_span: Span,
    right_span: Span,
    sess: &Session,
    l: Location,
    s: Location,
    local: Local,
)
    requires
        innermost_write(mir, left_span, sess, l),
        innermost_value(mir, right_span, sess, s),
        mir.target_at(l) == Some(local),
    ensures
        replacement(mir, left_span, right_span, sess) == usage_verdict(mir, local, l),
{
    assert(replaceable_at(mir, left_span, right_span, sess, l) <==> governs_all_usage(
        mir,
        local,
        l,
    ));
    assert forall|k: Location| replaceable_at(mir, left_span, right_span, sess, k) implies k == l by {
        law_innermost_write_unique(mir, left_span, sess, k, l);
    }
}

/// Where nothing around the variable writes one, or nothing around the value computes one,
/// no fresh variable takes the place of the assignment.
pub proof fn law_nothing_found_nothing_replaced(
    mir: &Body,
    left_span: Span,
    right_span: Span,
    sess: &Session,
)
    requires
        (forall|l: Location| !#[trigger] writes_variable(mir, left_span, sess, l)) || (forall|
            s: Location,
        | !#[trigger] computes_value(mir, right_span, sess, s)),
    ensures
        replacement(mir, left_span, right_span, sess) is None,
{
    if exists|l: Location| replaceable_at(mir, left_span, right_span, sess, l) {
        let l = choose|l: Location| replaceable_at(mir, left_span, right_span, sess, l);
        assert(writes_variable(mir, left_span, sess, l));
        let s = choose|s: Location| innermost_value(mir, right_span, sess, s);
        assert(computes_value(mir, right_span, sess, s));
    }
}

/// A fresh variable takes the place of the write at `l` exactly when the write dominates each
/// mention of the variable that lies outside of unwinding and that control may come to
/// afterwards. It has to be mutable exactly when one of these, other than at the write itself,
/// mutates the variable other than by a drop.
pub proof fn law_replacement_by_mentions(
    mir: &Body,
    left_span: Span,
    right_span: Span,
    sess: &Session,
    l: Location,
    s: Location,
    local: Local,
)
    requires
        innermost_write(mir, left_span, sess, l),
        innermost_value(mir, right_span, sess, s),
        mir.target_at(l) == Some(local),
    ensures
        replacement(mir, left_span, right_span, sess) is Some <==> forall|i: int|
            0 <= i < mir.local_uses@.len() && (#[trigger] mir.local_uses@[i]).local == local
                && !mir.basic_blocks@[mir.local_uses@[i].location.block as int].is_cleanup && (
            may_follow(mir.cfg(), l.block, mir.local_uses@[i].location.block)
                || mir.local_uses@[i].location.block == l.block
                && mir.local_uses@[i].location.statement_index > l.statement_index)
                ==> location_dominates(mir.cfg(), l, mir.local_uses@[i].location),
        replacement(mir, left_span, right_span, sess) == Some(Mutability::Mut) <==> replacement(
            mir,
            left_span,
            right_span,
            sess,
        ) is Some && exists|i: int|
            0 <= i < mir.local_uses@.len() && (#[trigger] mir.local_uses@[i]).local == local
                && !mir.basic_blocks@[mir.local_uses@[i].location.block as int].is_cleanup && (
            may_follow(mir.cfg(), l.block, mir.local_uses@[i].location.block)
                || mir.local_uses@[i].location.block == l.block
                && mir.local_uses@[i].location.statement_index > l.statement_index)
                && mir.local_uses@[i].location != l && mir.local_uses@[i].context
                == PlaceContext::MutatingUse(MutatingUseContext::Other),
{
    law_verdict_decides(mir, left_span, right_span, sess, l, s, local);
    law_verdict_by_mentions(mir, local, l);
}

/// A variable that is mentioned outside of unwinding where control may come to after the write,
/// and also comes to past it, is not replaced: whatever mentions it there, the arguments and
/// the destination of a call among them.
pub proof fn law_bypassed_mention_is_not_replaced(
    mir: &Body,
    left_span: Span,
    right_span: Span,
    sess: &Session,
    l: Location,
    i: int,
    p: Seq<BasicBlock>,
)
    requires
        innermost_write(mir, left_span, sess, l),
        0 <= i < mir.local_uses@.len(),
        mir.target_at(l) == Some(mir.local_uses@[i].local),
        !mir.basic_blocks@[mir.local_uses@[i].location.block as int].is_cleanup,
        may_follow(mir.cfg(), l.block, mir.local_uses@[i].location.block),
        leads(mir.cfg(), p, START_BLOCK, mir.local_uses@[i].location.block),
        !p.contains(l.block),
    ensures
        replacement(mir, left_span, right_span, sess) is None,
{
    if exists|s: Location| innermost_value(mir, right_span, sess, s) {
        let s = choose|s: Location| innermost_value(mir, right_span, sess, s);
        law_verdict_decides(mir, left_span, right_span, sess, l, s, mir.local_uses@[i].local);
        law_bypassed_mention_rules_out(mir, mir.local_uses@[i].local, l, i, p);
    }
}

/// Where a write and a value were found, the body can be judged exactly when it is well formed,
/// the writes and the values narrow down, the value dominates the write and the blocks of later
/// usage can run. Without a value, the last two do not matter. Without a write, the values do
/// not matter either.
pub proof fn law_what_can_be_judged(
    mir: &Body,
    left_span: Span,
    right_span: Span,
    sess: &Session,
    l: Location,
    s: Location,
    local: Local,
)
    ensures
        analyzable(mir, left_span, right_span, sess) ==> mir.well_formed() && local_spans_nest(
            mir,
            left_span,
            sess,
        ),
        innermost_write(mir, left_span, sess, l) && innermost_value(mir, right_span, sess, s)
            && mir.target_at(l) == Some(local) ==> (analyzable(mir, left_span, right_span, sess)
            <==> mir.well_formed() && local_spans_nest(mir, left_span, sess) && value_spans_nest(
            mir,
            right_span,
            sess,
        ) && location_dominates(mir.cfg(), s, l) && later_blocks_run(mir, local, l)),
        innermost_write(mir, left_span, sess, l) && (forall|t: Location|
            !#[trigger] computes_value(mir, right_span, sess, t)) ==> (analyzable(
            mir,
            left_span,
            right_span,
            sess,
        ) <==> mir.well_formed() && local_spans_nest(mir, left_span, sess)),
        (forall|t: Location| !#[trigger] writes_variable(mir, left_span, sess, t)) ==> (analyzable(
            mir,
            left_span,
            right_span,
            sess,
        ) <==> mir.well_formed()),
{
    if innermost_write(mir, left_span, sess, l) {
        assert forall|k: Location| #[trigger]
            innermost_write(mir, left_span, sess, k) implies k == l by {
            law_innermost_write_unique(mir, left_span, sess, k, l);
        }
    }
    if innermost_value(mir, right_span, sess, s) {
        assert forall|k: Location| #[trigger]
            innermost_value(mir, right_span, sess, k) implies k == s by {
            law_innermost_value_unique(mir, right_span, sess, k, s);
        }
    }
    if forall|t: Location| !#[trigger] computes_value(mir, right_span, sess, t) {
        assert forall|t: Location| !#[trigger] innermost_value(mir, right_span, sess, t) by {
            assert(!computes_value(mir, right_span, sess, t));
        }
        law_nested_values_narrow_down(mir, right_span, sess);
    }
    if forall|t: Location| !#[trigger] writes_variable(mir, left_span, sess, t) {
        assert forall|t: Location| !#[trigger] innermost_write(mir, left_span, sess, t) by {
            assert(!writes_variable(mir, left_span, sess, t));
        }
        law_nested_writes_narrow_down(mir, left_span, sess);
    }
}

/// A statement was not written by hand if it, or any node around it, of whatever kind and at
/// whatever depth, has the context of an expansion; otherwise it was, unless the session counts
/// the root among the macros of other crates.
pub proof fn law_contexts_tell_what_is_hand_written(
    stmt: &Stmt,
    parents: Seq<Parent>,
    sess: &Session,
)
    ensures
        hand_written(stmt, parents, sess) <==> stmt.span.ctxt == ROOT_CONTEXT && (forall|i: int|
            0 <= i < parents.len() ==> (#[trigger] parents[i]).span.ctxt == ROOT_CONTEXT)
            && forall|k: int|
            0 <= k < sess.external_macros@.len() ==> #[trigger] sess.external_macros@[k]
                != ROOT_CONTEXT,
{
}

/// An expansion anywhere around a statement rules it out, whatever node it is.
pub proof fn law_expansion_around_rules_out(
    stmt: &Stmt,
    parents: Seq<Parent>,
    sess: &Session,
    i: int,
)
    requires
        0 <= i < parents.len(),
        parents[i].span.ctxt != ROOT_CONTEXT || exists|k: int|
            0 <= k < sess.external_macros@.len() && #[trigger] sess.external_macros@[k]
                == parents[i].span.ctxt,
    ensures
        !hand_written(stmt, parents, sess),
        forall|answers: &Answers| !#[trigger] looks_at_body(stmt, parents, sess, answers),
{
    assert(expanded(sess, parents[i].span));
}

/// What the nodes around a statement are does not tell whether it was written by hand, only
/// where they come from does.
pub proof fn law_parents_count_by_their_contexts(
    a_stmt: &Stmt,
    b_stmt: &Stmt,
    a: Seq<Parent>,
    b: Seq<Parent>,
    sess: &Session,
)
    requires
        a_stmt.span.ctxt == b_stmt.span.ctxt,
        a.len() == b.len(),
        forall|i: int| 0 <= i < a.len() ==> (#[trigger] a[i]).span.ctxt == b[i].span.ctxt,
    ensures
        hand_written(a_stmt, a, sess) == hand_written(b_stmt, b, sess),
{
    assert forall|i: int|
        #![trigger a[i]]
        #![trigger b[i]]
        0 <= i < a.len() implies expanded(sess, a[i].span) == expanded(sess, b[i].span) by {}
}

/// The body is looked at exactly when the statement assigns to a local variable, it was written
/// by hand, no procedural macro wrote it, its text is at hand, it belongs to a function, and
/// the bounds of that function can be met.
pub proof fn law_when_the_body_is_looked_at(
    stmt: &Stmt,
    parents: Seq<Parent>,
    sess: &Session,
    answers: &Answers,
)
    ensures
        looks_at_body(stmt, parents, sess, answers) <==> match (
            stmt.assigned_spans(),
            owner_of(parents),
            answers.snippet,
        ) {
            (Some(_), Some(_), Some(_)) => hand_written(stmt, parents, sess)
                && !answers.from_proc_macro && !answers.unsatisfiable_preds,
            _ => false,
        },
{
}

/// What the text of the statement is does not matter to whether the body is looked at, nor does
/// what the body holds.
pub proof fn law_text_does_not_decide(
    stmt: &Stmt,
    parents: Seq<Parent>,
    sess: &Session,
    a: &Answers,
    b: &Answers,
)
    requires
        a.from_proc_macro == b.from_proc_macro,
        a.unsatisfiable_preds == b.unsatisfiable_preds,
        a.snippet is Some <==> b.snippet is Some,
    ensures
        looks_at_body(stmt, parents, sess, a) == looks_at_body(stmt, parents, sess, b),
{
}

/// The suggestion is the text of the statement with a declaration in front of it: `let `, and
/// `mut ` after that exactly when the variable has to be mutable.
pub proof fn law_suggestion_declares_the_text(
    d: Diagnostic,
    span: Span,
    mutability: Mutability,
    snippet: Seq<char>,
)
    requires
        d.reports(span, mutability, snippet),
    ensures
        mutability == Mutability::Not ==> d.suggestion@ == seq!['l', 'e', 't', ' '] + snippet,
        mutability == Mutability::Mut ==> d.suggestion@ == seq![
            'l',
            'e',
            't',
            ' ',
            'm',
            'u',
            't',
            ' ',
        ] + snippet,
        d.span == span,
        d.message@ == "create a fresh variable is more explicit"@,
        d.help@ == "create a fresh variable instead of reinitialization"@,
        d.applicability == Applicability::MachineApplicable,
{
    reveal_strlit("let ");
    reveal_strlit("mut ");
    reveal_strlit("");
    assert("let "@ + mutability.prefix() + snippet =~= if mutability == Mutability::Mut {
        seq!['l', 'e', 't', ' ', 'm', 'u', 't', ' '] + snippet
    } else {
        seq!['l', 'e', 't', ' '] + snippet
    });
}

} // verus!
