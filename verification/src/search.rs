//! Finding the statements of a body that a piece of source code became.

use vstd::prelude::*;
use crate::graph::{Dominators, dominates, enterable, location_dominates, reaches};
use crate::graph::{law_location_dominates_antisymmetric, law_location_dominates_transitive};
use crate::mir::{BasicBlock, Body, Local, Location, START_BLOCK};
use crate::mir::{StatementKind, TerminatorKind, VarDebugInfoContents};
use crate::mir::{law_debug_locals, law_target_ignores_successors};
use crate::span::{ROOT_CONTEXT, Session, Span, SpanCmp, cmp_span, expanded, in_external_macro};

verus! {

/// A body is visited block by block, and each block from its first statement to its
/// terminator.
pub open spec fn visited_before(a: Location, b: Location) -> bool {
    a.block < b.block || (a.block == b.block && a.statement_index < b.statement_index)
}

/// What is done at `l`, outside of unwinding, was written by hand around `target`.
pub open spec fn written_around(mir: &Body, target: Span, sess: &Session, l: Location) -> bool {
    &&& mir.has_location(l)
    &&& !mir.unwinds(l)
    &&& !expanded(sess, mir.span_at(l))
    &&& mir.span_at(l).contains(target)
    &&& mir.span_at(l).ctxt == target.ctxt
}

/// A variable of the source is written at `l`, by code around `target`.
pub open spec fn writes_variable(mir: &Body, target: Span, sess: &Session, l: Location) -> bool {
    &&& written_around(mir, target, sess, l)
    &&& mir.target_at(l) matches Some(local) && mir.is_debug_local(local)
}

/// A value is computed at `l`, by code around `target`.
pub open spec fn computes_value(mir: &Body, target: Span, sess: &Session, l: Location) -> bool {
    &&& written_around(mir, target, sess, l)
    &&& mir.computes_at(l)
}

/// Of two different spans, one holds the other.
pub open spec fn nested(a: Span, b: Span) -> bool {
    a.encloses(b) || b.encloses(a)
}

/// Of the locations in `s`, those that are visited before `k`.
pub open spec fn seen_before(s: Set<Location>, k: Location) -> Set<Location> {
    Set::new(|l: Location| s.contains(l) && visited_before(l, k))
}

// ---- searching for the variable ----------------------------------------------------

/// Where variables of the source are written by code around `target`.
pub open spec fn variable_writes(mir: &Body, target: Span, sess: &Session) -> Set<Location> {
    Set::new(|l: Location| writes_variable(mir, target, sess, l))
}

/// Every span in `s` holds the one at `m`, which in turn holds none that is visited later.
pub open spec fn holds_no_later(mir: &Body, s: Set<Location>, m: Location) -> bool {
    &&& s.contains(m)
    &&& forall|j: Location| #[trigger]
        s.contains(j) ==> mir.span_at(j).contains(mir.span_at(m)) && (visited_before(m, j)
            ==> !mir.span_at(m).contains(mir.span_at(j)))
}

/// Every write of a variable around `target` is nested with the innermost one that was
/// visited before it.
pub open spec fn local_spans_nest(mir: &Body, target: Span, sess: &Session) -> bool {
    let writes = variable_writes(mir, target, sess);
    forall|k: Location, m: Location|
        #![trigger writes.contains(k), holds_no_later(mir, seen_before(writes, k), m)]
        writes.contains(k) && holds_no_later(mir, seen_before(writes, k), m) ==> nested(
            mir.span_at(m),
            mir.span_at(k),
        )
}

/// The write of a variable at `l` is the innermost around `target`, and of several with that
/// range the last.
pub open spec fn innermost_write(mir: &Body, target: Span, sess: &Session, l: Location) -> bool {
    holds_no_later(mir, variable_writes(mir, target, sess), l)
}

// ---- searching for the value -------------------------------------------------------

/// Where values are computed by code around `target`.
pub open spec fn value_computations(mir: &Body, target: Span, sess: &Session) -> Set<Location> {
    Set::new(|l: Location| computes_value(mir, target, sess, l))
}

/// In `s`, a span with the range of the one at `m`, but another one, is visited after `j`.
pub open spec fn superseded(mir: &Body, s: Set<Location>, j: Location, m: Location) -> bool {
    exists|d: Location| #[trigger]
        s.contains(d) && visited_before(j, d) && mir.span_at(d) != mir.span_at(m) && mir.span_at(
            m,
        ).contains(mir.span_at(d))
}

/// Every span in `s` holds the one at `m`. Of the other spans with its range, none is visited
/// later. Of the computations with that very span, all that no other span superseded
/// dominate `m`.
pub open spec fn outranks(mir: &Body, s: Set<Location>, m: Location) -> bool {
    &&& s.contains(m)
    &&& forall|j: Location| #[trigger] s.contains(j) ==> mir.span_at(j).contains(mir.span_at(m))
    &&& forall|j: Location| #[trigger]
        s.contains(j) && mir.span_at(j) != mir.span_at(m) && mir.span_at(m).contains(mir.span_at(j))
            ==> visited_before(j, m)
    &&& forall|j: Location| #[trigger]
        s.contains(j) && mir.span_at(j) == mir.span_at(m) && j != m ==> location_dominates(
            mir.cfg(),
            j,
            m,
        ) || superseded(mir, s, j, m)
}

/// Either location dominates the other, and that can be told: `k` can run, unless the two
/// are in one block.
pub open spec fn comparable(mir: &Body, m: Location, k: Location) -> bool {
    &&& m.block == k.block || enterable(mir.cfg(), k.block)
    &&& location_dominates(mir.cfg(), m, k) || location_dominates(mir.cfg(), k, m)
}

/// Of two spans one holds the other, or they are the same and their locations are ordered by
/// dominance.
pub open spec fn ordered(mir: &Body, m: Location, k: Location) -> bool {
    ||| nested(mir.span_at(m), mir.span_at(k))
    ||| mir.span_at(m) == mir.span_at(k) && comparable(mir, m, k)
}

/// Every computation around `target` is ordered with the one that outranks all that was
/// visited before it.
pub open spec fn value_spans_nest(mir: &Body, target: Span, sess: &Session) -> bool {
    let values = value_computations(mir, target, sess);
    forall|k: Location, m: Location|
        #![trigger values.contains(k), outranks(mir, seen_before(values, k), m)]
        values.contains(k) && outranks(mir, seen_before(values, k), m) ==> ordered(mir, m, k)
}

/// The computation at `l` outranks all others around `target`.
pub open spec fn innermost_value(mir: &Body, target: Span, sess: &Session, l: Location) -> bool {
    outranks(mir, value_computations(mir, target, sess), l)
}

// ---- visiting a body ---------------------------------------------------------------

/// `v` lists the locations that were written around `target`, in the order of a visit.
spec fn lists_written(mir: &Body, target: Span, sess: &Session, v: Seq<Location>) -> bool {
    &&& forall|i: int| 0 <= i < v.len() ==> written_around(mir, target, sess, #[trigger] v[i])
    &&& forall|i: int, j: int| 0 <= i < j < v.len() ==> visited_before(#[trigger] v[i], #[trigger] v[j])
    &&& forall|l: Location| #[trigger] written_around(mir, target, sess, l) ==> v.contains(l)
}

fn is_written_around(mir: &Body, target: Span, sess: &Session, l: Location) -> (r: bool)
    requires
        mir.has_location(l),
    ensures
        r == written_around(mir, target, sess, l),
{
    let span = mir.span(l);
    if span.from_expansion() || in_external_macro(sess, span) {
        return false;
    }
    if !span.contains(target) {
        return false;
    }
    if mir.basic_blocks[l.block].is_cleanup {
        return false;
    }
    span.ctxt == target.ctxt
}

/// Visits the body and lists what was written around `target`.
fn visit_written(mir: &Body, target: Span, sess: &Session) -> (v: Vec<Location>)
    ensures
        lists_written(mir, target, sess, v@),
{
    let mut v: Vec<Location> = Vec::new();
    let n: usize = mir.basic_blocks.len();
    let mut block: usize = 0;
    while block < n
        invariant
            n == mir.basic_blocks@.len(),
            block <= n,
            forall|i: int|
                0 <= i < v@.len() ==> written_around(mir, target, sess, #[trigger] v@[i]),
            forall|i: int| 0 <= i < v@.len() ==> (#[trigger] v@[i]).block < block,
            forall|i: int, j: int|
                0 <= i < j < v@.len() ==> visited_before(#[trigger] v@[i], #[trigger] v@[j]),
            forall|l: Location| #[trigger]
                written_around(mir, target, sess, l) && l.block < block ==> v@.contains(l),
        decreases n - block,
    {
        let len: usize = mir.basic_blocks[block].statements.len();
        let mut index: usize = 0;
        let mut done: bool = false;
        while !done
            invariant
                block < n,
                n == mir.basic_blocks@.len(),
                len == mir.basic_blocks@[block as int].statements@.len(),
                index <= len,
                done ==> index == len,
                forall|i: int|
                    0 <= i < v@.len() ==> written_around(mir, target, sess, #[trigger] v@[i]),
                forall|i: int|
                    0 <= i < v@.len() ==> (#[trigger] v@[i]).block < block || (v@[i].block == block
                        && (v@[i].statement_index < index || done)),
                forall|i: int, j: int|
                    0 <= i < j < v@.len() ==> visited_before(#[trigger] v@[i], #[trigger] v@[j]),
                forall|l: Location| #[trigger]
                    written_around(mir, target, sess, l) && (l.block < block || (l.block == block
                        && (l.statement_index < index || done))) ==> v@.contains(l),
            decreases len - index + (if done { 0int } else { 1int }),
        {
            let l = Location { block, statement_index: index };
            let ghost before = v@;
            if is_written_around(mir, target, sess, l) {
                v.push(l);
            }
            proof {
                assert(before.len() < v@.len() ==> v@[before.len() as int] == l);
                assert forall|k: Location| #[trigger]
                    written_around(mir, target, sess, k) && (k.block < block || (k.block == block
                        && k.statement_index <= index)) implies v@.contains(k) by {
                    if k != l {
                        let i = choose|i: int| 0 <= i < before.len() && before[i] == k;
                        assert(v@[i] == k);
                    }
                }
            }
            if index < len {
                index += 1;
            } else {
                done = true;
            }
        }
        block += 1;
    }
    v
}

/// Of the locations in `s`, the first `i` that `v` lists.
spec fn listed_first(s: Set<Location>, v: Seq<Location>, i: int) -> Set<Location> {
    Set::new(|l: Location| s.contains(l) && exists|k: int| 0 <= k < i && #[trigger] v[k] == l)
}

/// `v` lists all locations in `s`, in the order of a visit.
spec fn lists(s: Set<Location>, v: Seq<Location>) -> bool {
    &&& forall|i: int, j: int|
        0 <= i < j < v.len() ==> visited_before(#[trigger] v[i], #[trigger] v[j])
    &&& forall|l: Location| #[trigger] s.contains(l) ==> v.contains(l)
}

/// What is listed before an entry is what is visited before it.
proof fn lemma_listed_is_seen(s: Set<Location>, v: Seq<Location>, i: int)
    requires
        lists(s, v),
        0 <= i < v.len(),
    ensures
        listed_first(s, v, i) == seen_before(s, v[i]),
{
    assert forall|l: Location| #[trigger]
        listed_first(s, v, i).contains(l) <==> seen_before(s, v[i]).contains(l) by {
        if listed_first(s, v, i).contains(l) {
            let k = choose|k: int| 0 <= k < i && #[trigger] v[k] == l;
            assert(visited_before(v[k], v[i]));
        }
        if seen_before(s, v[i]).contains(l) {
            assert(v.contains(l));
            let k = choose|k: int| 0 <= k < v.len() && v[k] == l;
            if i < k {
                assert(visited_before(v[i], v[k]));
            }
            assert(v[k] == l);
        }
    }
    assert(listed_first(s, v, i) =~= seen_before(s, v[i]));
}

/// One more entry adds at most itself.
proof fn lemma_listed_step(s: Set<Location>, v: Seq<Location>, i: int)
    requires
        0 <= i < v.len(),
    ensures
        s.contains(v[i]) ==> listed_first(s, v, i + 1) == listed_first(s, v, i).insert(v[i]),
        !s.contains(v[i]) ==> listed_first(s, v, i + 1) == listed_first(s, v, i),
{
    assert forall|l: Location| l != v[i] implies (#[trigger] listed_first(s, v, i + 1).contains(l)
        <==> listed_first(s, v, i).contains(l)) by {
        if listed_first(s, v, i + 1).contains(l) {
            let k = choose|k: int| 0 <= k < i + 1 && #[trigger] v[k] == l;
            assert(0 <= k < i && v[k] == l);
        }
        if listed_first(s, v, i).contains(l) {
            let k = choose|k: int| 0 <= k < i && #[trigger] v[k] == l;
            assert(0 <= k < i + 1 && v[k] == l);
        }
    }
    if s.contains(v[i]) {
        assert(listed_first(s, v, i + 1) =~= listed_first(s, v, i).insert(v[i]));
    } else {
        assert(listed_first(s, v, i + 1) =~= listed_first(s, v, i));
    }
}

/// The whole list holds everything.
proof fn lemma_listed_all(s: Set<Location>, v: Seq<Location>)
    requires
        lists(s, v),
    ensures
        listed_first(s, v, v.len() as int) == s,
{
    assert forall|l: Location| #[trigger] s.contains(l) implies listed_first(
        s,
        v,
        v.len() as int,
    ).contains(l) by {
        assert(v.contains(l));
        let k = choose|k: int| 0 <= k < v.len() && v[k] == l;
        assert(0 <= k < v.len() && v[k] == l);
    }
    assert(listed_first(s, v, v.len() as int) =~= s);
}

/// No two locations are both the innermost, and of several the last.
proof fn lemma_holds_no_later_unique(mir: &Body, s: Set<Location>, a: Location, b: Location)
    requires
        holds_no_later(mir, s, a),
        holds_no_later(mir, s, b),
    ensures
        a == b,
{
    if a != b {
        assert(visited_before(a, b) || visited_before(b, a));
    }
}

/// No two locations both outrank the others.
proof fn lemma_outranks_unique(mir: &Body, s: Set<Location>, a: Location, b: Location)
    requires
        outranks(mir, s, a),
        outranks(mir, s, b),
    ensures
        a == b,
{
    if mir.span_at(a) == mir.span_at(b) {
        if a != b {
            if superseded(mir, s, b, a) {
                let d = choose|d: Location| #[trigger]
                    s.contains(d) && visited_before(b, d) && mir.span_at(d) != mir.span_at(a)
                        && mir.span_at(a).contains(mir.span_at(d));
                assert(visited_before(d, b));
            }
            if superseded(mir, s, a, b) {
                let d = choose|d: Location| #[trigger]
                    s.contains(d) && visited_before(a, d) && mir.span_at(d) != mir.span_at(b)
                        && mir.span_at(b).contains(mir.span_at(d));
                assert(visited_before(d, a));
            }
            law_location_dominates_antisymmetric(mir.cfg(), a, b);
        }
    } else {
        assert(visited_before(a, b) && visited_before(b, a));
    }
}

/// What a search does with one more candidate.
#[derive(Clone, Copy, PartialEq, Eq, Structural)]
enum Choice {
    Keep,
    Replace,
    Clash,
}

/// How a search ends.
enum Outcome {
    Nothing,
    Found(Location),
    Clash,
}

fn choose_write(best: Span, new: Span) -> (r: Choice)
    ensures
        r == Choice::Replace <==> best.encloses(new),
        r == Choice::Keep <==> new.encloses(best) && !best.encloses(new),
{
    match cmp_span(best, new) {
        SpanCmp::Eq => Choice::Clash,
        SpanCmp::AContainB => Choice::Replace,
        SpanCmp::BContainA => Choice::Keep,
        SpanCmp::Overlap | SpanCmp::NoOverLap => Choice::Clash,
    }
}

fn is_variable_write(mir: &Body, l: Location) -> (r: bool)
    requires
        mir.has_location(l),
    ensures
        r <==> (mir.target_at(l) matches Some(local) && mir.is_debug_local(local)),
{
    match mir.target(l) {
        Some(local) => mir.has_debug_info(local),
        None => false,
    }
}

/// Narrows the writes of variables around `target` down to the innermost.
fn narrow_writes(mir: &Body, target: Span, sess: &Session) -> (r: Outcome)
    ensures
        r is Clash <==> !local_spans_nest(mir, target, sess),
        r is Nothing ==> forall|l: Location| !#[trigger] writes_variable(mir, target, sess, l),
        r matches Outcome::Found(l) ==> innermost_write(mir, target, sess, l),
{
    let v = visit_written(mir, target, sess);
    let ghost all = variable_writes(mir, target, sess);
    assert(lists(all, v@)) by {
        assert forall|l: Location| #[trigger] all.contains(l) implies v@.contains(l) by {
            assert(written_around(mir, target, sess, l));
        }
    }
    let mut best: Option<Location> = None;
    let mut i: usize = 0;
    while i < v.len()
        invariant
            all == variable_writes(mir, target, sess),
            lists_written(mir, target, sess, v@),
            lists(all, v@),
            i <= v@.len(),
            best is None ==> forall|l: Location| !#[trigger] listed_first(all, v@, i as int).contains(l),
            best matches Some(m) ==> holds_no_later(mir, listed_first(all, v@, i as int), m),
            forall|k: int, m: Location|
                #![trigger holds_no_later(mir, seen_before(all, v@[k]), m)]
                0 <= k < i && all.contains(v@[k]) && holds_no_later(mir, seen_before(all, v@[k]), m)
                    ==> nested(mir.span_at(m), mir.span_at(v@[k])),
        decreases v.len() - i,
    {
        let l = v[i];
        let ghost seen = seen_before(all, l);
        proof {
            lemma_listed_is_seen(all, v@, i as int);
            lemma_listed_step(all, v@, i as int);
            assert(written_around(mir, target, sess, v@[i as int]));
        }
        if is_variable_write(mir, l) {
            assert(all.contains(l));
            match best {
                None => {
                    best = Some(l);
                    assert(forall|j: Location| !seen.contains(j));
                },
                Some(m) => {
                    proof {
                        assert(holds_no_later(mir, seen, m));
                        assert(seen.contains(m));
                        assert forall|o: Location| #[trigger]
                            holds_no_later(mir, seen, o) implies o == m by {
                            lemma_holds_no_later_unique(mir, seen, o, m);
                        }
                    }
                    match choose_write(mir.span(m), mir.span(l)) {
                        Choice::Replace => {
                            best = Some(l);
                        },
                        Choice::Keep => {},
                        Choice::Clash => {
                            return Outcome::Clash;
                        },
                    }
                },
            }
        }
        i += 1;
    }
    proof {
        lemma_listed_all(all, v@);
        assert forall|k: Location, m: Location|
            #![trigger all.contains(k), holds_no_later(mir, seen_before(all, k), m)]
            all.contains(k) && holds_no_later(mir, seen_before(all, k), m) implies nested(mir.span_at(m), mir.span_at(k)) by {
            assert(v@.contains(k));
            let j = choose|j: int| 0 <= j < v@.len() && v@[j] == k;
            assert(holds_no_later(mir, seen_before(all, v@[j]), m));
        }
    }
    match best {
        None => {
            assert forall|l: Location| !#[trigger] writes_variable(mir, target, sess, l) by {
                assert(!all.contains(l));
            }
            Outcome::Nothing
        },
        Some(m) => Outcome::Found(m),
    }
}

/// Tells whether the writes of variables around `left_span` narrow down to one.
pub fn check_local_spans(mir: &Body, left_span: Span, sess: &Session) -> (r: bool)
    ensures
        r == local_spans_nest(mir, left_span, sess),
{
    match narrow_writes(mir, left_span, sess) {
        Outcome::Clash => false,
        _ => true,
    }
}

/// Finds the variable that `left_span` names in an assignment: the innermost write around
/// it (of several with one range, recorded relative to different items, the last), its span,
/// and the local that is written.
pub fn search_local(mir: &Body, left_span: Span, sess: &Session) -> (r: Option<
    (Span, Local, Location),
>)
    requires
        local_spans_nest(mir, left_span, sess),
    ensures
        r is None <==> forall|l: Location| !#[trigger] writes_variable(mir, left_span, sess, l),
        r matches Some((span, local, location)) ==> {
            &&& innermost_write(mir, left_span, sess, location)
            &&& span == mir.span_at(location)
            &&& mir.target_at(location) == Some(local)
        },
        (exists|b: int|
            0 <= b < mir.basic_blocks@.len() && !(#[trigger] mir.basic_blocks@[b]).is_cleanup
                && !expanded(sess, mir.basic_blocks@[b].terminator.span)
                && mir.basic_blocks@[b].terminator.span.ctxt == left_span.ctxt
                && mir.basic_blocks@[b].terminator.span.lo <= left_span.lo && left_span.hi
                <= mir.basic_blocks@[b].terminator.span.hi && (
            mir.basic_blocks@[b].terminator.kind matches TerminatorKind::Call(d)
                && mir.is_debug_local(d))) ==> r is Some,
{
    proof {
        if exists|b: int|
            0 <= b < mir.basic_blocks@.len() && !(#[trigger] mir.basic_blocks@[b]).is_cleanup
                && !expanded(sess, mir.basic_blocks@[b].terminator.span)
                && mir.basic_blocks@[b].terminator.span.ctxt == left_span.ctxt
                && mir.basic_blocks@[b].terminator.span.lo <= left_span.lo && left_span.hi
                <= mir.basic_blocks@[b].terminator.span.hi && (
            mir.basic_blocks@[b].terminator.kind matches TerminatorKind::Call(d)
                && mir.is_debug_local(d)) {
            let b = choose|b: int|
                0 <= b < mir.basic_blocks@.len() && !(#[trigger] mir.basic_blocks@[b]).is_cleanup
                    && !expanded(sess, mir.basic_blocks@[b].terminator.span)
                    && mir.basic_blocks@[b].terminator.span.ctxt == left_span.ctxt
                    && mir.basic_blocks@[b].terminator.span.lo <= left_span.lo && left_span.hi
                    <= mir.basic_blocks@[b].terminator.span.hi && (
                mir.basic_blocks@[b].terminator.kind matches TerminatorKind::Call(d)
                    && mir.is_debug_local(d));
            assert(b < mir.basic_blocks.len());
            assert(writes_variable(
                mir,
                left_span,
                sess,
                Location {
                    block: b as usize,
                    statement_index: mir.basic_blocks@[b].statements.len(),
                },
            ));
        }
    }
    match narrow_writes(mir, left_span, sess) {
        Outcome::Found(l) => match mir.target(l) {
            Some(local) => Some((mir.span(l), local, l)),
            None => None,
        },
        _ => None,
    }
}

fn choose_value(mir: &Body, best: Location, new: Location, dominators: &Dominators) -> (r: Choice)
    requires
        mir.has_location(best),
        mir.has_location(new),
        dominators.of(mir.cfg()),
    ensures
        r != Choice::Clash <==> ordered(mir, best, new),
        r == Choice::Replace ==> mir.span_at(best).encloses(mir.span_at(new)) || (mir.span_at(best)
            == mir.span_at(new) && location_dominates(mir.cfg(), best, new)),
        r == Choice::Keep ==> (mir.span_at(new).contains(mir.span_at(best)) && !mir.span_at(
            best,
        ).contains(mir.span_at(new))) || (mir.span_at(best) == mir.span_at(new)
            && location_dominates(mir.cfg(), new, best)),
{
    match cmp_span(mir.span(best), mir.span(new)) {
        SpanCmp::Eq => {
            if best.block != new.block && !dominators.is_reachable(new.block) {
                Choice::Clash
            } else if best.dominates(new, dominators) {
                Choice::Replace
            } else if best.block != new.block && !dominators.is_reachable(best.block) {
                Choice::Clash
            } else if new.dominates(best, dominators) {
                Choice::Keep
            } else {
                Choice::Clash
            }
        },
        SpanCmp::AContainB => Choice::Replace,
        SpanCmp::BContainA => Choice::Keep,
        SpanCmp::Overlap | SpanCmp::NoOverLap => Choice::Clash,
    }
}

/// What superseded a location still does when more has been seen.
proof fn lemma_superseded_stays(mir: &Body, s: Set<Location>, l: Location, j: Location, m: Location)
    requires
        superseded(mir, s, j, m),
    ensures
        superseded(mir, s.insert(l), j, m),
{
    let d = choose|d: Location| #[trigger]
        s.contains(d) && visited_before(j, d) && mir.span_at(d) != mir.span_at(m) && mir.span_at(
            m,
        ).contains(mir.span_at(d));
    assert(s.insert(l).contains(d));
}

/// A later computation that lies within the best so far, or has its span and is dominated by
/// it, outranks all that was seen.
proof fn lemma_outranks_replaced(mir: &Body, s: Set<Location>, m: Location, l: Location)
    requires
        outranks(mir, s, m),
        forall|j: Location| #[trigger] s.contains(j) ==> visited_before(j, l),
        mir.span_at(m).encloses(mir.span_at(l)) || (mir.span_at(m) == mir.span_at(l)
            && location_dominates(mir.cfg(), m, l)),
    ensures
        outranks(mir, s.insert(l), l),
{
    let t = s.insert(l);
    assert forall|j: Location| #[trigger]
        t.contains(j) && mir.span_at(j) == mir.span_at(l) && j != l implies location_dominates(
        mir.cfg(),
        j,
        l,
    ) || superseded(mir, t, j, l) by {
        assert(s.contains(j));
        if mir.span_at(m) == mir.span_at(l) {
            if j != m {
                if superseded(mir, s, j, m) {
                    lemma_superseded_stays(mir, s, l, j, m);
                } else {
                    law_location_dominates_transitive(mir.cfg(), j, m, l);
                }
            }
        } else {
            assert(visited_before(j, m));
            assert(t.contains(m));
        }
    }
}

/// The best so far outranks a later computation that holds it and is longer, or has its span
/// and dominates it.
proof fn lemma_outranks_kept(mir: &Body, s: Set<Location>, m: Location, l: Location)
    requires
        outranks(mir, s, m),
        (mir.span_at(l).contains(mir.span_at(m)) && !mir.span_at(m).contains(mir.span_at(l))) || (
        mir.span_at(m) == mir.span_at(l) && location_dominates(mir.cfg(), l, m)),
    ensures
        outranks(mir, s.insert(l), m),
{
    let t = s.insert(l);
    assert forall|j: Location| #[trigger]
        t.contains(j) && mir.span_at(j) == mir.span_at(m) && j != m implies location_dominates(
        mir.cfg(),
        j,
        m,
    ) || superseded(mir, t, j, m) by {
        if j != l {
            assert(s.contains(j));
            if superseded(mir, s, j, m) {
                lemma_superseded_stays(mir, s, l, j, m);
            }
        }
    }
}

/// Narrows the computations around `target` down to the one that outranks the others.
fn narrow_values(mir: &Body, target: Span, dominators: &Dominators, sess: &Session) -> (r: Outcome)
    requires
        dominators.of(mir.cfg()),
    ensures
        r is Clash <==> !value_spans_nest(mir, target, sess),
        r is Nothing ==> forall|l: Location| !#[trigger] computes_value(mir, target, sess, l),
        r matches Outcome::Found(l) ==> innermost_value(mir, target, sess, l),
{
    let v = visit_written(mir, target, sess);
    let ghost all = value_computations(mir, target, sess);
    assert(lists(all, v@)) by {
        assert forall|l: Location| #[trigger] all.contains(l) implies v@.contains(l) by {
            assert(written_around(mir, target, sess, l));
        }
    }
    let mut best: Option<Location> = None;
    let mut i: usize = 0;
    while i < v.len()
        invariant
            dominators.of(mir.cfg()),
            all == value_computations(mir, target, sess),
            lists_written(mir, target, sess, v@),
            lists(all, v@),
            i <= v@.len(),
            best is None ==> forall|l: Location| !#[trigger] listed_first(all, v@, i as int).contains(l),
            best matches Some(m) ==> outranks(mir, listed_first(all, v@, i as int), m),
            forall|k: int, m: Location|
                #![trigger outranks(mir, seen_before(all, v@[k]), m)]
                0 <= k < i && all.contains(v@[k]) && outranks(mir, seen_before(all, v@[k]), m)
                    ==> ordered(mir, m, v@[k]),
        decreases v.len() - i,
    {
        let l = v[i];
        let ghost seen = seen_before(all, l);
        proof {
            lemma_listed_is_seen(all, v@, i as int);
            lemma_listed_step(all, v@, i as int);
            assert(written_around(mir, target, sess, v@[i as int]));
        }
        if mir.computes(l) {
            assert(all.contains(l));
            match best {
                None => {
                    best = Some(l);
                    assert(forall|j: Location| !seen.contains(j));
                },
                Some(m) => {
                    proof {
                        assert(outranks(mir, seen, m));
                        assert(seen.contains(m));
                        assert forall|o: Location| #[trigger]
                            outranks(mir, seen, o) implies o == m by {
                            lemma_outranks_unique(mir, seen, o, m);
                        }
                    }
                    match choose_value(mir, m, l, dominators) {
                        Choice::Replace => {
                            best = Some(l);
                            proof {
                                lemma_outranks_replaced(mir, seen, m, l);
                            }
                        },
                        Choice::Keep => {
                            proof {
                                lemma_outranks_kept(mir, seen, m, l);
                            }
                        },
                        Choice::Clash => {
                            return Outcome::Clash;
                        },
                    }
                },
            }
        }
        i += 1;
    }
    proof {
        lemma_listed_all(all, v@);
        assert forall|k: Location, m: Location|
            #![trigger all.contains(k), outranks(mir, seen_before(all, k), m)]
            all.contains(k) && outranks(mir, seen_before(all, k), m) implies ordered(mir, m, k) by {
            assert(v@.contains(k));
            let j = choose|j: int| 0 <= j < v@.len() && v@[j] == k;
            assert(outranks(mir, seen_before(all, v@[j]), m));
        }
    }
    match best {
        None => {
            assert forall|l: Location| !#[trigger] computes_value(mir, target, sess, l) by {
                assert(!all.contains(l));
            }
            Outcome::Nothing
        },
        Some(m) => Outcome::Found(m),
    }
}

/// Tells whether the computations around `rvalue_span` narrow down to one.
pub fn check_value_spans(
    mir: &Body,
    rvalue_span: Span,
    dominators: &Dominators,
    sess: &Session,
) -> (r: bool)
    requires
        dominators.of(mir.cfg()),
    ensures
        r == value_spans_nest(mir, rvalue_span, sess),
{
    match narrow_values(mir, rvalue_span, dominators, sess) {
        Outcome::Clash => false,
        _ => true,
    }
}

/// Finds where the value at `rvalue_span` is computed: the innermost computation around
/// it, and of several with that span the one that the others dominate. Where one range is
/// recorded relative to different items, the computations since the last change of the item
/// compete.
pub fn search_mir_by_span(
    mir: &Body,
    rvalue_span: Span,
    dominators: &Dominators,
    sess: &Session,
) -> (r: Option<(Span, Location)>)
    requires
        dominators.of(mir.cfg()),
        value_spans_nest(mir, rvalue_span, sess),
    ensures
        r is None <==> forall|l: Location| !#[trigger] computes_value(mir, rvalue_span, sess, l),
        r matches Some((span, location)) ==> {
            &&& innermost_value(mir, rvalue_span, sess, location)
            &&& span == mir.span_at(location)
        },
{
    match narrow_values(mir, rvalue_span, dominators, sess) {
        Outcome::Found(l) => Some((mir.span(l), l)),
        _ => None,
    }
}

// ---- what is found is unique -------------------------------------------------------

/// Two innermost writes around one span are the same.
pub proof fn law_innermost_write_unique(
    mir: &Body,
    target: Span,
    sess: &Session,
    a: Location,
    b: Location,
)
    requires
        innermost_write(mir, target, sess, a),
        innermost_write(mir, target, sess, b),
    ensures
        a == b,
{
    lemma_holds_no_later_unique(mir, variable_writes(mir, target, sess), a, b);
}

/// Two innermost computations around one span are the same.
pub proof fn law_innermost_value_unique(
    mir: &Body,
    target: Span,
    sess: &Session,
    a: Location,
    b: Location,
)
    requires
        innermost_value(mir, target, sess, a),
        innermost_value(mir, target, sess, b),
    ensures
        a == b,
{
    lemma_outranks_unique(mir, value_computations(mir, target, sess), a, b);
}

/// Where any two writes of variables around a span are nested, they narrow down to one.
pub proof fn law_nested_writes_narrow_down(mir: &Body, target: Span, sess: &Session)
    requires
        forall|a: Location, b: Location|
            #![trigger writes_variable(mir, target, sess, a), writes_variable(mir, target, sess, b)]
            writes_variable(mir, target, sess, a) && writes_variable(mir, target, sess, b) && a != b
                ==> nested(mir.span_at(a), mir.span_at(b)),
    ensures
        local_spans_nest(mir, target, sess),
{
}

/// Where any two computations around a span are nested, or have one span and are ordered
/// by dominance, they narrow down to one.
pub proof fn law_nested_values_narrow_down(mir: &Body, target: Span, sess: &Session)
    requires
        forall|a: Location, b: Location|
            #![trigger computes_value(mir, target, sess, a), computes_value(mir, target, sess, b)]
            computes_value(mir, target, sess, a) && computes_value(mir, target, sess, b) && a != b
                ==> ordered(mir, a, b),
    ensures
        value_spans_nest(mir, target, sess),
{
}

// ---- candidates, told by what stands in the body ---------------------------------------

/// A statement is a candidate for the variable exactly when it is outside of unwinding, was
/// written by hand in the context of the target and around it, and assigns or brings to life a
/// local that the debugger knows. It is a candidate for the value exactly when it is so placed
/// and assigns to any local.
pub proof fn law_statement_candidates(
    mir: &Body,
    target: Span,
    sess: &Session,
    b: BasicBlock,
    i: usize,
)
    requires
        b < mir.basic_blocks@.len(),
        i < mir.basic_blocks@[b as int].statements@.len(),
    ensures
        ({
            let l = Location { block: b, statement_index: i };
            let statement = mir.basic_blocks@[b as int].statements@[i as int];
            let placed = !mir.basic_blocks@[b as int].is_cleanup && statement.span.ctxt
                == ROOT_CONTEXT && target.ctxt == ROOT_CONTEXT
                && !sess.external_macros@.contains(ROOT_CONTEXT) && statement.span.lo <= target.lo
                && target.hi <= statement.span.hi;
            &&& writes_variable(mir, target, sess, l) <==> placed && exists|k: int|
                0 <= k < mir.var_debug_info@.len() && (
                #[trigger] mir.var_debug_info@[k] matches VarDebugInfoContents::Place(d) && (
                statement.kind == StatementKind::Assign(d) || statement.kind
                    == StatementKind::StorageLive(d)))
            &&& computes_value(mir, target, sess, l) <==> placed && statement.kind is Assign
        }),
{
}

/// A terminator is a candidate for the variable exactly when it is outside of unwinding, was
/// written by hand in the context of the target and around it, and is a call into a local that
/// the debugger knows. It is a candidate for the value exactly when it is so placed and is a
/// call. Where control may go from it does not matter.
pub proof fn law_terminator_candidates(mir: &Body, target: Span, sess: &Session, b: BasicBlock)
    requires
        b < mir.basic_blocks@.len(),
    ensures
        ({
            let l = Location {
                block: b,
                statement_index: mir.basic_blocks@[b as int].statements.len(),
            };
            let terminator = mir.basic_blocks@[b as int].terminator;
            let placed = !mir.basic_blocks@[b as int].is_cleanup && terminator.span.ctxt
                == ROOT_CONTEXT && target.ctxt == ROOT_CONTEXT
                && !sess.external_macros@.contains(ROOT_CONTEXT) && terminator.span.lo <= target.lo
                && target.hi <= terminator.span.hi;
            &&& writes_variable(mir, target, sess, l) <==> placed && exists|k: int|
                0 <= k < mir.var_debug_info@.len() && (
                #[trigger] mir.var_debug_info@[k] matches VarDebugInfoContents::Place(d)
                    && terminator.kind == TerminatorKind::Call(d))
            &&& computes_value(mir, target, sess, l) <==> placed && terminator.kind is Call
        }),
{
}

/// Nothing outside of the body is a candidate.
pub proof fn law_candidates_lie_in_the_body(
    mir: &Body,
    target: Span,
    sess: &Session,
    l: Location,
)
    ensures
        writes_variable(mir, target, sess, l) || computes_value(mir, target, sess, l) ==> l.block
            < mir.basic_blocks@.len() && l.statement_index
            <= mir.basic_blocks@[l.block as int].statements@.len(),
{
}

/// Where control may go, and what is mentioned where, does not decide what is a candidate: two
/// bodies with the same statements, the same kinds and spans of terminators, the same unwinding
/// blocks and the same records of the debugger have the same candidates.
pub proof fn law_candidates_ignore_control(
    a: &Body,
    b: &Body,
    target: Span,
    sess: &Session,
    l: Location,
)
    requires
        a.basic_blocks@.len() == b.basic_blocks@.len(),
        a.var_debug_info@ == b.var_debug_info@,
        forall|i: int|
            0 <= i < a.basic_blocks@.len() ==> (#[trigger] a.basic_blocks@[i]).statements@
                == b.basic_blocks@[i].statements@ && a.basic_blocks@[i].is_cleanup
                == b.basic_blocks@[i].is_cleanup && a.basic_blocks@[i].terminator.kind
                == b.basic_blocks@[i].terminator.kind && a.basic_blocks@[i].terminator.span
                == b.basic_blocks@[i].terminator.span,
    ensures
        writes_variable(a, target, sess, l) == writes_variable(b, target, sess, l),
        computes_value(a, target, sess, l) == computes_value(b, target, sess, l),
{
    if l.block < a.basic_blocks@.len() {
        assert(a.basic_blocks@[l.block as int].statements@
            == b.basic_blocks@[l.block as int].statements@);
        law_target_ignores_successors(a, b, l);
        if let Some(d) = a.target_at(l) {
            assert(a.is_debug_local(d) == b.is_debug_local(d));
        }
    }
}

/// The order of the records of the debugger does not matter, nor do those of constants.
pub proof fn law_candidates_ignore_record_order(
    a: &Body,
    b: &Body,
    target: Span,
    sess: &Session,
    l: Location,
)
    requires
        a.basic_blocks == b.basic_blocks,
        forall|d: Local|
            a.var_debug_info@.contains(VarDebugInfoContents::Place(d))
                <==> #[trigger] b.var_debug_info@.contains(VarDebugInfoContents::Place(d)),
    ensures
        writes_variable(a, target, sess, l) == writes_variable(b, target, sess, l),
        computes_value(a, target, sess, l) == computes_value(b, target, sess, l),
{
    if let Some(d) = a.target_at(l) {
        law_debug_locals(a, d);
        law_debug_locals(b, d);
        assert(a.var_debug_info@.contains(VarDebugInfoContents::Place(d))
            <==> b.var_debug_info@.contains(VarDebugInfoContents::Place(d)));
    }
}

/// What is a candidate for a span is one for every span of the same context within it.
pub proof fn law_candidates_of_a_part(
    mir: &Body,
    whole: Span,
    part: Span,
    sess: &Session,
    l: Location,
)
    requires
        whole.lo <= part.lo,
        part.hi <= whole.hi,
        whole.ctxt == part.ctxt,
    ensures
        writes_variable(mir, whole, sess, l) ==> writes_variable(mir, part, sess, l),
        computes_value(mir, whole, sess, l) ==> computes_value(mir, part, sess, l),
{
}

// ---- what is found, told by ranges and places ------------------------------------------

/// The innermost write is a candidate, its range lies within that of every other candidate, and
/// no candidate with its range stands in a later block, or later in its block. Whatever has
/// all this is the innermost write.
pub proof fn law_innermost_write_by_range(mir: &Body, target: Span, sess: &Session, l: Location)
    ensures
        innermost_write(mir, target, sess, l) <==> writes_variable(mir, target, sess, l) && forall|
            j: Location,
        |
            #[trigger] writes_variable(mir, target, sess, j) ==> {
                &&& mir.span_at(j).lo <= mir.span_at(l).lo
                &&& mir.span_at(l).hi <= mir.span_at(j).hi
                &&& mir.span_at(j).lo == mir.span_at(l).lo && mir.span_at(j).hi == mir.span_at(l).hi
                    ==> j.block < l.block || j.block == l.block && j.statement_index
                    <= l.statement_index
            },
{
    let writes = variable_writes(mir, target, sess);
    if innermost_write(mir, target, sess, l) {
        assert forall|j: Location| #[trigger] writes_variable(mir, target, sess, j) implies {
            &&& mir.span_at(j).lo <= mir.span_at(l).lo
            &&& mir.span_at(l).hi <= mir.span_at(j).hi
            &&& mir.span_at(j).lo == mir.span_at(l).lo && mir.span_at(j).hi == mir.span_at(l).hi
                ==> j.block < l.block || j.block == l.block && j.statement_index <= l.statement_index
        } by {
            assert(writes.contains(j));
        }
    } else if writes_variable(mir, target, sess, l) {
        assert(writes.contains(l));
        let j = choose|j: Location|
            #![trigger writes.contains(j)]
            writes.contains(j) && !(mir.span_at(j).contains(mir.span_at(l)) && (visited_before(l, j)
                ==> !mir.span_at(l).contains(mir.span_at(j))));
        assert(writes_variable(mir, target, sess, j));
    }
}

/// The innermost computation is a candidate, and its range lies within that of every other
/// candidate. Another span with its range stands only in an earlier block, or earlier in its
/// block. A candidate with its very span dominates it, unless another span with the range
/// stands later than that candidate. Whatever has all this is the innermost computation.
pub proof fn law_innermost_value_by_range(mir: &Body, target: Span, sess: &Session, l: Location)
    ensures
        innermost_value(mir, target, sess, l) <==> computes_value(mir, target, sess, l) && forall|
            j: Location,
        |
            #[trigger] computes_value(mir, target, sess, j) ==> {
                let a = mir.span_at(j);
                let b = mir.span_at(l);
                &&& a.lo <= b.lo && b.hi <= a.hi
                &&& a != b && a.lo == b.lo && a.hi == b.hi ==> j.block < l.block || j.block
                    == l.block && j.statement_index < l.statement_index
                &&& a == b && j != l ==> location_dominates(mir.cfg(), j, l) || exists|d: Location|
                    #[trigger] computes_value(mir, target, sess, d) && mir.span_at(d) != b
                        && mir.span_at(d).lo == b.lo && mir.span_at(d).hi == b.hi && (j.block
                        < d.block || j.block == d.block && j.statement_index < d.statement_index)
            },
{
    let values = value_computations(mir, target, sess);
    assert(forall|j: Location| #[trigger]
        values.contains(j) <==> computes_value(mir, target, sess, j));
    if innermost_value(mir, target, sess, l) {
        assert forall|j: Location| #[trigger] computes_value(mir, target, sess, j) implies {
            let a = mir.span_at(j);
            let b = mir.span_at(l);
            &&& a.lo <= b.lo && b.hi <= a.hi
            &&& a != b && a.lo == b.lo && a.hi == b.hi ==> j.block < l.block || j.block == l.block
                && j.statement_index < l.statement_index
            &&& a == b && j != l ==> location_dominates(mir.cfg(), j, l) || exists|d: Location|
                #[trigger] computes_value(mir, target, sess, d) && mir.span_at(d) != b
                    && mir.span_at(d).lo == b.lo && mir.span_at(d).hi == b.hi && (j.block < d.block
                    || j.block == d.block && j.statement_index < d.statement_index)
        } by {
            assert(values.contains(j));
            if superseded(mir, values, j, l) {
                let d = choose|d: Location| #[trigger]
                    values.contains(d) && visited_before(j, d) && mir.span_at(d) != mir.span_at(l)
                        && mir.span_at(l).contains(mir.span_at(d));
                assert(computes_value(mir, target, sess, d));
            }
        }
    } else if computes_value(mir, target, sess, l) && forall|j: Location|
        #[trigger] computes_value(mir, target, sess, j) ==> {
            let a = mir.span_at(j);
            let b = mir.span_at(l);
            &&& a.lo <= b.lo && b.hi <= a.hi
            &&& a != b && a.lo == b.lo && a.hi == b.hi ==> j.block < l.block || j.block == l.block
                && j.statement_index < l.statement_index
            &&& a == b && j != l ==> location_dominates(mir.cfg(), j, l) || exists|d: Location|
                #[trigger] computes_value(mir, target, sess, d) && mir.span_at(d) != b
                    && mir.span_at(d).lo == b.lo && mir.span_at(d).hi == b.hi && (j.block < d.block
                    || j.block == d.block && j.statement_index < d.statement_index)
        } {
        assert forall|j: Location| #[trigger]
            values.contains(j) && mir.span_at(j) == mir.span_at(l) && j
                != l implies location_dominates(mir.cfg(), j, l) || superseded(mir, values, j, l) by {
            assert(computes_value(mir, target, sess, j));
            if !location_dominates(mir.cfg(), j, l) {
                let d = choose|d: Location|
                    #[trigger] computes_value(mir, target, sess, d) && mir.span_at(d)
                        != mir.span_at(l) && mir.span_at(d).lo == mir.span_at(l).lo && mir.span_at(
                        d,
                    ).hi == mir.span_at(l).hi && (j.block < d.block || j.block == d.block
                        && j.statement_index < d.statement_index);
                assert(values.contains(d));
            }
        }
        assert forall|j: Location| #[trigger] values.contains(j) implies mir.span_at(j).contains(
            mir.span_at(l),
        ) && (mir.span_at(j) != mir.span_at(l) && mir.span_at(l).contains(mir.span_at(j))
            ==> visited_before(j, l)) by {
            assert(computes_value(mir, target, sess, j));
        }
        assert(outranks(mir, values, l));
    }
}

/// A write that is the only one around a span is what the search comes down to.
pub proof fn law_only_write(mir: &Body, target: Span, sess: &Session, l: Location)
    requires
        writes_variable(mir, target, sess, l),
        forall|j: Location| #[trigger] writes_variable(mir, target, sess, j) ==> j == l,
    ensures
        local_spans_nest(mir, target, sess),
        innermost_write(mir, target, sess, l),
{
}

/// A computation that is the only one around a span is what the search comes down to.
pub proof fn law_only_value(mir: &Body, target: Span, sess: &Session, l: Location)
    requires
        computes_value(mir, target, sess, l),
        forall|j: Location| #[trigger] computes_value(mir, target, sess, j) ==> j == l,
    ensures
        value_spans_nest(mir, target, sess),
        innermost_value(mir, target, sess, l),
{
}

/// Two writes narrow down exactly when their spans are not the same and the range of one lies
/// within that of the other.
pub proof fn law_two_writes(mir: &Body, target: Span, sess: &Session, a: Location, b: Location)
    requires
        writes_variable(mir, target, sess, a),
        writes_variable(mir, target, sess, b),
        a != b,
        forall|j: Location| #[trigger] writes_variable(mir, target, sess, j) ==> j == a || j == b,
    ensures
        local_spans_nest(mir, target, sess) <==> mir.span_at(a) != mir.span_at(b) && (mir.span_at(
            a,
        ).lo <= mir.span_at(b).lo && mir.span_at(b).hi <= mir.span_at(a).hi || mir.span_at(b).lo
            <= mir.span_at(a).lo && mir.span_at(a).hi <= mir.span_at(b).hi),
{
    let writes = variable_writes(mir, target, sess);
    let (first, last) = if visited_before(a, b) {
        (a, b)
    } else {
        (b, a)
    };
    assert(visited_before(first, last));
    assert(writes.contains(first) && writes.contains(last));
    assert(seen_before(writes, last).contains(first));
    assert(holds_no_later(mir, seen_before(writes, last), first));
}

/// Two computations narrow down exactly when their spans are not the same and the range of one
/// lies within that of the other, or their spans are the same and they stand in one block, or
/// the later one can run and the block of one of them dominates that of the other.
pub proof fn law_two_values(mir: &Body, target: Span, sess: &Session, a: Location, b: Location)
    requires
        computes_value(mir, target, sess, a),
        computes_value(mir, target, sess, b),
        a.block < b.block || a.block == b.block && a.statement_index < b.statement_index,
        forall|j: Location| #[trigger] computes_value(mir, target, sess, j) ==> j == a || j == b,
    ensures
        value_spans_nest(mir, target, sess) <==> {
            ||| mir.span_at(a) != mir.span_at(b) && (mir.span_at(a).lo <= mir.span_at(b).lo
                && mir.span_at(b).hi <= mir.span_at(a).hi || mir.span_at(b).lo <= mir.span_at(a).lo
                && mir.span_at(a).hi <= mir.span_at(b).hi)
            ||| mir.span_at(a) == mir.span_at(b) && (a.block == b.block || reaches(
                mir.cfg(),
                START_BLOCK,
                b.block,
            ) && (dominates(mir.cfg(), a.block, b.block) || dominates(
                mir.cfg(),
                b.block,
                a.block,
            )))
        },
{
    let values = value_computations(mir, target, sess);
    assert(values.contains(a) && values.contains(b));
    assert(seen_before(values, b).contains(a));
    assert(outranks(mir, seen_before(values, b), a));
}

/// Wherever the writes narrow down, each is nested with the innermost of those that stand before
/// it: their spans are not the same, and the range of one lies within that of the other.
pub proof fn law_writes_nest_by_range(
    mir: &Body,
    target: Span,
    sess: &Session,
    k: Location,
    m: Location,
)
    requires
        local_spans_nest(mir, target, sess),
        writes_variable(mir, target, sess, k),
        writes_variable(mir, target, sess, m),
        m.block < k.block || m.block == k.block && m.statement_index < k.statement_index,
        forall|j: Location|
            #[trigger] writes_variable(mir, target, sess, j) && (j.block < k.block || j.block
                == k.block && j.statement_index < k.statement_index) ==> {
                &&& mir.span_at(j).lo <= mir.span_at(m).lo
                &&& mir.span_at(m).hi <= mir.span_at(j).hi
                &&& mir.span_at(j).lo == mir.span_at(m).lo && mir.span_at(j).hi == mir.span_at(m).hi
                    ==> j.block < m.block || j.block == m.block && j.statement_index
                    <= m.statement_index
            },
    ensures
        mir.span_at(m) != mir.span_at(k),
        mir.span_at(m).lo <= mir.span_at(k).lo && mir.span_at(k).hi <= mir.span_at(m).hi
            || mir.span_at(k).lo <= mir.span_at(m).lo && mir.span_at(m).hi <= mir.span_at(k).hi,
{
    let writes = variable_writes(mir, target, sess);
    let seen = seen_before(writes, k);
    assert(writes.contains(k));
    assert forall|j: Location| #[trigger] seen.contains(j) implies mir.span_at(j).contains(
        mir.span_at(m),
    ) && (visited_before(m, j) ==> !mir.span_at(m).contains(mir.span_at(j))) by {
        assert(writes_variable(mir, target, sess, j));
    }
    assert(holds_no_later(mir, seen, m));
}

/// The writes narrow down wherever each is nested with the innermost of those that stand before
/// it: their spans are not the same, and the range of one lies within that of the other. Others
/// of those that stand before it need not be.
pub proof fn law_writes_narrow_down_by_range(mir: &Body, target: Span, sess: &Session)
    requires
        forall|k: Location, m: Location|
            #![trigger writes_variable(mir, target, sess, k), writes_variable(mir, target, sess, m)]
            writes_variable(mir, target, sess, k) && writes_variable(mir, target, sess, m) && (
            m.block < k.block || m.block == k.block && m.statement_index < k.statement_index) && (
            forall|j: Location|
                #[trigger] writes_variable(mir, target, sess, j) && (j.block < k.block || j.block
                    == k.block && j.statement_index < k.statement_index) ==> {
                    &&& mir.span_at(j).lo <= mir.span_at(m).lo
                    &&& mir.span_at(m).hi <= mir.span_at(j).hi
                    &&& mir.span_at(j).lo == mir.span_at(m).lo && mir.span_at(j).hi == mir.span_at(
                        m,
                    ).hi ==> j.block < m.block || j.block == m.block && j.statement_index
                        <= m.statement_index
                }) ==> mir.span_at(m) != mir.span_at(k) && (mir.span_at(m).lo <= mir.span_at(k).lo
                && mir.span_at(k).hi <= mir.span_at(m).hi || mir.span_at(k).lo <= mir.span_at(m).lo
                && mir.span_at(m).hi <= mir.span_at(k).hi),
    ensures
        local_spans_nest(mir, target, sess),
{
    let writes = variable_writes(mir, target, sess);
    assert forall|k: Location, m: Location|
        #![trigger writes.contains(k), holds_no_later(mir, seen_before(writes, k), m)]
        writes.contains(k) && holds_no_later(mir, seen_before(writes, k), m) implies nested(
        mir.span_at(m),
        mir.span_at(k),
    ) by {
        let seen = seen_before(writes, k);
        assert(seen.contains(m));
        assert(writes_variable(mir, target, sess, k) && writes_variable(mir, target, sess, m));
        assert forall|j: Location|
            #[trigger] writes_variable(mir, target, sess, j) && (j.block < k.block || j.block
                == k.block && j.statement_index < k.statement_index) implies {
            &&& mir.span_at(j).lo <= mir.span_at(m).lo
            &&& mir.span_at(m).hi <= mir.span_at(j).hi
            &&& mir.span_at(j).lo == mir.span_at(m).lo && mir.span_at(j).hi == mir.span_at(m).hi
                ==> j.block < m.block || j.block == m.block && j.statement_index <= m.statement_index
        } by {
            assert(seen.contains(j));
        }
    }
}

/// Told by ranges and places, when a computation outranks those of a set: it is one of them, and
/// its range lies within that of each. Another span with its range stands only in an earlier
/// block, or earlier in its block. One with its very span dominates it, unless another span
/// with the range stands later than that one.
pub proof fn law_outranks_by_range(mir: &Body, s: Set<Location>, m: Location)
    ensures
        outranks(mir, s, m) <==> s.contains(m) && forall|j: Location| #[trigger]
            s.contains(j) ==> {
                let a = mir.span_at(j);
                let b = mir.span_at(m);
                &&& a.lo <= b.lo && b.hi <= a.hi
                &&& a != b && a.lo == b.lo && a.hi == b.hi ==> j.block < m.block || j.block
                    == m.block && j.statement_index < m.statement_index
                &&& a == b && j != m ==> location_dominates(mir.cfg(), j, m) || exists|d: Location|
                    #[trigger] s.contains(d) && mir.span_at(d) != b && mir.span_at(d).lo == b.lo
                        && mir.span_at(d).hi == b.hi && (j.block < d.block || j.block == d.block
                        && j.statement_index < d.statement_index)
            },
{
    if s.contains(m) && forall|j: Location| #[trigger]
        s.contains(j) ==> {
            let a = mir.span_at(j);
            let b = mir.span_at(m);
            &&& a.lo <= b.lo && b.hi <= a.hi
            &&& a != b && a.lo == b.lo && a.hi == b.hi ==> j.block < m.block || j.block == m.block
                && j.statement_index < m.statement_index
            &&& a == b && j != m ==> location_dominates(mir.cfg(), j, m) || exists|d: Location|
                #[trigger] s.contains(d) && mir.span_at(d) != b && mir.span_at(d).lo == b.lo
                    && mir.span_at(d).hi == b.hi && (j.block < d.block || j.block == d.block
                    && j.statement_index < d.statement_index)
        } {
        assert forall|j: Location| #[trigger]
            s.contains(j) && mir.span_at(j) == mir.span_at(m) && j != m implies location_dominates(
            mir.cfg(),
            j,
            m,
        ) || superseded(mir, s, j, m) by {
            if !location_dominates(mir.cfg(), j, m) {
                let d = choose|d: Location|
                    #[trigger] s.contains(d) && mir.span_at(d) != mir.span_at(m) && mir.span_at(d).lo
                        == mir.span_at(m).lo && mir.span_at(d).hi == mir.span_at(m).hi && (j.block
                        < d.block || j.block == d.block && j.statement_index < d.statement_index);
                assert(s.contains(d) && visited_before(j, d));
            }
        }
    }
}

/// Wherever the computations narrow down, each is ordered with the one that outranks all that
/// stand before it: their spans are not the same and the range of one lies within that of the
/// other, or their spans are the same and they stand in one block, or the later one can run and
/// the block of one of them dominates that of the other.
pub proof fn law_values_ordered_by_range(
    mir: &Body,
    target: Span,
    sess: &Session,
    k: Location,
    m: Location,
    before: Set<Location>,
)
    requires
        value_spans_nest(mir, target, sess),
        computes_value(mir, target, sess, k),
        forall|j: Location| #[trigger]
            before.contains(j) <==> computes_value(mir, target, sess, j) && (j.block < k.block
                || j.block == k.block && j.statement_index < k.statement_index),
        outranks(mir, before, m),
    ensures
        ({
            ||| mir.span_at(m) != mir.span_at(k) && (mir.span_at(m).lo <= mir.span_at(k).lo
                && mir.span_at(k).hi <= mir.span_at(m).hi || mir.span_at(k).lo <= mir.span_at(m).lo
                && mir.span_at(m).hi <= mir.span_at(k).hi)
            ||| mir.span_at(m) == mir.span_at(k) && (m.block == k.block || reaches(
                mir.cfg(),
                START_BLOCK,
                k.block,
            ) && (dominates(mir.cfg(), m.block, k.block) || dominates(
                mir.cfg(),
                k.block,
                m.block,
            )))
        }),
{
    let values = value_computations(mir, target, sess);
    assert(values.contains(k));
    assert(seen_before(values, k) =~= before);
}

/// The computations narrow down wherever each is ordered so with the one that outranks all that
/// stand before it. Others of those that stand before it need not be.
pub proof fn law_values_narrow_down_by_range(mir: &Body, target: Span, sess: &Session)
    requires
        forall|k: Location, m: Location, before: Set<Location>|
            #![trigger computes_value(mir, target, sess, k), outranks(mir, before, m)]
            computes_value(mir, target, sess, k) && (forall|j: Location| #[trigger]
                before.contains(j) <==> computes_value(mir, target, sess, j) && (j.block < k.block
                    || j.block == k.block && j.statement_index < k.statement_index)) && outranks(
                mir,
                before,
                m,
            ) ==> {
                ||| mir.span_at(m) != mir.span_at(k) && (mir.span_at(m).lo <= mir.span_at(k).lo
                    && mir.span_at(k).hi <= mir.span_at(m).hi || mir.span_at(k).lo <= mir.span_at(
                    m,
                ).lo && mir.span_at(m).hi <= mir.span_at(k).hi)
                ||| mir.span_at(m) == mir.span_at(k) && (m.block == k.block || reaches(
                    mir.cfg(),
                    START_BLOCK,
                    k.block,
                ) && (dominates(mir.cfg(), m.block, k.block) || dominates(
                    mir.cfg(),
                    k.block,
                    m.block,
                )))
            },
    ensures
        value_spans_nest(mir, target, sess),
{
    let values = value_computations(mir, target, sess);
    assert forall|k: Location, m: Location|
        #![trigger values.contains(k), outranks(mir, seen_before(values, k), m)]
        values.contains(k) && outranks(mir, seen_before(values, k), m) implies ordered(mir, m, k) by {
        let before = seen_before(values, k);
        assert(computes_value(mir, target, sess, k));
        assert(forall|j: Location| #[trigger]
            before.contains(j) <==> computes_value(mir, target, sess, j) && (j.block < k.block
                || j.block == k.block && j.statement_index < k.statement_index));
        assert(outranks(mir, before, m));
    }
}

} // verus!
