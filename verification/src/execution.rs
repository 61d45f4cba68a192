//! What the graph says of a body, told over its runs: the sequences of locations that
//! control may go through, one after the other.

use vstd::prelude::*;
use crate::graph::{edge, enterable, leads, location_dominates, may_follow, reaches};
use crate::graph::{is_path, lemma_extend, lemma_follower_is_enterable, lemma_prefix};
use crate::mir::{BasicBlock, Body, Local, Location, Mutability, START_BLOCK};
use crate::usage::{governs_all_usage, is_later_usage, is_usage, mutated_later, runs_later};

verus! {

/// The location that a body is entered at.
pub open spec fn entry() -> Location {
    Location { block: START_BLOCK, statement_index: 0 }
}

/// The location of the terminator of a block.
pub open spec fn terminator_of(mir: &Body, b: BasicBlock) -> Location {
    Location {
        block: b,
        statement_index: mir.basic_blocks@[b as int].statements.len(),
    }
}

/// Control may go from `a` to `b` in one step: to the next statement of the block, or from
/// its terminator to the first statement of a successor.
pub open spec fn steps(mir: &Body, a: Location, b: Location) -> bool {
    ||| a.block == b.block && b.statement_index == a.statement_index + 1
    ||| a == terminator_of(mir, a.block) && b.statement_index == 0 && edge(
        mir.cfg(),
        a.block,
        b.block,
    )
}

/// `r` is a nonempty sequence of locations of the body, each a step after the one before.
pub open spec fn is_run(mir: &Body, r: Seq<Location>) -> bool {
    &&& r.len() > 0
    &&& forall|i: int| 0 <= i < r.len() ==> mir.has_location(#[trigger] r[i])
    &&& forall|i: int| #![trigger r[i]] 0 <= i < r.len() - 1 ==> steps(mir, r[i], r[i + 1])
}

/// `r` is a run from `a` to `b`.
pub open spec fn runs(mir: &Body, r: Seq<Location>, a: Location, b: Location) -> bool {
    is_run(mir, r) && r.first() == a && r.last() == b
}

/// Some run goes on from `a` and comes to `b`.
pub open spec fn comes_to(mir: &Body, a: Location, b: Location) -> bool {
    exists|r: Seq<Location>| #[trigger] runs(mir, r, a, b) && r.len() > 1
}

/// Every run that enters the body and comes to `b` has gone through `a`.
pub open spec fn always_after(mir: &Body, a: Location, b: Location) -> bool {
    forall|r: Seq<Location>| #[trigger] runs(mir, r, entry(), b) ==> r.contains(a)
}

// ---- runs --------------------------------------------------------------------------

proof fn lemma_run_extend(mir: &Body, r: Seq<Location>, l: Location)
    requires
        is_run(mir, r),
        mir.has_location(l),
        steps(mir, r.last(), l),
    ensures
        runs(mir, r.push(l), r.first(), l),
{
    let q = r.push(l);
    assert forall|k: int| #![trigger q[k]] 0 <= k < q.len() - 1 implies steps(
        mir,
        q[k],
        q[k + 1],
    ) by {
        assert(q[k] == r[k]);
        if k + 1 < r.len() {
            assert(q[k + 1] == r[k + 1]);
        }
    }
}

proof fn lemma_run_prefix(mir: &Body, r: Seq<Location>, i: int)
    requires
        is_run(mir, r),
        0 <= i < r.len(),
    ensures
        runs(mir, r.take(i + 1), r.first(), r[i]),
{
    let q = r.take(i + 1);
    assert forall|k: int| #![trigger q[k]] 0 <= k < q.len() - 1 implies steps(
        mir,
        q[k],
        q[k + 1],
    ) by {
        assert(q[k] == r[k] && q[k + 1] == r[k + 1]);
    }
}

proof fn lemma_run_join(mir: &Body, p: Seq<Location>, q: Seq<Location>)
    requires
        is_run(mir, p),
        is_run(mir, q),
        steps(mir, p.last(), q.first()),
    ensures
        runs(mir, p + q, p.first(), q.last()),
{
    let r = p + q;
    assert forall|k: int| #![trigger r[k]] 0 <= k < r.len() - 1 implies steps(
        mir,
        r[k],
        r[k + 1],
    ) by {
        if k + 1 < p.len() {
            assert(r[k] == p[k] && r[k + 1] == p[k + 1]);
        } else if k + 1 == p.len() {
            assert(r[k] == p.last() && r[k + 1] == q[0]);
        } else {
            let j = k - p.len();
            assert(r[k] == q[j] && r[k + 1] == q[j + 1]);
        }
    }
    assert(r.last() == q.last());
}

/// Within a block, control runs from any location to any later one.
proof fn lemma_run_within(mir: &Body, b: BasicBlock, i: usize, j: usize) -> (r: Seq<Location>)
    requires
        mir.has_location(Location { block: b, statement_index: j }),
        i <= j,
    ensures
        runs(
            mir,
            r,
            Location { block: b, statement_index: i },
            Location { block: b, statement_index: j },
        ),
        r.len() == j - i + 1,
    decreases j - i,
{
    if i == j {
        let r = seq![Location { block: b, statement_index: i }];
        assert(r.first() == r[0] && r.last() == r[0]);
        r
    } else {
        let k = (j - 1) as usize;
        let q = lemma_run_within(mir, b, i, k);
        let l = Location { block: b, statement_index: j };
        lemma_run_extend(mir, q, l);
        q.push(l)
    }
}

/// A run goes along any path: through all of its blocks, and through the last as far as
/// is asked.
proof fn lemma_run_along(mir: &Body, p: Seq<BasicBlock>, i: usize) -> (r: Seq<Location>)
    requires
        is_path(mir.cfg(), p),
        mir.has_location(Location { block: p.last(), statement_index: i }),
    ensures
        runs(
            mir,
            r,
            Location { block: p.first(), statement_index: 0 },
            Location { block: p.last(), statement_index: i },
        ),
        forall|k: int|
            0 <= k < r.len() ==> p.drop_last().contains((#[trigger] r[k]).block) || (r[k].block
                == p.last() && r[k].statement_index <= i),
    decreases p.len(), i,
{
    let l = Location { block: p.last(), statement_index: i };
    if i > 0 {
        let q = lemma_run_along(mir, p, (i - 1) as usize);
        lemma_run_extend(mir, q, l);
        let r = q.push(l);
        assert forall|k: int| 0 <= k < r.len() implies p.drop_last().contains(
            (#[trigger] r[k]).block,
        ) || (r[k].block == p.last() && r[k].statement_index <= i) by {
            if k < q.len() {
                assert(r[k] == q[k]);
            }
        }
        r
    } else if p.len() == 1 {
        let r = seq![l];
        assert(p.first() == p.last());
        assert(r.first() == r[0] && r.last() == r[0]);
        r
    } else {
        let m = p.len() - 2;
        let front = p.drop_last();
        lemma_prefix(mir.cfg(), p, m);
        assert(front =~= p.take(m + 1));
        assert(p[m] < mir.cfg().len());
        let t = terminator_of(mir, p[m]);
        assert(edge(mir.cfg(), p[m], p[m + 1]));
        let q = lemma_run_along(mir, front, t.statement_index);
        lemma_run_extend(mir, q, l);
        let r = q.push(l);
        assert forall|k: int| 0 <= k < r.len() implies p.drop_last().contains(
            (#[trigger] r[k]).block,
        ) || (r[k].block == p.last() && r[k].statement_index <= i) by {
            if k < q.len() {
                assert(r[k] == q[k]);
                if front.drop_last().contains(r[k].block) {
                    let j = choose|j: int|
                        0 <= j < front.drop_last().len() && front.drop_last()[j] == r[k].block;
                    assert(front[j] == r[k].block);
                } else {
                    assert(front[m] == r[k].block);
                }
            }
        }
        r
    }
}

/// A run goes along a path, all of whose blocks it meets.
proof fn lemma_path_of_run(mir: &Body, r: Seq<Location>) -> (p: Seq<BasicBlock>)
    requires
        is_run(mir, r),
    ensures
        leads(mir.cfg(), p, r.first().block, r.last().block),
        forall|j: int|
            0 <= j < p.len() ==> exists|i: int| 0 <= i < r.len() && (#[trigger] r[i]).block == #[trigger] p[j],
    decreases r.len(),
{
    assert(mir.has_location(r[r.len() - 1]));
    if r.len() == 1 {
        let p = seq![r[0].block];
        assert(p.first() == p[0] && p.last() == p[0]);
        assert(r.first() == r[0] && r.last() == r[0]);
        p
    } else {
        let m = r.len() - 2;
        let q = r.take(m + 1);
        lemma_run_prefix(mir, r, m);
        let p = lemma_path_of_run(mir, q);
        assert(steps(mir, r[m], r[m + 1]));
        let next = r[m + 1].block;
        let longer = if edge(mir.cfg(), r[m].block, next) {
            lemma_extend(mir.cfg(), p, next);
            p.push(next)
        } else {
            p
        };
        assert forall|j: int| 0 <= j < longer.len() implies exists|i: int|
            0 <= i < r.len() && (#[trigger] r[i]).block == #[trigger] longer[j] by {
            if j < p.len() {
                assert(longer[j] == p[j]);
                let i = choose|i: int| 0 <= i < q.len() && (#[trigger] q[i]).block == p[j];
                assert(r[i] == q[i]);
            } else {
                assert(r[m + 1].block == longer[j]);
            }
        }
        longer
    }
}

/// A run that enters the body has, of the block that it is in, gone through all that
/// stands before.
proof fn lemma_run_covers(mir: &Body, r: Seq<Location>, k: usize)
    requires
        is_run(mir, r),
        r.first().statement_index == 0,
        k <= r.last().statement_index,
    ensures
        r.contains(Location { block: r.last().block, statement_index: k }),
    decreases r.len(),
{
    let n = r.len() as int;
    assert(r[n - 1] == r.last());
    if k < r.last().statement_index {
        assert(r[0] == r.first());
        let q = r.take(n - 1);
        lemma_run_prefix(mir, r, n - 2);
        assert(steps(mir, r[n - 2], r[n - 1]));
        lemma_run_covers(mir, q, k);
        let i = choose|i: int|
            0 <= i < q.len() && q[i] == (Location { block: q.last().block, statement_index: k });
        assert(r[i] == q[i]);
    }
}

/// A run that is in a block and ends in another goes through the terminator of the first.
proof fn lemma_run_leaves(mir: &Body, r: Seq<Location>, i: int) -> (j: int)
    requires
        is_run(mir, r),
        0 <= i < r.len(),
        r[i].block != r.last().block,
    ensures
        i <= j < r.len(),
        r[j] == terminator_of(mir, r[i].block),
    decreases r.len() - i,
{
    assert(r[r.len() - 1] == r.last());
    assert(steps(mir, r[i], r[i + 1]));
    if r[i + 1].block == r[i].block {
        lemma_run_leaves(mir, r, i + 1)
    } else {
        i
    }
}

/// A path can be cut short where it first comes to its last block.
proof fn lemma_first_arrival(
    mir: &Body,
    p: Seq<BasicBlock>,
    a: BasicBlock,
    b: BasicBlock,
) -> (q: Seq<BasicBlock>)
    requires
        leads(mir.cfg(), p, a, b),
    ensures
        leads(mir.cfg(), q, a, b),
        !q.drop_last().contains(b),
    decreases p.len(),
{
    if p.drop_last().contains(b) {
        let i = choose|i: int| 0 <= i < p.drop_last().len() && p.drop_last()[i] == b;
        assert(p[i] == b);
        lemma_prefix(mir.cfg(), p, i);
        lemma_first_arrival(mir, p.take(i + 1), a, b)
    } else {
        p
    }
}

// ---- the laws ----------------------------------------------------------------------

/// One location runs later than another exactly when some run goes on from the other and
/// comes to it.
pub proof fn law_runs_later_means_a_run(mir: &Body, a: Location, b: Location)
    requires
        mir.well_formed(),
        mir.has_location(a),
        mir.has_location(b),
    ensures
        runs_later(mir.cfg(), a, b) <==> comes_to(mir, a, b),
{
    let g = mir.cfg();
    if runs_later(g, a, b) {
        if b.block == a.block && b.statement_index > a.statement_index {
            let r = lemma_run_within(mir, a.block, a.statement_index, b.statement_index);
            assert(runs(mir, r, a, b) && r.len() > 1);
        } else {
            let s = choose|s: BasicBlock| edge(g, a.block, s) && #[trigger] reaches(g, s, b.block);
            let p = choose|p: Seq<BasicBlock>| leads(g, p, s, b.block);
            let t = terminator_of(mir, a.block);
            let front = lemma_run_within(mir, a.block, a.statement_index, t.statement_index);
            let back = lemma_run_along(mir, p, b.statement_index);
            lemma_run_join(mir, front, back);
            assert(runs(mir, front + back, a, b));
        }
    }
    if comes_to(mir, a, b) {
        let r = choose|r: Seq<Location>| #[trigger] runs(mir, r, a, b) && r.len() > 1;
        lemma_run_stays_later(mir, r, r.len() - 1);
    }
}

proof fn lemma_run_stays_later(mir: &Body, r: Seq<Location>, k: int)
    requires
        is_run(mir, r),
        0 < k < r.len(),
    ensures
        runs_later(mir.cfg(), r.first(), r[k]),
    decreases k,
{
    let g = mir.cfg();
    let a = r.first();
    assert(steps(mir, r[k - 1], r[k]));
    let before = r[k - 1];
    let after = r[k];
    if k > 1 {
        lemma_run_stays_later(mir, r, k - 1);
    }
    if edge(g, before.block, after.block) && before.block == a.block {
        let p = seq![after.block];
        assert(p.first() == p[0] && p.last() == p[0]);
        assert(leads(g, p, after.block, after.block));
        assert(reaches(g, after.block, after.block));
    } else if edge(g, before.block, after.block) {
        let s = choose|s: BasicBlock| edge(g, a.block, s) && #[trigger] reaches(g, s, before.block);
        let p = choose|p: Seq<BasicBlock>| leads(g, p, s, before.block);
        lemma_extend(g, p, after.block);
        assert(reaches(g, s, after.block));
    }
}

/// Every run that comes to a location has gone through what dominates it.
proof fn lemma_dominator_is_met(mir: &Body, a: Location, b: Location, r: Seq<Location>)
    requires
        mir.has_location(a),
        location_dominates(mir.cfg(), a, b),
        runs(mir, r, entry(), b),
    ensures
        r.contains(a),
{
    if a.block == b.block {
        lemma_run_covers(mir, r, a.statement_index);
    } else {
        let p = lemma_path_of_run(mir, r);
        assert(p.contains(a.block));
        let j = choose|j: int| 0 <= j < p.len() && p[j] == a.block;
        let i = choose|i: int| 0 <= i < r.len() && (#[trigger] r[i]).block == p[j];
        let t = lemma_run_leaves(mir, r, i);
        lemma_run_prefix(mir, r, t);
        let q = r.take(t + 1);
        lemma_run_covers(mir, q, a.statement_index);
        let k = choose|k: int| 0 <= k < q.len() && q[k] == a;
        assert(r[k] == a);
    }
}

/// Some run comes to a location that can run and keeps clear of what does not dominate it.
proof fn lemma_run_without(mir: &Body, a: Location, b: Location) -> (r: Seq<Location>)
    requires
        mir.has_location(a),
        mir.has_location(b),
        enterable(mir.cfg(), b.block),
        !location_dominates(mir.cfg(), a, b),
    ensures
        runs(mir, r, entry(), b),
        !r.contains(a),
{
    let g = mir.cfg();
    let p = if a.block == b.block {
        let whole = choose|p: Seq<BasicBlock>| leads(g, p, START_BLOCK, b.block);
        lemma_first_arrival(mir, whole, START_BLOCK, b.block)
    } else {
        choose|p: Seq<BasicBlock>| #[trigger]
            leads(g, p, START_BLOCK, b.block) && !p.contains(a.block)
    };
    let r = lemma_run_along(mir, p, b.statement_index);
    if r.contains(a) {
        let k = choose|k: int| 0 <= k < r.len() && r[k] == a;
        assert(p.drop_last().contains(r[k].block) || (r[k].block == p.last()
            && r[k].statement_index <= b.statement_index));
        if p.drop_last().contains(a.block) {
            let j = choose|j: int| 0 <= j < p.drop_last().len() && p.drop_last()[j] == a.block;
            assert(p[j] == a.block);
        } else {
            assert(p[p.len() - 1] == a.block);
        }
    }
    r
}

/// Of a location that can run, the locations that dominate it are exactly those that every
/// run of the body goes through before it comes there.
pub proof fn law_dominance_means_every_run(mir: &Body, a: Location, b: Location)
    requires
        mir.well_formed(),
        mir.has_location(a),
        mir.has_location(b),
        enterable(mir.cfg(), b.block),
    ensures
        location_dominates(mir.cfg(), a, b) <==> always_after(mir, a, b),
{
    if location_dominates(mir.cfg(), a, b) {
        assert forall|r: Seq<Location>| #[trigger] runs(mir, r, entry(), b) implies r.contains(
            a,
        ) by {
            lemma_dominator_is_met(mir, a, b, r);
        }
    } else {
        let r = lemma_run_without(mir, a, b);
        assert(runs(mir, r, entry(), b));
    }
}

/// A reinitialisation governs all later usage exactly when no run of the body comes to a
/// usage, outside of unwinding, that can run after the reinitialisation without having gone
/// through the reinitialisation.
pub proof fn law_governing_means_every_run(mir: &Body, local: Local, start: Location)
    requires
        mir.well_formed(),
        mir.has_location(start),
        enterable(mir.cfg(), start.block),
    ensures
        governs_all_usage(mir, local, start) <==> forall|u: (Location, Mutability)|
            #[trigger] is_usage(mir, local, u) && !mir.unwinds(u.0) && comes_to(mir, start, u.0)
                ==> always_after(mir, start, u.0),
{
    let g = mir.cfg();
    assert forall|u: (Location, Mutability)| #[trigger] is_usage(mir, local, u) implies {
        &&& is_later_usage(mir, local, start, u) <==> !mir.unwinds(u.0) && comes_to(mir, start, u.0)
        &&& comes_to(mir, start, u.0) ==> (location_dominates(g, start, u.0) <==> always_after(
            mir,
            start,
            u.0,
        ))
    } by {
        law_runs_later_means_a_run(mir, start, u.0);
        if comes_to(mir, start, u.0) {
            if may_follow(g, start.block, u.0.block) {
                lemma_follower_is_enterable(g, start.block, u.0.block);
            }
            law_dominance_means_every_run(mir, start, u.0);
        }
    }
    if governs_all_usage(mir, local, start) {
        assert forall|u: (Location, Mutability)|
            #[trigger] is_usage(mir, local, u) && !mir.unwinds(u.0) && comes_to(
                mir,
                start,
                u.0,
            ) implies always_after(mir, start, u.0) by {
            assert(is_later_usage(mir, local, start, u));
        }
    }
}

/// A variable is mutated later exactly when some run goes on from the reinitialisation and
/// comes, outside of unwinding, to another location that mutates it.
pub proof fn law_mutation_means_a_run(mir: &Body, local: Local, start: Location)
    requires
        mir.well_formed(),
        mir.has_location(start),
    ensures
        mutated_later(mir, local, start) <==> exists|u: (Location, Mutability)| #[trigger]
            is_usage(mir, local, u) && !mir.unwinds(u.0) && comes_to(mir, start, u.0) && u.0 != start
                && u.1 == Mutability::Mut,
{
    assert forall|u: (Location, Mutability)| #[trigger] is_usage(mir, local, u) implies (
    is_later_usage(mir, local, start, u) <==> !mir.unwinds(u.0) && comes_to(mir, start, u.0)) by {
        law_runs_later_means_a_run(mir, start, u.0);
    }
    if mutated_later(mir, local, start) {
        let u = choose|u: (Location, Mutability)| #[trigger]
            is_later_usage(mir, local, start, u) && u.0 != start && u.1 == Mutability::Mut;
        assert(is_usage(mir, local, u));
    }
    if exists|u: (Location, Mutability)| #[trigger]
        is_usage(mir, local, u) && !mir.unwinds(u.0) && comes_to(mir, start, u.0) && u.0 != start
            && u.1 == Mutability::Mut {
        let u = choose|u: (Location, Mutability)| #[trigger]
            is_usage(mir, local, u) && !mir.unwinds(u.0) && comes_to(mir, start, u.0) && u.0 != start
                && u.1 == Mutability::Mut;
        assert(is_later_usage(mir, local, start, u));
    }
}

} // verus!
