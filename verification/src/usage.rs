//! Where a local is used, and whether a reinitialisation governs all that comes after it.

use vstd::prelude::*;
use crate::graph::{Dominators, reachable_blocks};
use crate::graph::{edge, enterable, leads, leads_from, location_dominates, may_follow};
use crate::graph::lemma_follower_is_enterable;
use crate::graph::{reaches, reaches_from};
use crate::mir::{BasicBlock, Body, Cfg, Local, LocalUse, Location, MutatingUseContext, Mutability};
use crate::mir::PlaceContext;
use crate::mir::START_BLOCK;

verus! {

/// Whether a mention of a local calls for a mutable variable. That a variable is dropped
/// does not.
pub open spec fn mutability_of(context: PlaceContext) -> Mutability {
    match context {
        PlaceContext::NonMutatingUse => Mutability::Not,
        PlaceContext::NonUse => Mutability::Not,
        PlaceContext::MutatingUse(MutatingUseContext::Drop) => Mutability::Not,
        PlaceContext::MutatingUse(MutatingUseContext::Other) => Mutability::Mut,
    }
}

/// The body mentions `local` at `usage.0`, with the mutability `usage.1`.
pub open spec fn is_usage(body: &Body, local: Local, usage: (Location, Mutability)) -> bool {
    exists|i: int|
        #![trigger body.local_uses@[i]]
        0 <= i < body.local_uses@.len() && body.local_uses@[i].local == local
            && body.local_uses@[i].location == usage.0 && mutability_of(
            body.local_uses@[i].context,
        ) == usage.1
}

fn usage_mutability(context: PlaceContext) -> (r: Mutability)
    ensures
        r == mutability_of(context),
{
    match context {
        PlaceContext::NonMutatingUse
        | PlaceContext::NonUse
        | PlaceContext::MutatingUse(MutatingUseContext::Drop) => Mutability::Not,
        PlaceContext::MutatingUse(_) => Mutability::Mut,
    }
}

fn is_listed(uses: &Vec<(Location, Mutability)>, location: Location, mutability: Mutability) -> (r:
    bool)
    ensures
        r == uses@.contains((location, mutability)),
{
    let mut i: usize = 0;
    while i < uses.len()
        invariant
            i <= uses@.len(),
            forall|j: int| 0 <= j < i ==> uses@[j] != (location, mutability),
        decreases uses.len() - i,
    {
        if uses[i].0 == location && uses[i].1 == mutability {
            assert(uses@[i as int] == (location, mutability));
            return true;
        }
        i += 1;
    }
    false
}

/// Lists the usages of `local`, each once.
pub fn find_usage(body: &Body, local: Local) -> (uses: Vec<(Location, Mutability)>)
    ensures
        uses@.no_duplicates(),
        forall|u: (Location, Mutability)| #[trigger]
            uses@.contains(u) <==> is_usage(body, local, u),
        forall|i: int|
            0 <= i < body.local_uses@.len() && (#[trigger] body.local_uses@[i]).local == local
                ==> uses@.contains(
                (
                    body.local_uses@[i].location,
                    if body.local_uses@[i].context is MutatingUse && body.local_uses@[i].context
                        != PlaceContext::MutatingUse(MutatingUseContext::Drop) {
                        Mutability::Mut
                    } else {
                        Mutability::Not
                    },
                ),
            ),
        forall|k: int|
            0 <= k < uses@.len() ==> exists|i: int|
                0 <= i < body.local_uses@.len() && (#[trigger] body.local_uses@[i]).local == local
                    && body.local_uses@[i].location == (#[trigger] uses@[k]).0 && (uses@[k].1
                    == Mutability::Mut <==> body.local_uses@[i].context is MutatingUse
                    && body.local_uses@[i].context != PlaceContext::MutatingUse(
                    MutatingUseContext::Drop,
                )),
{
    let mut uses: Vec<(Location, Mutability)> = Vec::new();
    let mut i: usize = 0;
    while i < body.local_uses.len()
        invariant
            i <= body.local_uses@.len(),
            uses@.no_duplicates(),
            forall|k: int| 0 <= k < uses@.len() ==> is_usage(body, local, #[trigger] uses@[k]),
            forall|k: int|
                0 <= k < i && (#[trigger] body.local_uses@[k]).local == local ==> uses@.contains(
                    (body.local_uses@[k].location, mutability_of(body.local_uses@[k].context)),
                ),
        decreases body.local_uses.len() - i,
    {
        let mention = body.local_uses[i];
        if mention.local == local {
            let mutability = usage_mutability(mention.context);
            let ghost usage = (mention.location, mutability);
            if !is_listed(&uses, mention.location, mutability) {
                let ghost before = uses@;
                uses.push((mention.location, mutability));
                proof {
                    assert(body.local_uses@[i as int] == mention);
                    assert(is_usage(body, local, usage));
                    assert(uses@[before.len() as int] == usage);
                    assert forall|u: (Location, Mutability)| before.contains(
                        u,
                    ) implies #[trigger] uses@.contains(u) by {
                        let k = choose|k: int| 0 <= k < before.len() && before[k] == u;
                        assert(uses@[k] == u);
                    }
                }
            }
        }
        i += 1;
    }
    assert forall|u: (Location, Mutability)| #[trigger] uses@.contains(u) <==> is_usage(
        body,
        local,
        u,
    ) by {
        if is_usage(body, local, u) {
            let k = choose|k: int|
                #![trigger body.local_uses@[k]]
                0 <= k < body.local_uses@.len() && body.local_uses@[k].local == local
                    && body.local_uses@[k].location == u.0 && mutability_of(
                    body.local_uses@[k].context,
                ) == u.1;
            assert(uses@.contains(
                (body.local_uses@[k].location, mutability_of(body.local_uses@[k].context)),
            ));
        }
    }
    assert forall|k: int| 0 <= k < uses@.len() implies is_usage(body, local, #[trigger] uses@[k]) by {
        assert(uses@.contains(uses@[k]));
    }
    uses
}

/// Control may come to `l` after it has left `start`.
pub open spec fn runs_later(g: Cfg, start: Location, l: Location) -> bool {
    ||| may_follow(g, start.block, l.block)
    ||| l.block == start.block && l.statement_index > start.statement_index
}

/// A usage of `local` outside of unwinding that control may come to after `start`.
pub open spec fn is_later_usage(
    mir: &Body,
    local: Local,
    start: Location,
    usage: (Location, Mutability),
) -> bool {
    is_usage(mir, local, usage) && !mir.unwinds(usage.0) && runs_later(mir.cfg(), start, usage.0)
}

/// `start` dominates every later usage of `local`.
pub open spec fn governs_all_usage(mir: &Body, local: Local, start: Location) -> bool {
    forall|u: (Location, Mutability)| #[trigger]
        is_later_usage(mir, local, start, u) ==> location_dominates(mir.cfg(), start, u.0)
}

/// Another location mutates `local` later than `start`.
pub open spec fn mutated_later(mir: &Body, local: Local, start: Location) -> bool {
    exists|u: (Location, Mutability)| #[trigger]
        is_later_usage(mir, local, start, u) && u.0 != start && u.1 == Mutability::Mut
}

/// Whether `start` dominates every later usage of `local` and, if so, whether a variable that
/// begins its life there has to be mutable.
pub open spec fn usage_verdict(mir: &Body, local: Local, start: Location) -> Option<Mutability> {
    if !governs_all_usage(mir, local, start) {
        None
    } else if mutated_later(mir, local, start) {
        Some(Mutability::Mut)
    } else {
        Some(Mutability::Not)
    }
}

/// The blocks that use `local` after control has left the block of `start` can run.
pub open spec fn later_blocks_run(mir: &Body, local: Local, start: Location) -> bool {
    forall|u: (Location, Mutability)| #[trigger]
        is_usage(mir, local, u) && !mir.unwinds(u.0) && may_follow(
            mir.cfg(),
            start.block,
            u.0.block,
        ) && u.0.block != start.block ==> enterable(mir.cfg(), u.0.block)
}

/// Marks the blocks that control may come to after it has left `block`.
fn following_blocks(mir: &Body, block: BasicBlock) -> (r: Vec<bool>)
    requires
        mir.well_formed(),
        block < mir.basic_blocks@.len(),
    ensures
        r@.len() == mir.basic_blocks@.len(),
        forall|b: BasicBlock|
            b < r@.len() ==> (#[trigger] r@[b as int] <==> may_follow(mir.cfg(), block, b)),
{
    let successors = &mir.basic_blocks[block].terminator.successors;
    let ghost g = mir.cfg();
    assert forall|i: int| 0 <= i < successors@.len() implies #[trigger] successors@[i]
        < mir.basic_blocks@.len() by {
        assert(mir.basic_blocks@[block as int].terminator.successors@[i]
            < mir.basic_blocks@.len());
    }
    let r = reachable_blocks(mir, successors, None);
    proof {
        assert(g[block as int] == successors@);
        assert forall|b: BasicBlock| b < r@.len() implies (#[trigger] r@[b as int]
            <==> may_follow(g, block, b)) by {
            if reaches_from(g, successors@, b, None) {
                let p = choose|p: Seq<BasicBlock>| leads_from(g, p, successors@, b, None);
                assert(leads(g, p, p.first(), b));
                assert(p[0] < g.len());
                assert(edge(g, block, p.first()) && reaches(g, p.first(), b));
            }
            if may_follow(g, block, b) {
                let s = choose|s: BasicBlock| edge(g, block, s) && #[trigger] reaches(g, s, b);
                let p = choose|p: Seq<BasicBlock>| leads(g, p, s, b);
                assert(leads_from(g, p, successors@, b, None));
            }
        }
    }
    r
}

/// Every usage lies in the body.
proof fn lemma_usage_location(mir: &Body, local: Local, u: (Location, Mutability))
    requires
        mir.well_formed(),
        is_usage(mir, local, u),
    ensures
        mir.has_location(u.0),
{
}

/// Tells whether the blocks that use `local` after control has left the block of
/// `start_location` can run.
pub fn check_later_blocks(
    mir: &Body,
    dominators: &Dominators,
    local: Local,
    start_location: Location,
) -> (r: bool)
    requires
        mir.well_formed(),
        dominators.of(mir.cfg()),
        start_location.block < mir.basic_blocks@.len(),
    ensures
        r == later_blocks_run(mir, local, start_location),
{
    let following = following_blocks(mir, start_location.block);
    let uses = find_usage(mir, local);
    let mut i: usize = 0;
    while i < uses.len()
        invariant
            mir.well_formed(),
            dominators.of(mir.cfg()),
            start_location.block < mir.basic_blocks@.len(),
            following@.len() == mir.basic_blocks@.len(),
            forall|b: BasicBlock|
                b < following@.len() ==> (#[trigger] following@[b as int] <==> may_follow(
                    mir.cfg(),
                    start_location.block,
                    b,
                )),
            forall|u: (Location, Mutability)| #[trigger]
                uses@.contains(u) <==> is_usage(mir, local, u),
            i <= uses@.len(),
            forall|k: int|
                0 <= k < i && !mir.unwinds((#[trigger] uses@[k]).0) && may_follow(
                    mir.cfg(),
                    start_location.block,
                    uses@[k].0.block,
                ) && uses@[k].0.block != start_location.block ==> enterable(
                    mir.cfg(),
                    uses@[k].0.block,
                ),
        decreases uses.len() - i,
    {
        let location = uses[i].0;
        proof {
            assert(uses@.contains(uses@[i as int]));
            lemma_usage_location(mir, local, uses@[i as int]);
        }
        if !mir.basic_blocks[location.block].is_cleanup && following[location.block]
            && location.block != start_location.block && !dominators.is_reachable(location.block) {
            assert(is_usage(mir, local, uses@[i as int]));
            return false;
        }
        i += 1;
    }
    assert forall|u: (Location, Mutability)| #[trigger]
        is_usage(mir, local, u) && !mir.unwinds(u.0) && may_follow(
            mir.cfg(),
            start_location.block,
            u.0.block,
        ) && u.0.block != start_location.block implies enterable(mir.cfg(), u.0.block) by {
        assert(uses@.contains(u));
        let k = choose|k: int| 0 <= k < uses@.len() && uses@[k] == u;
        assert(uses@[k] == u);
    }
    true
}

/// Tells whether `start_location` dominates every later usage of `local`, and whether the
/// local is mutated later.
///
/// `None`: a later usage is not dominated. `Some(Mut)`: all are, and one of them mutates
/// the local. `Some(Not)`: all are, and none mutates it.
pub fn dominate_all_usage(
    mir: &Body,
    dominators: &Dominators,
    local: Local,
    start_location: Location,
) -> (r: Option<Mutability>)
    requires
        mir.well_formed(),
        dominators.of(mir.cfg()),
        start_location.block < mir.basic_blocks@.len(),
        later_blocks_run(mir, local, start_location),
    ensures
        r == usage_verdict(mir, local, start_location),
{
    let ghost g = mir.cfg();
    let following = following_blocks(mir, start_location.block);
    let uses = find_usage(mir, local);
    let mut res = Mutability::Not;
    let mut i: usize = 0;
    while i < uses.len()
        invariant
            mir.well_formed(),
            g == mir.cfg(),
            dominators.of(g),
            start_location.block < mir.basic_blocks@.len(),
            later_blocks_run(mir, local, start_location),
            following@.len() == mir.basic_blocks@.len(),
            forall|b: BasicBlock|
                b < following@.len() ==> (#[trigger] following@[b as int] <==> may_follow(
                    g,
                    start_location.block,
                    b,
                )),
            forall|u: (Location, Mutability)| #[trigger]
                uses@.contains(u) <==> is_usage(mir, local, u),
            i <= uses@.len(),
            forall|k: int|
                0 <= k < i && is_later_usage(mir, local, start_location, #[trigger] uses@[k])
                    ==> location_dominates(g, start_location, uses@[k].0),
            res == Mutability::Mut ==> mutated_later(mir, local, start_location),
            res == Mutability::Not ==> forall|k: int|
                0 <= k < i && is_later_usage(mir, local, start_location, #[trigger] uses@[k])
                    && uses@[k].0 != start_location ==> uses@[k].1 == Mutability::Not,
        decreases uses.len() - i,
    {
        let location = uses[i].0;
        let mutability = uses[i].1;
        let ghost usage = uses@[i as int];
        proof {
            assert(uses@.contains(usage));
            assert(is_usage(mir, local, usage));
            lemma_usage_location(mir, local, usage);
        }
        if !mir.basic_blocks[location.block].is_cleanup {
            if following[location.block] {
                assert(is_later_usage(mir, local, start_location, usage));
                if !start_location.dominates(location, dominators) {
                    return None;
                }
                if location != start_location && mutability == Mutability::Mut {
                    res = Mutability::Mut;
                }
            } else if location.block == start_location.block && location.statement_index
                > start_location.statement_index && mutability == Mutability::Mut {
                assert(is_later_usage(mir, local, start_location, usage));
                res = Mutability::Mut;
            }
        }
        i += 1;
    }
    proof {
        assert forall|u: (Location, Mutability)| #[trigger]
            is_later_usage(mir, local, start_location, u) implies exists|k: int|
            0 <= k < uses@.len() && uses@[k] == u by {
            assert(uses@.contains(u));
        }
    }
    Some(res)
}

// ---- when a reinitialisation does and does not govern --------------------------------

/// A reinitialisation that nothing comes after governs all later usage, and the variable
/// is not mutated later.
pub proof fn law_unused_is_governed(mir: &Body, local: Local, start: Location)
    requires
        forall|u: (Location, Mutability)| !#[trigger] is_later_usage(mir, local, start, u),
    ensures
        governs_all_usage(mir, local, start),
        !mutated_later(mir, local, start),
{
}

/// In a loop, a usage that stands before the reinitialisation in its block keeps the
/// reinitialisation from governing all later usage.
pub proof fn law_loop_usage_is_not_governed(
    mir: &Body,
    local: Local,
    start: Location,
    usage: (Location, Mutability),
)
    requires
        may_follow(mir.cfg(), start.block, start.block),
        is_usage(mir, local, usage),
        !mir.unwinds(usage.0),
        usage.0.block == start.block,
        usage.0.statement_index < start.statement_index,
    ensures
        !governs_all_usage(mir, local, start),
{
    assert(is_later_usage(mir, local, start, usage));
}

/// A later usage in another block that some path comes to past the reinitialisation keeps
/// the reinitialisation from governing all later usage.
pub proof fn law_bypassed_usage_is_not_governed(
    mir: &Body,
    local: Local,
    start: Location,
    usage: (Location, Mutability),
    p: Seq<BasicBlock>,
)
    requires
        is_later_usage(mir, local, start, usage),
        leads(mir.cfg(), p, START_BLOCK, usage.0.block),
        !p.contains(start.block),
    ensures
        !governs_all_usage(mir, local, start),
{
    assert(p[p.len() - 1] == usage.0.block);
    assert(usage.0.block != start.block);
}

/// What stands in blocks that only run while unwinding does not count: two bodies with the
/// same graph, the same unwinding blocks and the same usages of a local outside of them agree
/// on whether a reinitialisation can be judged, whether it governs all later usage, whether
/// the local is mutated later, and so on the verdict.
pub proof fn law_unwinding_does_not_count(a: &Body, b: &Body, local: Local, start: Location)
    requires
        a.well_formed(),
        b.well_formed(),
        a.cfg() == b.cfg(),
        forall|i: int|
            0 <= i < a.cfg().len() ==> (#[trigger] a.basic_blocks@[i]).is_cleanup
                == b.basic_blocks@[i].is_cleanup,
        forall|u: (Location, Mutability)|
            #![trigger is_usage(a, local, u)]
            #![trigger is_usage(b, local, u)]
            u.0.block < a.cfg().len() && !a.unwinds(u.0) ==> (is_usage(a, local, u) <==> is_usage(
                b,
                local,
                u,
            )),
    ensures
        later_blocks_run(a, local, start) <==> later_blocks_run(b, local, start),
        governs_all_usage(a, local, start) <==> governs_all_usage(b, local, start),
        mutated_later(a, local, start) <==> mutated_later(b, local, start),
        usage_verdict(a, local, start) == usage_verdict(b, local, start),
{
    assert(a.basic_blocks@.len() == a.cfg().len() && b.basic_blocks@.len() == b.cfg().len());
    assert forall|u: (Location, Mutability)|
        #![trigger is_usage(a, local, u)]
        #![trigger is_usage(b, local, u)]
        (is_usage(a, local, u) && !a.unwinds(u.0)) == (is_usage(b, local, u) && !b.unwinds(u.0)) by {
        if u.0.block < a.cfg().len() {
            assert(a.basic_blocks@[u.0.block as int].is_cleanup
                == b.basic_blocks@[u.0.block as int].is_cleanup);
        }
    }
    assert forall|u: (Location, Mutability)|
        #![trigger is_later_usage(a, local, start, u)]
        #![trigger is_later_usage(b, local, start, u)]
        is_later_usage(a, local, start, u) == is_later_usage(b, local, start, u) by {
    }
}

// ---- usage, told by the mentions ------------------------------------------------------

/// Each mention of a local is a usage of it, whatever stands where it is mentioned, and there
/// are no other usages. The usage mutates the local exactly when the mention does so other
/// than by a drop.
pub proof fn law_every_mention_is_a_usage(
    body: &Body,
    local: Local,
    location: Location,
    mutability: Mutability,
)
    ensures
        is_usage(body, local, (location, mutability)) <==> exists|i: int|
            0 <= i < body.local_uses@.len() && (#[trigger] body.local_uses@[i]).local == local
                && body.local_uses@[i].location == location && (mutability == Mutability::Mut
                <==> body.local_uses@[i].context is MutatingUse && body.local_uses@[i].context
                != PlaceContext::MutatingUse(MutatingUseContext::Drop)),
{
    if exists|i: int|
        0 <= i < body.local_uses@.len() && (#[trigger] body.local_uses@[i]).local == local
            && body.local_uses@[i].location == location && (mutability == Mutability::Mut
            <==> body.local_uses@[i].context is MutatingUse && body.local_uses@[i].context
            != PlaceContext::MutatingUse(MutatingUseContext::Drop)) {
        let i = choose|i: int|
            0 <= i < body.local_uses@.len() && (#[trigger] body.local_uses@[i]).local == local
                && body.local_uses@[i].location == location && (mutability == Mutability::Mut
                <==> body.local_uses@[i].context is MutatingUse && body.local_uses@[i].context
                != PlaceContext::MutatingUse(MutatingUseContext::Drop));
        assert(mutability_of(body.local_uses@[i].context) == mutability);
    }
}

/// What the blocks of a body hold does not matter to which usages it has: two bodies with the
/// same mentions have the same usages, whatever statements and terminators they are at.
pub proof fn law_usage_ignores_blocks(
    a: &Body,
    b: &Body,
    local: Local,
    usage: (Location, Mutability),
)
    requires
        a.local_uses@ == b.local_uses@,
    ensures
        is_usage(a, local, usage) == is_usage(b, local, usage),
{
}

/// The verdict goes by the mentions of the local that lie outside of unwinding and that control
/// may come to after the reinitialisation, at whatever statements and terminators they are. It
/// is in favour exactly when the reinitialisation dominates each of these, and then calls for
/// `mut` exactly when one of them, other than at the reinitialisation itself, mutates the local
/// other than by a drop.
pub proof fn law_verdict_by_mentions(mir: &Body, local: Local, start: Location)
    ensures
        usage_verdict(mir, local, start) is Some <==> forall|i: int|
            0 <= i < mir.local_uses@.len() && (#[trigger] mir.local_uses@[i]).local == local
                && !mir.basic_blocks@[mir.local_uses@[i].location.block as int].is_cleanup && (
            may_follow(mir.cfg(), start.block, mir.local_uses@[i].location.block)
                || mir.local_uses@[i].location.block == start.block
                && mir.local_uses@[i].location.statement_index > start.statement_index)
                ==> location_dominates(mir.cfg(), start, mir.local_uses@[i].location),
        usage_verdict(mir, local, start) == Some(Mutability::Mut) <==> usage_verdict(
            mir,
            local,
            start,
        ) is Some && exists|i: int|
            0 <= i < mir.local_uses@.len() && (#[trigger] mir.local_uses@[i]).local == local
                && !mir.basic_blocks@[mir.local_uses@[i].location.block as int].is_cleanup && (
            may_follow(mir.cfg(), start.block, mir.local_uses@[i].location.block)
                || mir.local_uses@[i].location.block == start.block
                && mir.local_uses@[i].location.statement_index > start.statement_index)
                && mir.local_uses@[i].location != start && mir.local_uses@[i].context
                == PlaceContext::MutatingUse(MutatingUseContext::Other),
{
    assert forall|i: int|
        0 <= i < mir.local_uses@.len() && (#[trigger] mir.local_uses@[i]).local
            == local implies is_usage(
        mir,
        local,
        (mir.local_uses@[i].location, mutability_of(mir.local_uses@[i].context)),
    ) by {}
    assert forall|i: int|
        0 <= i < mir.local_uses@.len() && (#[trigger] mir.local_uses@[i]).local == local
            && !mir.basic_blocks@[mir.local_uses@[i].location.block as int].is_cleanup && (may_follow(
            mir.cfg(),
            start.block,
            mir.local_uses@[i].location.block,
        ) || mir.local_uses@[i].location.block == start.block
            && mir.local_uses@[i].location.statement_index
            > start.statement_index) implies is_later_usage(
        mir,
        local,
        start,
        (mir.local_uses@[i].location, mutability_of(mir.local_uses@[i].context)),
    ) by {}
}

/// Mentions of other locals do not matter: two bodies with the same blocks in which a local is
/// mentioned in the same ways agree on the verdict on it.
pub proof fn law_other_locals_do_not_count(a: &Body, b: &Body, local: Local, start: Location)
    requires
        a.basic_blocks == b.basic_blocks,
        forall|u: LocalUse|
            u.local == local ==> (#[trigger] a.local_uses@.contains(u) <==> b.local_uses@.contains(u)),
    ensures
        usage_verdict(a, local, start) == usage_verdict(b, local, start),
        later_blocks_run(a, local, start) == later_blocks_run(b, local, start),
{
    assert(a.cfg() == b.cfg());
    assert forall|u: (Location, Mutability)|
        #![trigger is_usage(a, local, u)]
        #![trigger is_usage(b, local, u)]
        is_usage(a, local, u) == is_usage(b, local, u) by {
        if is_usage(a, local, u) {
            let i = choose|i: int|
                #![trigger a.local_uses@[i]]
                0 <= i < a.local_uses@.len() && a.local_uses@[i].local == local
                    && a.local_uses@[i].location == u.0 && mutability_of(a.local_uses@[i].context)
                    == u.1;
            assert(a.local_uses@.contains(a.local_uses@[i]));
            let k = choose|k: int|
                0 <= k < b.local_uses@.len() && b.local_uses@[k] == a.local_uses@[i];
            assert(b.local_uses@[k].local == local);
        }
        if is_usage(b, local, u) {
            let i = choose|i: int|
                #![trigger b.local_uses@[i]]
                0 <= i < b.local_uses@.len() && b.local_uses@[i].local == local
                    && b.local_uses@[i].location == u.0 && mutability_of(b.local_uses@[i].context)
                    == u.1;
            assert(b.local_uses@.contains(b.local_uses@[i]));
            assert(a.local_uses@.contains(b.local_uses@[i]));
            let k = choose|k: int|
                0 <= k < a.local_uses@.len() && a.local_uses@[k] == b.local_uses@[i];
            assert(a.local_uses@[k].local == local);
        }
    }
    assert forall|u: (Location, Mutability)|
        #![trigger is_later_usage(a, local, start, u)]
        #![trigger is_later_usage(b, local, start, u)]
        is_later_usage(a, local, start, u) == is_later_usage(b, local, start, u) by {}
}

/// Whether the verdict can be given at all goes by the mentions too: each mention of the local
/// in another block, outside of unwinding, that control may come to has to be in a block that
/// can run.
pub proof fn law_judged_by_mentions(mir: &Body, local: Local, start: Location)
    ensures
        later_blocks_run(mir, local, start) <==> forall|i: int|
            0 <= i < mir.local_uses@.len() && (#[trigger] mir.local_uses@[i]).local == local
                && !mir.basic_blocks@[mir.local_uses@[i].location.block as int].is_cleanup
                && mir.local_uses@[i].location.block != start.block && may_follow(
                mir.cfg(),
                start.block,
                mir.local_uses@[i].location.block,
            ) ==> reaches(mir.cfg(), START_BLOCK, mir.local_uses@[i].location.block),
{
    assert forall|i: int|
        0 <= i < mir.local_uses@.len() && (#[trigger] mir.local_uses@[i]).local
            == local implies is_usage(
        mir,
        local,
        (mir.local_uses@[i].location, mutability_of(mir.local_uses@[i].context)),
    ) by {}
}

/// A reinitialisation that can run can always be judged.
pub proof fn law_runnable_is_judged(mir: &Body, local: Local, start: Location)
    requires
        mir.well_formed(),
        enterable(mir.cfg(), start.block),
    ensures
        later_blocks_run(mir, local, start),
{
    assert forall|u: (Location, Mutability)| #[trigger]
        is_usage(mir, local, u) && !mir.unwinds(u.0) && may_follow(
            mir.cfg(),
            start.block,
            u.0.block,
        ) && u.0.block != start.block implies enterable(mir.cfg(), u.0.block) by {
        lemma_follower_is_enterable(mir.cfg(), start.block, u.0.block);
    }
}

/// A mention outside of unwinding, in another block, that control may come to after the
/// reinitialisation and that a path comes to past it, rules the reinitialisation out: whatever
/// statement or terminator mentions the local, and in whatever way.
pub proof fn law_bypassed_mention_rules_out(
    mir: &Body,
    local: Local,
    start: Location,
    i: int,
    p: Seq<BasicBlock>,
)
    requires
        0 <= i < mir.local_uses@.len(),
        mir.local_uses@[i].local == local,
        !mir.basic_blocks@[mir.local_uses@[i].location.block as int].is_cleanup,
        may_follow(mir.cfg(), start.block, mir.local_uses@[i].location.block),
        leads(mir.cfg(), p, START_BLOCK, mir.local_uses@[i].location.block),
        !p.contains(start.block),
    ensures
        usage_verdict(mir, local, start) is None,
{
    let usage = (mir.local_uses@[i].location, mutability_of(mir.local_uses@[i].context));
    assert(is_later_usage(mir, local, start, usage));
    law_bypassed_usage_is_not_governed(mir, local, start, usage, p);
}

} // verus!
