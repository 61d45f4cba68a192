//! Paths through a control-flow graph, and the blocks that every path goes through.

use vstd::prelude::*;
use vstd::set_lib::*;
use crate::mir::{BasicBlock, Body, Cfg, Location, START_BLOCK};

verus! {

/// Control may go from `a` to `b` in one step.
pub open spec fn edge(g: Cfg, a: BasicBlock, b: BasicBlock) -> bool {
    a < g.len() && b < g.len() && g[a as int].contains(b)
}

/// `p` is a nonempty sequence of blocks, each a step after the one before it.
pub open spec fn is_path(g: Cfg, p: Seq<BasicBlock>) -> bool {
    &&& p.len() > 0
    &&& forall|i: int| 0 <= i < p.len() ==> #[trigger] p[i] < g.len()
    &&& forall|i: int| #![trigger p[i]] 0 <= i < p.len() - 1 ==> edge(g, p[i], p[i + 1])
}

/// `p` is a path from `a` to `b`.
pub open spec fn leads(g: Cfg, p: Seq<BasicBlock>, a: BasicBlock, b: BasicBlock) -> bool {
    is_path(g, p) && p.first() == a && p.last() == b
}

/// Control may go from `a` to `b` in any number of steps, none included.
pub open spec fn reaches(g: Cfg, a: BasicBlock, b: BasicBlock) -> bool {
    exists|p: Seq<BasicBlock>| leads(g, p, a, b)
}

/// The block can run at all.
pub open spec fn enterable(g: Cfg, b: BasicBlock) -> bool {
    reaches(g, START_BLOCK, b)
}

/// Control may go from `a` to `b` in one or more steps.
pub open spec fn may_follow(g: Cfg, a: BasicBlock, b: BasicBlock) -> bool {
    exists|s: BasicBlock| edge(g, a, s) && #[trigger] reaches(g, s, b)
}

/// `b` can run, and every path that enters the body and leads to `b` goes through `a`.
pub open spec fn dominates(g: Cfg, a: BasicBlock, b: BasicBlock) -> bool {
    &&& enterable(g, b)
    &&& forall|p: Seq<BasicBlock>| #[trigger] leads(g, p, START_BLOCK, b) ==> p.contains(a)
}

/// `a` stands before `b` in its block, or is `b`, or its block dominates the block of `b`.
pub open spec fn location_dominates(g: Cfg, a: Location, b: Location) -> bool {
    if a.block == b.block {
        a.statement_index <= b.statement_index
    } else {
        dominates(g, a.block, b.block)
    }
}

// ---- paths -------------------------------------------------------------------------

/// A path can be cut short after any of its blocks.
pub proof fn lemma_prefix(g: Cfg, p: Seq<BasicBlock>, i: int)
    requires
        is_path(g, p),
        0 <= i < p.len(),
    ensures
        leads(g, p.take(i + 1), p.first(), p[i]),
{
    let q = p.take(i + 1);
    assert forall|k: int| #![trigger q[k]] 0 <= k < q.len() - 1 implies edge(g, q[k], q[k + 1]) by {
        assert(q[k] == p[k] && q[k + 1] == p[k + 1]);
    }
}

/// One more step prolongs a path.
pub proof fn lemma_extend(g: Cfg, p: Seq<BasicBlock>, b: BasicBlock)
    requires
        is_path(g, p),
        edge(g, p.last(), b),
    ensures
        leads(g, p.push(b), p.first(), b),
{
    let q = p.push(b);
    assert forall|k: int| #![trigger q[k]] 0 <= k < q.len() - 1 implies edge(g, q[k], q[k + 1]) by {
        assert(q[k] == p[k]);
        if k + 1 < p.len() {
            assert(q[k + 1] == p[k + 1]);
        }
    }
}

/// Two paths that meet make one.
pub proof fn lemma_join(g: Cfg, p: Seq<BasicBlock>, q: Seq<BasicBlock>)
    requires
        is_path(g, p),
        is_path(g, q),
        p.last() == q.first(),
    ensures
        leads(g, p + q.skip(1), p.first(), q.last()),
{
    let r = p + q.skip(1);
    assert forall|k: int| #![trigger r[k]] 0 <= k < r.len() - 1 implies edge(g, r[k], r[k + 1]) by {
        if k + 1 < p.len() {
            assert(r[k] == p[k] && r[k + 1] == p[k + 1]);
        } else {
            let j = k + 1 - p.len();
            assert(r[k + 1] == q[j + 1]);
            if j == 0 {
                assert(r[k] == q[0]);
            } else {
                assert(r[k] == q[j]);
            }
        }
    }
    if q.len() == 1 {
        assert(r =~= p);
    } else {
        assert(r.last() == q.last());
    }
}

/// What is reached from a reached block is reached.
pub proof fn lemma_reaches_transitive(g: Cfg, a: BasicBlock, b: BasicBlock, c: BasicBlock)
    requires
        reaches(g, a, b),
        reaches(g, b, c),
    ensures
        reaches(g, a, c),
{
    let p = choose|p: Seq<BasicBlock>| leads(g, p, a, b);
    let q = choose|q: Seq<BasicBlock>| leads(g, q, b, c);
    lemma_join(g, p, q);
}

/// What may follow a block that can run can run.
pub proof fn lemma_follower_is_enterable(g: Cfg, a: BasicBlock, b: BasicBlock)
    requires
        enterable(g, a),
        may_follow(g, a, b),
    ensures
        enterable(g, b),
{
    let s = choose|s: BasicBlock| edge(g, a, s) && #[trigger] reaches(g, s, b);
    let p = choose|p: Seq<BasicBlock>| leads(g, p, START_BLOCK, a);
    lemma_extend(g, p, s);
    lemma_reaches_transitive(g, START_BLOCK, s, b);
}

// ---- dominance is a partial order --------------------------------------------------

/// A block that can run dominates itself.
pub proof fn law_dominates_reflexive(g: Cfg, a: BasicBlock)
    requires
        enterable(g, a),
    ensures
        dominates(g, a, a),
{
    assert forall|p: Seq<BasicBlock>| #[trigger] leads(g, p, START_BLOCK, a) implies p.contains(
        a,
    ) by {
        assert(p[p.len() - 1] == a);
    }
}

/// What dominates a dominator dominates.
pub proof fn law_dominates_transitive(g: Cfg, a: BasicBlock, b: BasicBlock, c: BasicBlock)
    requires
        dominates(g, a, b),
        dominates(g, b, c),
    ensures
        dominates(g, a, c),
{
    assert forall|p: Seq<BasicBlock>| #[trigger] leads(g, p, START_BLOCK, c) implies p.contains(
        a,
    ) by {
        let i = choose|i: int| 0 <= i < p.len() && p[i] == b;
        lemma_prefix(g, p, i);
        let q = p.take(i + 1);
        let j = choose|j: int| 0 <= j < q.len() && q[j] == a;
        assert(p[j] == a);
    }
}

/// No two blocks dominate each other.
pub proof fn law_dominates_antisymmetric(g: Cfg, a: BasicBlock, b: BasicBlock)
    requires
        dominates(g, a, b),
        dominates(g, b, a),
    ensures
        a == b,
{
    let p = choose|p: Seq<BasicBlock>| leads(g, p, START_BLOCK, a);
    lemma_mutual_dominance(g, a, b, p);
}

/// Blocks that dominate each other would each be met before the other on any path.
proof fn lemma_mutual_dominance(g: Cfg, a: BasicBlock, b: BasicBlock, p: Seq<BasicBlock>)
    requires
        dominates(g, a, b),
        dominates(g, b, a),
        leads(g, p, START_BLOCK, a),
    ensures
        a == b,
    decreases p.len(),
{
    if a != b {
        let i = choose|i: int| 0 <= i < p.len() && p[i] == b;
        lemma_prefix(g, p, i);
        let q = p.take(i + 1);
        let j = choose|j: int| 0 <= j < q.len() && q[j] == a;
        lemma_prefix(g, q, j);
        lemma_mutual_dominance(g, a, b, q.take(j + 1));
    }
}

/// What dominates a dominating location dominates.
pub proof fn law_location_dominates_transitive(g: Cfg, a: Location, b: Location, c: Location)
    requires
        location_dominates(g, a, b),
        location_dominates(g, b, c),
    ensures
        location_dominates(g, a, c),
{
    if a.block != b.block && b.block != c.block {
        if a.block == c.block {
            law_dominates_antisymmetric(g, a.block, b.block);
        } else {
            law_dominates_transitive(g, a.block, b.block, c.block);
        }
    }
}

/// No two locations dominate each other.
pub proof fn law_location_dominates_antisymmetric(g: Cfg, a: Location, b: Location)
    requires
        location_dominates(g, a, b),
        location_dominates(g, b, a),
    ensures
        a == b,
{
    if a.block != b.block {
        law_dominates_antisymmetric(g, a.block, b.block);
    }
}

// ---- walking the graph -------------------------------------------------------------

/// Does not go through the block, if there is one, that is out of bounds.
pub open spec fn avoids(p: Seq<BasicBlock>, avoid: Option<BasicBlock>) -> bool {
    avoid matches Some(x) ==> !p.contains(x)
}

/// `p` leads from one of `starts` to `b` and keeps out of `avoid`.
pub open spec fn leads_from(
    g: Cfg,
    p: Seq<BasicBlock>,
    starts: Seq<BasicBlock>,
    b: BasicBlock,
    avoid: Option<BasicBlock>,
) -> bool {
    is_path(g, p) && starts.contains(p.first()) && p.last() == b && avoids(p, avoid)
}

/// Control may go from one of `starts` to `b` and keep out of `avoid`.
pub open spec fn reaches_from(
    g: Cfg,
    starts: Seq<BasicBlock>,
    b: BasicBlock,
    avoid: Option<BasicBlock>,
) -> bool {
    exists|p: Seq<BasicBlock>| leads_from(g, p, starts, b, avoid)
}

/// Pairwise different numbers below `n` are at most `n`.
proof fn lemma_distinct_below(s: Seq<usize>, n: nat)
    requires
        s.no_duplicates(),
        forall|i: int| 0 <= i < s.len() ==> #[trigger] s[i] < n,
    ensures
        s.len() <= n,
{
    let t = s.map_values(|x: usize| x as int);
    assert(t.no_duplicates());
    t.unique_seq_to_set();
    lemma_int_range(0, n as int);
    assert(t.to_set().subset_of(set_int_range(0, n as int)));
    lemma_len_subset(t.to_set(), set_int_range(0, n as int));
}

/// What a walk has found so far: `queue` lists the marked blocks, each once and each
/// reached from `starts`.
spec fn walk_inv(
    g: Cfg,
    starts: Seq<BasicBlock>,
    avoid: Option<BasicBlock>,
    marked: Seq<bool>,
    queue: Seq<BasicBlock>,
) -> bool {
    &&& marked.len() == g.len()
    &&& queue.no_duplicates()
    &&& forall|i: int|
        0 <= i < queue.len() ==> #[trigger] queue[i] < g.len() && marked[queue[i] as int]
            && reaches_from(g, starts, queue[i], avoid)
    &&& forall|b: BasicBlock|
        b < g.len() && #[trigger] marked[b as int] ==> queue.contains(b)
}

/// Marks and lists `b`, unless that was done before or `b` is out of bounds.
fn discover(
    mir: &Body,
    marked: &mut Vec<bool>,
    queue: &mut Vec<BasicBlock>,
    b: BasicBlock,
    avoid: Option<BasicBlock>,
    Ghost(starts): Ghost<Seq<BasicBlock>>,
)
    requires
        walk_inv(mir.cfg(), starts, avoid, old(marked)@, old(queue)@),
        b < mir.cfg().len(),
        avoid != Some(b) ==> reaches_from(mir.cfg(), starts, b, avoid),
    ensures
        walk_inv(mir.cfg(), starts, avoid, final(marked)@, final(queue)@),
        forall|c: int| 0 <= c < old(marked)@.len() && old(marked)@[c] ==> final(marked)@[c],
        old(queue)@.is_prefix_of(final(queue)@),
        avoid != Some(b) ==> final(marked)@[b as int],
{
    let allowed = match avoid {
        Some(x) => x != b,
        None => true,
    };
    if allowed && !marked[b] {
        marked.set(b, true);
        queue.push(b);
        let ghost q = queue@;
        assert(q[q.len() - 1] == b);
        assert forall|c: BasicBlock| c < mir.cfg().len() && #[trigger] marked@[c as int] implies q.contains(
            c,
        ) by {
            if c != b {
                let i = choose|i: int| 0 <= i < old(queue)@.len() && old(queue)@[i] == c;
                assert(q[i] == c);
            }
        }
        assert(forall|i: int| 0 <= i < old(queue)@.len() ==> q[i] == old(queue)@[i]);
    }
}

/// A set of blocks that holds the allowed starts and every allowed next step holds all
/// that is reached.
proof fn lemma_closed_set_is_everything(
    g: Cfg,
    starts: Seq<BasicBlock>,
    avoid: Option<BasicBlock>,
    marked: Seq<bool>,
    p: Seq<BasicBlock>,
)
    requires
        marked.len() == g.len(),
        forall|i: int|
            0 <= i < starts.len() && avoid != Some(#[trigger] starts[i]) ==> marked[starts[i] as int],
        forall|b: BasicBlock, c: BasicBlock|
            #[trigger] edge(g, b, c) && marked[b as int] && avoid != Some(c) ==> marked[c as int],
        is_path(g, p),
        starts.contains(p.first()),
        avoids(p, avoid),
    ensures
        marked[p.last() as int],
    decreases p.len(),
{
    assert(p[p.len() - 1] == p.last());
    if p.len() > 1 {
        let q = p.take(p.len() - 1);
        lemma_prefix(g, p, p.len() - 2);
        if avoid is Some && q.contains(avoid->0) {
            let k = choose|k: int| 0 <= k < q.len() && q[k] == avoid->0;
            assert(p[k] == avoid->0);
        }
        lemma_closed_set_is_everything(g, starts, avoid, marked, q);
        assert(edge(g, p[p.len() - 2], p[p.len() - 1]));
    } else {
        assert(p[0] == p.first());
        let i = choose|i: int| 0 <= i < starts.len() && starts[i] == p.first();
        assert(starts[i] == p.last());
    }
}

/// Marks the blocks that control may go to from one of `starts` without entering `avoid`.
pub fn reachable_blocks(
    mir: &Body,
    starts: &Vec<BasicBlock>,
    avoid: Option<BasicBlock>,
) -> (r: Vec<bool>)
    requires
        mir.well_formed(),
        forall|i: int| 0 <= i < starts@.len() ==> #[trigger] starts@[i] < mir.basic_blocks@.len(),
    ensures
        r@.len() == mir.basic_blocks@.len(),
        forall|b: BasicBlock|
            b < r@.len() ==> (#[trigger] r@[b as int] <==> reaches_from(
                mir.cfg(),
                starts@,
                b,
                avoid,
            )),
{
    let ghost g = mir.cfg();
    let n: usize = mir.basic_blocks.len();
    let mut marked: Vec<bool> = Vec::new();
    while marked.len() < n
        invariant
            marked@.len() <= n,
            forall|b: int| 0 <= b < marked@.len() ==> !marked@[b],
        decreases n - marked.len(),
    {
        marked.push(false);
    }
    let mut queue: Vec<BasicBlock> = Vec::new();
    let mut i: usize = 0;
    while i < starts.len()
        invariant
            g == mir.cfg(),
            n == g.len(),
            i <= starts@.len(),
            forall|k: int| 0 <= k < starts@.len() ==> #[trigger] starts@[k] < n,
            walk_inv(g, starts@, avoid, marked@, queue@),
            forall|k: int|
                0 <= k < i && avoid != Some(#[trigger] starts@[k]) ==> marked@[starts@[k] as int],
        decreases starts.len() - i,
    {
        let s = starts[i];
        proof {
            if avoid != Some(s) {
                let p = seq![s];
                assert(p.first() == s && p.last() == s);
                assert(leads_from(g, p, starts@, s, avoid));
            }
        }
        discover(mir, &mut marked, &mut queue, s, avoid, Ghost(starts@));
        i += 1;
    }
    let mut next: usize = 0;
    proof {
        lemma_distinct_below(queue@, g.len());
    }
    while next < queue.len()
        invariant
            mir.well_formed(),
            g == mir.cfg(),
            n == g.len(),
            next <= queue@.len() <= n,
            walk_inv(g, starts@, avoid, marked@, queue@),
            forall|k: int| 0 <= k < starts@.len() ==> #[trigger] starts@[k] < n,
            forall|k: int|
                0 <= k < starts@.len() && avoid != Some(#[trigger] starts@[k])
                    ==> marked@[starts@[k] as int],
            forall|k: int, c: BasicBlock|
                0 <= k < next && #[trigger] edge(g, queue@[k], c) && avoid != Some(c)
                    ==> marked@[c as int],
        decreases n - next,
    {
        let b = queue[next];
        let ghost before = queue@;
        let successors = &mir.basic_blocks[b].terminator.successors;
        let mut j: usize = 0;
        while j < successors.len()
            invariant
                mir.well_formed(),
                g == mir.cfg(),
                n == g.len(),
                b < n,
                *successors == mir.basic_blocks@[b as int].terminator.successors,
                j <= successors@.len(),
                walk_inv(g, starts@, avoid, marked@, queue@),
                before.is_prefix_of(queue@),
                next < before.len(),
                before[next as int] == b,
                forall|k: int| 0 <= k < starts@.len() ==> #[trigger] starts@[k] < n,
                forall|k: int|
                    0 <= k < starts@.len() && avoid != Some(#[trigger] starts@[k])
                        ==> marked@[starts@[k] as int],
                forall|k: int, c: BasicBlock|
                    0 <= k < next && #[trigger] edge(g, before[k], c) && avoid != Some(c)
                        ==> marked@[c as int],
                forall|k: int|
                    0 <= k < j && avoid != Some(#[trigger] successors@[k])
                        ==> marked@[successors@[k] as int],
            decreases successors.len() - j,
        {
            let c = successors[j];
            proof {
                assert(mir.basic_blocks@[b as int].terminator.successors@[j as int] < n);
                assert(queue@[next as int] == b);
                assert(g[b as int][j as int] == c);
                assert(edge(g, b, c));
                if avoid != Some(c) {
                    let p = choose|p: Seq<BasicBlock>| leads_from(g, p, starts@, b, avoid);
                    lemma_extend(g, p, c);
                    let q = p.push(c);
                    if avoid is Some && q.contains(avoid->0) {
                        let k = choose|k: int| 0 <= k < q.len() && q[k] == avoid->0;
                        assert(p[k] == avoid->0);
                    }
                    assert(leads_from(g, q, starts@, c, avoid));
                }
            }
            discover(mir, &mut marked, &mut queue, c, avoid, Ghost(starts@));
            j += 1;
        }
        proof {
            assert forall|k: int, c: BasicBlock|
                0 <= k < next + 1 && #[trigger] edge(g, queue@[k], c) && avoid != Some(
                    c,
                ) implies marked@[c as int] by {
                assert(queue@[k] == before[k]);
                if k == next {
                    let m = choose|m: int| 0 <= m < g[b as int].len() && g[b as int][m] == c;
                    assert(successors@[m] == c);
                } else {
                    assert(edge(g, before[k], c));
                }
            }
            lemma_distinct_below(queue@, g.len());
        }
        next += 1;
    }
    proof {
        assert forall|b: BasicBlock, c: BasicBlock|
            #[trigger] edge(g, b, c) && marked@[b as int] && avoid != Some(
                c,
            ) implies marked@[c as int] by {
            let k = choose|k: int| 0 <= k < queue@.len() && queue@[k] == b;
            assert(edge(g, queue@[k], c));
        }
        assert forall|b: BasicBlock| b < marked@.len() implies (#[trigger] marked@[b as int]
            <==> reaches_from(g, starts@, b, avoid)) by {
            if marked@[b as int] {
                let k = choose|k: int| 0 <= k < queue@.len() && queue@[k] == b;
                assert(reaches_from(g, starts@, queue@[k], avoid));
            }
            if reaches_from(g, starts@, b, avoid) {
                let p = choose|p: Seq<BasicBlock>| leads_from(g, p, starts@, b, avoid);
                lemma_closed_set_is_everything(g, starts@, avoid, marked@, p);
            }
        }
    }
    marked
}

// ---- dominators --------------------------------------------------------------------

/// Which blocks of a body dominate which.
pub struct Dominators {
    reachable: Vec<bool>,
    rows: Vec<Vec<bool>>,
}

impl Dominators {
    pub closed spec fn size(self) -> nat {
        self.reachable@.len()
    }

    /// Whether the block `b` is known to run.
    pub closed spec fn enters(self, b: BasicBlock) -> bool {
        self.reachable@[b as int]
    }

    /// Whether the block `a` is known to dominate the block `b`.
    pub closed spec fn knows(self, a: BasicBlock, b: BasicBlock) -> bool {
        self.rows@[a as int]@[b as int]
    }

    pub closed spec fn shaped(self) -> bool {
        &&& self.rows@.len() == self.reachable@.len()
        &&& forall|a: int|
            0 <= a < self.rows@.len() ==> (#[trigger] self.rows@[a])@.len() == self.reachable@.len()
    }

    /// These are the dominators of the graph `g`.
    pub open spec fn of(self, g: Cfg) -> bool {
        &&& self.shaped()
        &&& self.size() == g.len()
        &&& forall|b: BasicBlock| b < g.len() ==> (#[trigger] self.enters(b) <==> enterable(g, b))
        &&& forall|a: BasicBlock, b: BasicBlock|
            a < g.len() && b < g.len() ==> (#[trigger] self.knows(a, b) <==> dominates(g, a, b))
    }

    /// Whether the block `b` can run.
    pub fn is_reachable(&self, b: BasicBlock) -> (r: bool)
        requires
            b < self.size(),
        ensures
            r == self.enters(b),
            forall|g: Cfg| #[trigger] self.of(g) ==> r == enterable(g, b),
    {
        let r = self.reachable[b];
        assert(r == self.enters(b));
        r
    }

    /// Whether the block `a` dominates the block `b`.
    pub fn dominates(&self, a: BasicBlock, b: BasicBlock) -> (r: bool)
        requires
            self.shaped(),
            a < self.size(),
            b < self.size(),
            self.enters(b),
        ensures
            r == self.knows(a, b),
            forall|g: Cfg| #[trigger] self.of(g) ==> r == dominates(g, a, b),
    {
        let r = self.rows[a][b];
        assert(r == self.knows(a, b));
        r
    }
}

impl Body {
    /// Finds the dominators: one block dominates another exactly when the other can no
    /// longer be reached without it.
    pub fn dominators(&self) -> (r: Dominators)
        requires
            self.well_formed(),
        ensures
            r.of(self.cfg()),
    {
        let ghost g = self.cfg();
        let n: usize = self.basic_blocks.len();
        let mut entry: Vec<BasicBlock> = Vec::new();
        entry.push(START_BLOCK);
        let reachable = reachable_blocks(self, &entry, None);
        proof {
            assert forall|b: BasicBlock| b < n implies (#[trigger] reachable@[b as int]
                <==> enterable(g, b)) by {
                lemma_from_entry(g, entry@, b, None);
            }
        }
        let mut rows: Vec<Vec<bool>> = Vec::new();
        while rows.len() < n
            invariant
                self.well_formed(),
                g == self.cfg(),
                n == g.len(),
                entry@ == seq![START_BLOCK],
                rows@.len() <= n,
                reachable@.len() == n,
                forall|b: BasicBlock| b < n ==> (#[trigger] reachable@[b as int] <==> enterable(g, b)),
                forall|a: int| 0 <= a < rows@.len() ==> (#[trigger] rows@[a])@.len() == n,
                forall|a: BasicBlock, b: BasicBlock|
                    a < rows@.len() && b < n ==> (#[trigger] rows@[a as int]@[b as int]
                        <==> dominates(g, a, b)),
            decreases n - rows.len(),
        {
            let a: BasicBlock = rows.len();
            let without = reachable_blocks(self, &entry, Some(a));
            let mut row: Vec<bool> = Vec::new();
            while row.len() < n
                invariant
                    n == g.len(),
                    entry@ == seq![START_BLOCK],
                    row@.len() <= n,
                    reachable@.len() == n,
                    without@.len() == n,
                    forall|b: BasicBlock|
                        b < n ==> (#[trigger] reachable@[b as int] <==> enterable(g, b)),
                    forall|b: BasicBlock|
                        b < n ==> (#[trigger] without@[b as int] <==> reaches_from(
                            g,
                            entry@,
                            b,
                            Some(a),
                        )),
                    forall|b: BasicBlock|
                        b < row@.len() ==> (#[trigger] row@[b as int] <==> dominates(g, a, b)),
                decreases n - row.len(),
            {
                let b: BasicBlock = row.len();
                proof {
                    lemma_from_entry(g, entry@, b, Some(a));
                }
                row.push(reachable[b] && !without[b]);
            }
            rows.push(row);
        }
        Dominators { reachable, rows }
    }
}

/// Being reached from the start block alone.
proof fn lemma_from_entry(
    g: Cfg,
    entry: Seq<BasicBlock>,
    b: BasicBlock,
    avoid: Option<BasicBlock>,
)
    requires
        entry == seq![START_BLOCK],
    ensures
        avoid is None ==> (reaches_from(g, entry, b, avoid) <==> enterable(g, b)),
        avoid matches Some(a) ==> (dominates(g, a, b) <==> enterable(g, b) && !reaches_from(
            g,
            entry,
            b,
            avoid,
        )),
{
    assert(entry[0] == START_BLOCK);
    assert forall|p: Seq<BasicBlock>| #[trigger]
        leads_from(g, p, entry, b, avoid) implies leads(g, p, START_BLOCK, b) by {
    }
    assert forall|p: Seq<BasicBlock>| #[trigger]
        leads(g, p, START_BLOCK, b) && avoids(p, avoid) implies leads_from(
        g,
        p,
        entry,
        b,
        avoid,
    ) by {
    }
}

impl Location {
    /// Whether `self` stands before `other` in its block, is `other`, or lies in a block
    /// that dominates the block of `other`.
    pub fn dominates(self, other: Location, dominators: &Dominators) -> (r: bool)
        requires
            dominators.shaped(),
            self.block < dominators.size(),
            other.block < dominators.size(),
            self.block == other.block || dominators.enters(other.block),
        ensures
            r == if self.block == other.block {
                self.statement_index <= other.statement_index
            } else {
                dominators.knows(self.block, other.block)
            },
            forall|g: Cfg| #[trigger]
                dominators.of(g) ==> r == location_dominates(g, self, other),
    {
        if self.block == other.block {
            self.statement_index <= other.statement_index
        } else {
            dominators.dominates(self.block, other.block)
        }
    }
}

// ---- the graph, told by the successors ----------------------------------------------

/// Control may go from one block to another in one step exactly when the terminator of the
/// one lists the other.
pub proof fn law_edge_is_a_successor(mir: &Body, a: BasicBlock, b: BasicBlock)
    requires
        a < mir.basic_blocks@.len(),
        b < mir.basic_blocks@.len(),
    ensures
        edge(mir.cfg(), a, b) <==> exists|i: int|
            0 <= i < mir.basic_blocks@[a as int].terminator.successors@.len()
                && #[trigger] mir.basic_blocks@[a as int].terminator.successors@[i] == b,
{
    let successors = mir.basic_blocks@[a as int].terminator.successors@;
    assert(mir.cfg()[a as int] == successors);
    if edge(mir.cfg(), a, b) {
        assert(successors.contains(b));
    }
}

/// Every block reaches itself, and goes on to reach the successors of all that it reaches.
pub proof fn law_reaches_successors(g: Cfg, a: BasicBlock, b: BasicBlock, c: BasicBlock)
    requires
        a < g.len(),
        c < g.len(),
    ensures
        reaches(g, a, a),
        reaches(g, a, b) && g[b as int].contains(c) ==> reaches(g, a, c),
        reaches(g, a, b) ==> b < g.len(),
{
    assert(leads(g, seq![a], a, a));
    if reaches(g, a, b) {
        let p = choose|p: Seq<BasicBlock>| leads(g, p, a, b);
        assert(p[p.len() - 1] < g.len());
        if g[b as int].contains(c) {
            lemma_extend(g, p, c);
        }
    }
}

/// A block reaches nothing else: what it reaches lies in every set that holds the block and,
/// with each block, its successors.
pub proof fn law_reaches_nothing_else(g: Cfg, a: BasicBlock, b: BasicBlock, s: Set<BasicBlock>)
    requires
        reaches(g, a, b),
        s.contains(a),
        forall|x: BasicBlock, y: BasicBlock|
            s.contains(x) && x < g.len() && y < g.len() && #[trigger] g[x as int].contains(y)
                ==> s.contains(y),
    ensures
        s.contains(b),
{
    let p = choose|p: Seq<BasicBlock>| leads(g, p, a, b);
    lemma_path_stays(g, p, s, p.len() - 1);
}

/// A path that starts in a set that control does not leave stays in it.
proof fn lemma_path_stays(g: Cfg, p: Seq<BasicBlock>, s: Set<BasicBlock>, i: int)
    requires
        is_path(g, p),
        0 <= i < p.len(),
        s.contains(p.first()),
        forall|x: BasicBlock, y: BasicBlock|
            s.contains(x) && x < g.len() && y < g.len() && #[trigger] g[x as int].contains(y)
                ==> s.contains(y),
    ensures
        s.contains(p[i]),
    decreases i,
{
    if i > 0 {
        lemma_path_stays(g, p, s, i - 1);
        assert(edge(g, p[i - 1], p[i - 1 + 1]));
        assert(g[p[i - 1] as int].contains(p[i]));
    }
}

/// What may follow a block is what its successors reach.
pub proof fn law_followers(g: Cfg, a: BasicBlock, b: BasicBlock)
    requires
        a < g.len(),
    ensures
        may_follow(g, a, b) <==> exists|i: int|
            0 <= i < g[a as int].len() && (#[trigger] g[a as int][i]) < g.len() && reaches(
                g,
                g[a as int][i],
                b,
            ),
{
    if may_follow(g, a, b) {
        let s = choose|s: BasicBlock| edge(g, a, s) && #[trigger] reaches(g, s, b);
        let i = choose|i: int| 0 <= i < g[a as int].len() && g[a as int][i] == s;
        assert(g[a as int][i] == s);
    }
    if exists|i: int|
        0 <= i < g[a as int].len() && (#[trigger] g[a as int][i]) < g.len() && reaches(
            g,
            g[a as int][i],
            b,
        ) {
        let i = choose|i: int|
            0 <= i < g[a as int].len() && (#[trigger] g[a as int][i]) < g.len() && reaches(
                g,
                g[a as int][i],
                b,
            );
        assert(edge(g, a, g[a as int][i]));
    }
}

/// The block that the body is entered at dominates every block that can run, and nothing that
/// cannot run is dominated.
pub proof fn law_entry_dominates(g: Cfg, a: BasicBlock, b: BasicBlock)
    ensures
        reaches(g, START_BLOCK, b) ==> dominates(g, START_BLOCK, b),
        dominates(g, a, b) ==> reaches(g, START_BLOCK, b),
        dominates(g, a, b) && b == START_BLOCK ==> a == START_BLOCK,
{
    assert forall|p: Seq<BasicBlock>| #[trigger]
        leads(g, p, START_BLOCK, b) implies p.contains(START_BLOCK) by {
        assert(p[0] == START_BLOCK);
    }
    if dominates(g, a, b) && b == START_BLOCK {
        let q = choose|q: Seq<BasicBlock>| leads(g, q, START_BLOCK, b);
        assert(q[0] < g.len());
        assert(leads(g, seq![START_BLOCK], START_BLOCK, b));
        assert(seq![START_BLOCK].contains(a));
    }
}

/// What dominates a block other than itself dominates each block that can run and has it as a
/// successor.
pub proof fn law_dominates_predecessors(g: Cfg, a: BasicBlock, b: BasicBlock, c: BasicBlock)
    requires
        dominates(g, a, b),
        a != b,
        c < g.len(),
        b < g.len(),
        g[c as int].contains(b),
        reaches(g, START_BLOCK, c),
    ensures
        dominates(g, a, c),
{
    assert forall|p: Seq<BasicBlock>| #[trigger] leads(g, p, START_BLOCK, c) implies p.contains(
        a,
    ) by {
        lemma_extend(g, p, b);
        assert(p.push(b).contains(a));
        let i = choose|i: int| 0 <= i < p.push(b).len() && p.push(b)[i] == a;
        assert(i < p.len());
        assert(p[i] == a);
    }
}

/// A block dominates another that can run where it dominates every block that can run and has
/// the other as a successor, unless the body is entered at the other.
pub proof fn law_dominated_through_predecessors(g: Cfg, a: BasicBlock, b: BasicBlock)
    requires
        reaches(g, START_BLOCK, b),
        b != START_BLOCK,
        forall|c: BasicBlock|
            c < g.len() && g[c as int].contains(b) && #[trigger] reaches(g, START_BLOCK, c)
                ==> dominates(g, a, c),
    ensures
        dominates(g, a, b),
{
    assert forall|p: Seq<BasicBlock>| #[trigger] leads(g, p, START_BLOCK, b) implies p.contains(
        a,
    ) by {
        if p.len() == 1 {
            assert(p.first() == p.last());
        } else {
            let k = p.len() - 2;
            let c = p[k];
            lemma_prefix(g, p, k);
            assert(edge(g, p[k], p[k + 1]));
            assert(leads(g, p.take(k + 1), START_BLOCK, c));
            assert(reaches(g, START_BLOCK, c));
            let q = p.take(k + 1);
            assert(q.contains(a));
            let i = choose|i: int| 0 <= i < q.len() && q[i] == a;
            assert(p[i] == a);
        }
    }
}

/// A path past a block shows that the block does not dominate where the path leads.
pub proof fn law_path_past_a_block(
    g: Cfg,
    a: BasicBlock,
    b: BasicBlock,
    p: Seq<BasicBlock>,
)
    requires
        p.len() > 0,
        p[0] == START_BLOCK,
        p[p.len() - 1] == b,
        forall|i: int| 0 <= i < p.len() ==> #[trigger] p[i] < g.len() && p[i] != a,
        forall|i: int|
            #![trigger p[i]]
            0 <= i < p.len() - 1 ==> g[p[i] as int].contains(p[i + 1]),
    ensures
        reaches(g, START_BLOCK, b),
        !dominates(g, a, b),
{
    assert forall|i: int| #![trigger p[i]] 0 <= i < p.len() - 1 implies edge(g, p[i], p[i + 1]) by {
        assert(p[i + 1] < g.len());
    }
    assert(leads(g, p, START_BLOCK, b));
}

/// Within a block, what stands before dominates what stands behind; across blocks, the blocks
/// decide, wherever in them the locations are.
pub proof fn law_location_dominance(g: Cfg, a: Location, b: Location)
    ensures
        a.block == b.block ==> (location_dominates(g, a, b) <==> a.statement_index
            <= b.statement_index),
        a.block != b.block ==> (location_dominates(g, a, b) <==> dominates(g, a.block, b.block)),
{
}

/// Each start that is not to be avoided is reached, and so is each successor of what is reached
/// that is not to be avoided. What is to be avoided is not reached.
pub proof fn law_reaches_from_successors(
    g: Cfg,
    starts: Seq<BasicBlock>,
    a: BasicBlock,
    b: BasicBlock,
    avoid: Option<BasicBlock>,
)
    requires
        b < g.len(),
    ensures
        starts.contains(b) && avoid != Some(b) ==> reaches_from(g, starts, b, avoid),
        reaches_from(g, starts, a, avoid) && g[a as int].contains(b) && avoid != Some(b)
            ==> reaches_from(g, starts, b, avoid),
        avoid == Some(b) ==> !reaches_from(g, starts, b, avoid),
{
    if starts.contains(b) && avoid != Some(b) {
        assert(leads_from(g, seq![b], starts, b, avoid));
    }
    if reaches_from(g, starts, a, avoid) && g[a as int].contains(b) && avoid != Some(b) {
        let p = choose|p: Seq<BasicBlock>| leads_from(g, p, starts, a, avoid);
        assert(p[p.len() - 1] < g.len());
        lemma_extend(g, p, b);
        if let Some(x) = avoid {
            if p.push(b).contains(x) {
                let q = p.push(b);
                let i = choose|i: int| 0 <= i < q.len() && q[i] == x;
                assert(p[i] == x);
            }
        }
        assert(leads_from(g, p.push(b), starts, b, avoid));
    }
    if avoid == Some(b) && reaches_from(g, starts, b, avoid) {
        let p = choose|p: Seq<BasicBlock>| leads_from(g, p, starts, b, avoid);
        assert(p[p.len() - 1] == b);
    }
}

/// Nothing else is reached: what is reached lies in every set that holds the starts that are
/// not to be avoided and, with each block, its successors that are not.
pub proof fn law_reaches_from_nothing_else(
    g: Cfg,
    starts: Seq<BasicBlock>,
    b: BasicBlock,
    avoid: Option<BasicBlock>,
    s: Set<BasicBlock>,
)
    requires
        reaches_from(g, starts, b, avoid),
        forall|x: BasicBlock| #[trigger] starts.contains(x) && avoid != Some(x) ==> s.contains(x),
        forall|x: BasicBlock, y: BasicBlock|
            s.contains(x) && x < g.len() && y < g.len() && #[trigger] g[x as int].contains(y)
                && avoid != Some(y) ==> s.contains(y),
    ensures
        s.contains(b),
{
    let p = choose|p: Seq<BasicBlock>| leads_from(g, p, starts, b, avoid);
    if let Some(x) = avoid {
        assert(forall|i: int| 0 <= i < p.len() ==> #[trigger] p[i] != x);
    }
    lemma_walk_stays(g, p, avoid, s, p.len() - 1);
}

/// A path that keeps out of a block and starts in a set that control only leaves by that block
/// stays in the set.
proof fn lemma_walk_stays(
    g: Cfg,
    p: Seq<BasicBlock>,
    avoid: Option<BasicBlock>,
    s: Set<BasicBlock>,
    i: int,
)
    requires
        is_path(g, p),
        avoids(p, avoid),
        0 <= i < p.len(),
        s.contains(p.first()),
        forall|x: BasicBlock, y: BasicBlock|
            s.contains(x) && x < g.len() && y < g.len() && #[trigger] g[x as int].contains(y)
                && avoid != Some(y) ==> s.contains(y),
    ensures
        s.contains(p[i]),
    decreases i,
{
    if i > 0 {
        lemma_walk_stays(g, p, avoid, s, i - 1);
        assert(edge(g, p[i - 1], p[i - 1 + 1]));
        assert(g[p[i - 1] as int].contains(p[i]));
        assert(p.contains(p[i]));
    }
}

} // verus!
