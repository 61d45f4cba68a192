//! A function body as a graph of basic blocks.

use vstd::prelude::*;
use crate::span::Span;

verus! {

/// The number of a local variable.
pub type Local = usize;

/// The number of a basic block.
pub type BasicBlock = usize;

/// The block that a body is entered by.
pub const START_BLOCK: usize = 0;

/// A place in a body: a statement of a block or, one past the last, its terminator.
#[derive(Clone, Copy, Debug, PartialEq, Eq, Structural)]
pub struct Location {
    pub block: BasicBlock,
    pub statement_index: usize,
}

#[derive(Clone, Copy, Debug, PartialEq, Eq, Structural)]
pub enum Mutability {
    Not,
    Mut,
}

/// What a statement does, as far as the lint tells statements apart.
#[derive(Clone, Copy, Debug, PartialEq, Eq, Structural)]
pub enum StatementKind {
    /// Assigns to a place that starts at the local.
    Assign(Local),
    StorageLive(Local),
    Other,
}

#[derive(Clone, Copy, Debug)]
pub struct Statement {
    pub span: Span,
    pub kind: StatementKind,
}

/// How a block ends, as far as the lint tells terminators apart.
#[derive(Clone, Copy, Debug, PartialEq, Eq, Structural)]
pub enum TerminatorKind {
    /// Calls a function and writes what it returns to a place that starts at the local.
    Call(Local),
    Other,
}

#[derive(Debug)]
pub struct Terminator {
    pub span: Span,
    pub kind: TerminatorKind,
    /// The blocks that control may go to next, unwinding included.
    pub successors: Vec<BasicBlock>,
}

#[derive(Debug)]
pub struct BasicBlockData {
    pub statements: Vec<Statement>,
    pub terminator: Terminator,
    /// Whether the block only runs while unwinding.
    pub is_cleanup: bool,
}

/// What the debugger is told of a source variable.
#[derive(Clone, Copy, Debug, PartialEq, Eq, Structural)]
pub enum VarDebugInfoContents {
    /// The variable lives in a place that starts at the local.
    Place(Local),
    Const,
}

#[derive(Clone, Copy, Debug, PartialEq, Eq, Structural)]
pub enum MutatingUseContext {
    Drop,
    Other,
}

/// The way in which a local is mentioned.
#[derive(Clone, Copy, Debug, PartialEq, Eq, Structural)]
pub enum PlaceContext {
    NonMutatingUse,
    MutatingUse(MutatingUseContext),
    NonUse,
}

/// One mention of a local.
#[derive(Clone, Copy, Debug, PartialEq, Eq, Structural)]
pub struct LocalUse {
    pub local: Local,
    pub context: PlaceContext,
    pub location: Location,
}

#[derive(Debug)]
pub struct Body {
    pub basic_blocks: Vec<BasicBlockData>,
    pub var_debug_info: Vec<VarDebugInfoContents>,
    /// Every mention of every local. What the debugger is told of a variable is
    /// mentioned at the first location of the start block.
    pub local_uses: Vec<LocalUse>,
}

/// The successors of each block.
pub type Cfg = Seq<Seq<BasicBlock>>;

impl Body {
    /// The control-flow graph of the body.
    pub open spec fn cfg(self) -> Cfg {
        Seq::new(
            self.basic_blocks@.len(),
            |b: int| self.basic_blocks@[b].terminator.successors@,
        )
    }

    /// Whether `l` is a statement or a terminator of the body.
    pub open spec fn has_location(self, l: Location) -> bool {
        &&& l.block < self.basic_blocks@.len()
        &&& l.statement_index <= self.basic_blocks@[l.block as int].statements@.len()
    }

    /// Control can only go to blocks of the body, and only locations of the body
    /// mention locals.
    pub open spec fn well_formed(self) -> bool {
        &&& self.basic_blocks@.len() > 0
        &&& forall|b: int, i: int|
            #![trigger self.basic_blocks@[b].terminator.successors@[i]]
            0 <= b < self.basic_blocks@.len() && 0 <= i
                < self.basic_blocks@[b].terminator.successors@.len()
                ==> self.basic_blocks@[b].terminator.successors@[i] < self.basic_blocks@.len()
        &&& forall|i: int|
            0 <= i < self.local_uses@.len() ==> self.has_location(
                (#[trigger] self.local_uses@[i]).location,
            )
    }

    /// Whether the block of `l` only runs while unwinding.
    pub open spec fn unwinds(self, l: Location) -> bool {
        self.basic_blocks@[l.block as int].is_cleanup
    }

    /// The span of the statement or terminator at `l`.
    pub open spec fn span_at(self, l: Location) -> Span {
        let data = self.basic_blocks@[l.block as int];
        if l.statement_index < data.statements@.len() {
            data.statements@[l.statement_index as int].span
        } else {
            data.terminator.span
        }
    }

    /// The local that is assigned, brought to life or called into at `l`.
    pub open spec fn target_at(self, l: Location) -> Option<Local> {
        let data = self.basic_blocks@[l.block as int];
        if l.statement_index < data.statements@.len() {
            match data.statements@[l.statement_index as int].kind {
                StatementKind::Assign(local) => Some(local),
                StatementKind::StorageLive(local) => Some(local),
                StatementKind::Other => None,
            }
        } else {
            match data.terminator.kind {
                TerminatorKind::Call(local) => Some(local),
                TerminatorKind::Other => None,
            }
        }
    }

    /// Whether a value is computed at `l`, by an assignment or by a call.
    pub open spec fn computes_at(self, l: Location) -> bool {
        let data = self.basic_blocks@[l.block as int];
        if l.statement_index < data.statements@.len() {
            data.statements@[l.statement_index as int].kind is Assign
        } else {
            data.terminator.kind is Call
        }
    }

    /// Whether the debugger knows a source variable that lives in `local`.
    pub open spec fn is_debug_local(self, local: Local) -> bool {
        self.var_debug_info@.contains(VarDebugInfoContents::Place(local))
    }

    /// Tells whether the body is well formed.
    pub fn is_well_formed(&self) -> (r: bool)
        ensures
            r == self.well_formed(),
    {
        let n: usize = self.basic_blocks.len();
        if n == 0 {
            return false;
        }
        let mut b: usize = 0;
        while b < n
            invariant
                n == self.basic_blocks@.len(),
                b <= n,
                forall|c: int, i: int|
                    #![trigger self.basic_blocks@[c].terminator.successors@[i]]
                    0 <= c < b && 0 <= i < self.basic_blocks@[c].terminator.successors@.len()
                        ==> self.basic_blocks@[c].terminator.successors@[i] < n,
            decreases n - b,
        {
            let successors = &self.basic_blocks[b].terminator.successors;
            let mut i: usize = 0;
            while i < successors.len()
                invariant
                    n == self.basic_blocks@.len(),
                    b < n,
                    i <= successors@.len(),
                    *successors == self.basic_blocks@[b as int].terminator.successors,
                    forall|k: int| 0 <= k < i ==> successors@[k] < n,
                decreases successors.len() - i,
            {
                if successors[i] >= n {
                    assert(self.basic_blocks@[b as int].terminator.successors@[i as int] >= n);
                    return false;
                }
                i += 1;
            }
            b += 1;
        }
        let mut u: usize = 0;
        while u < self.local_uses.len()
            invariant
                n == self.basic_blocks@.len(),
                u <= self.local_uses@.len(),
                forall|i: int|
                    0 <= i < u ==> self.has_location((#[trigger] self.local_uses@[i]).location),
            decreases self.local_uses.len() - u,
        {
            let l = self.local_uses[u].location;
            if l.block >= n || l.statement_index > self.basic_blocks[l.block].statements.len() {
                assert(!self.has_location(self.local_uses@[u as int].location));
                return false;
            }
            u += 1;
        }
        true
    }

    /// The span of the statement or terminator at `l`.
    pub fn span(&self, l: Location) -> (r: Span)
        requires
            self.has_location(l),
        ensures
            r == self.span_at(l),
            l.statement_index < self.basic_blocks@[l.block as int].statements@.len() ==> r
                == self.basic_blocks@[l.block as int].statements@[l.statement_index as int].span,
            l.statement_index == self.basic_blocks@[l.block as int].statements@.len() ==> r
                == self.basic_blocks@[l.block as int].terminator.span,
    {
        let data = &self.basic_blocks[l.block];
        if l.statement_index < data.statements.len() {
            data.statements[l.statement_index].span
        } else {
            data.terminator.span
        }
    }

    /// The local that is assigned, brought to life or called into at `l`.
    pub fn target(&self, l: Location) -> (r: Option<Local>)
        requires
            self.has_location(l),
        ensures
            r == self.target_at(l),
            l.statement_index == self.basic_blocks@[l.block as int].statements@.len() ==> (match r {
                Some(local) => self.basic_blocks@[l.block as int].terminator.kind
                    == TerminatorKind::Call(local),
                None => self.basic_blocks@[l.block as int].terminator.kind == TerminatorKind::Other,
            }),
            l.statement_index < self.basic_blocks@[l.block as int].statements@.len() ==> ({
                let kind =
                    self.basic_blocks@[l.block as int].statements@[l.statement_index as int].kind;
                match r {
                    Some(local) => kind == StatementKind::Assign(local) || kind
                        == StatementKind::StorageLive(local),
                    None => kind == StatementKind::Other,
                }
            }),
    {
        let data = &self.basic_blocks[l.block];
        if l.statement_index < data.statements.len() {
            match data.statements[l.statement_index].kind {
                StatementKind::Assign(local) => Some(local),
                StatementKind::StorageLive(local) => Some(local),
                StatementKind::Other => None,
            }
        } else {
            match data.terminator.kind {
                TerminatorKind::Call(local) => Some(local),
                TerminatorKind::Other => None,
            }
        }
    }

    /// Whether a value is computed at `l`, by an assignment or by a call.
    pub fn computes(&self, l: Location) -> (r: bool)
        requires
            self.has_location(l),
        ensures
            r == self.computes_at(l),
            l.statement_index == self.basic_blocks@[l.block as int].statements@.len() ==> (r
                <==> !(self.basic_blocks@[l.block as int].terminator.kind == TerminatorKind::Other)),
            l.statement_index < self.basic_blocks@[l.block as int].statements@.len() ==> (r
                <==> self.basic_blocks@[l.block as int].statements@[l.statement_index as int].kind is Assign),
    {
        let data = &self.basic_blocks[l.block];
        if l.statement_index < data.statements.len() {
            match data.statements[l.statement_index].kind {
                StatementKind::Assign(_) => true,
                _ => false,
            }
        } else {
            match data.terminator.kind {
                TerminatorKind::Call(_) => true,
                TerminatorKind::Other => false,
            }
        }
    }

    /// Whether the debugger knows a source variable that lives in `local`.
    pub fn has_debug_info(&self, local: Local) -> (r: bool)
        ensures
            r == self.is_debug_local(local),
            r <==> exists|i: int|
                0 <= i < self.var_debug_info@.len() && #[trigger] self.var_debug_info@[i]
                    == VarDebugInfoContents::Place(local),
    {
        let mut i: usize = 0;
        while i < self.var_debug_info.len()
            invariant
                i <= self.var_debug_info@.len(),
                forall|j: int|
                    0 <= j < i ==> self.var_debug_info@[j] != VarDebugInfoContents::Place(local),
            decreases self.var_debug_info.len() - i,
        {
            if self.var_debug_info[i] == VarDebugInfoContents::Place(local) {
                return true;
            }
            i += 1;
        }
        false
    }
}

/// A statement writes the local that it assigns or brings to life, and no other does.
pub proof fn law_statement_target(mir: &Body, b: BasicBlock, i: usize)
    requires
        b < mir.basic_blocks@.len(),
        i < mir.basic_blocks@[b as int].statements@.len(),
    ensures
        ({
            let statement = mir.basic_blocks@[b as int].statements@[i as int];
            let l = Location { block: b, statement_index: i };
            &&& mir.has_location(l)
            &&& mir.span_at(l) == statement.span
            &&& forall|d: Local|
                mir.target_at(l) == Some(d) <==> statement.kind == StatementKind::Assign(d)
                    || statement.kind == StatementKind::StorageLive(d)
            &&& mir.computes_at(l) <==> exists|d: Local| statement.kind == StatementKind::Assign(d)
        }),
{
    let statement = mir.basic_blocks@[b as int].statements@[i as int];
    if let StatementKind::Assign(d) = statement.kind {
        assert(statement.kind == StatementKind::Assign(d));
    }
}

/// A call writes its destination and computes a value, wherever control may go afterwards. No
/// other terminator does either.
pub proof fn law_call_target(mir: &Body, b: BasicBlock)
    requires
        b < mir.basic_blocks@.len(),
    ensures
        ({
            let terminator = mir.basic_blocks@[b as int].terminator;
            let l = Location {
                block: b,
                statement_index: mir.basic_blocks@[b as int].statements.len(),
            };
            &&& mir.has_location(l)
            &&& mir.span_at(l) == terminator.span
            &&& forall|d: Local|
                mir.target_at(l) == Some(d) <==> terminator.kind == TerminatorKind::Call(d)
            &&& mir.computes_at(l) <==> terminator.kind != TerminatorKind::Other
        }),
{
}

/// A body has the locations from the first statement of a block to its terminator, and no
/// others.
pub proof fn law_locations_of_a_body(mir: &Body, l: Location)
    ensures
        mir.has_location(l) <==> exists|b: int|
            0 <= b < mir.basic_blocks@.len() && b == l.block && l.statement_index <= (
            #[trigger] mir.basic_blocks@[b]).statements@.len(),
{
    if mir.has_location(l) {
        assert(l.statement_index <= mir.basic_blocks@[l.block as int].statements@.len());
    }
}

/// What is written, computed and recorded at a location does not depend on where control may go
/// from it, nor on what is mentioned anywhere: two bodies with the same statements and the same
/// kinds and spans of terminators agree on it.
pub proof fn law_target_ignores_successors(a: &Body, b: &Body, l: Location)
    requires
        a.basic_blocks@.len() == b.basic_blocks@.len(),
        forall|i: int|
            0 <= i < a.basic_blocks@.len() ==> (#[trigger] a.basic_blocks@[i]).statements@
                == b.basic_blocks@[i].statements@ && a.basic_blocks@[i].terminator.kind
                == b.basic_blocks@[i].terminator.kind && a.basic_blocks@[i].terminator.span
                == b.basic_blocks@[i].terminator.span,
        l.block < a.basic_blocks@.len(),
    ensures
        a.has_location(l) == b.has_location(l),
        a.has_location(l) ==> a.target_at(l) == b.target_at(l),
        a.has_location(l) ==> a.computes_at(l) == b.computes_at(l),
        a.has_location(l) ==> a.span_at(l) == b.span_at(l),
{
    assert(a.basic_blocks@[l.block as int].statements@ == b.basic_blocks@[l.block as int].statements@);
}

/// A location only runs while unwinding exactly when its block does.
pub proof fn law_unwinding_is_of_the_block(mir: &Body, l: Location, b: int)
    requires
        0 <= b < mir.basic_blocks@.len(),
        l.block == b,
    ensures
        mir.unwinds(l) == mir.basic_blocks@[b].is_cleanup,
{
}

/// The debugger knows the locals that its records place a variable in, wherever in the list
/// they stand.
pub proof fn law_debug_locals(mir: &Body, local: Local)
    ensures
        mir.is_debug_local(local) <==> exists|i: int|
            0 <= i < mir.var_debug_info@.len() && #[trigger] mir.var_debug_info@[i]
                == VarDebugInfoContents::Place(local),
{
}

/// A body with a block, whose control stays within it and whose mentions lie within it, is well
/// formed, and no other is.
pub proof fn law_well_formed(mir: &Body)
    ensures
        mir.well_formed() <==> {
            &&& mir.basic_blocks@.len() > 0
            &&& forall|b: int, s: BasicBlock|
                0 <= b < mir.basic_blocks@.len() && #[trigger]
                mir.basic_blocks@[b].terminator.successors@.contains(s) ==> s
                    < mir.basic_blocks@.len()
            &&& forall|u: LocalUse| #[trigger]
                mir.local_uses@.contains(u) ==> u.location.block < mir.basic_blocks@.len()
                    && u.location.statement_index
                    <= mir.basic_blocks@[u.location.block as int].statements@.len()
        },
{
    if forall|b: int, s: BasicBlock|
        0 <= b < mir.basic_blocks@.len() && #[trigger]
        mir.basic_blocks@[b].terminator.successors@.contains(s) ==> s < mir.basic_blocks@.len() {
        assert forall|b: int, i: int|
            #![trigger mir.basic_blocks@[b].terminator.successors@[i]]
            0 <= b < mir.basic_blocks@.len() && 0 <= i
                < mir.basic_blocks@[b].terminator.successors@.len() implies mir.basic_blocks@[b].terminator.successors@[i]
            < mir.basic_blocks@.len() by {
            assert(mir.basic_blocks@[b].terminator.successors@.contains(
                mir.basic_blocks@[b].terminator.successors@[i],
            ));
        }
    }
    if forall|u: LocalUse| #[trigger]
        mir.local_uses@.contains(u) ==> u.location.block < mir.basic_blocks@.len()
            && u.location.statement_index
            <= mir.basic_blocks@[u.location.block as int].statements@.len() {
        assert forall|i: int| 0 <= i < mir.local_uses@.len() implies mir.has_location(
            (#[trigger] mir.local_uses@[i]).location,
        ) by {
            assert(mir.local_uses@.contains(mir.local_uses@[i]));
        }
    }
}

/// The graph of a body has its blocks, each with the successors that its terminator lists.
pub proof fn law_graph_of_a_body(mir: &Body, b: int)
    ensures
        mir.cfg().len() == mir.basic_blocks@.len(),
        0 <= b < mir.basic_blocks@.len() ==> mir.cfg()[b]
            == mir.basic_blocks@[b].terminator.successors@,
{
}

} // verus!
