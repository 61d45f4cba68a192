//! The source-level view of a statement: its syntax, and what it is nested in.

use vstd::prelude::*;
use crate::span::Span;

verus! {

/// The number of a definition of the crate that is linted.
pub type LocalDefId = u32;

/// What a path names.
#[derive(Clone, Copy, Debug, PartialEq, Eq, Structural)]
pub enum Res {
    Local(u32),
    Other,
}

#[derive(Clone, Copy, Debug, PartialEq, Eq, Structural)]
pub struct PathSegment {
    /// Whether generic arguments are given.
    pub has_args: bool,
}

#[derive(Debug)]
pub struct Path {
    pub segments: Vec<PathSegment>,
    pub res: Res,
}

#[derive(Debug)]
pub enum QPath {
    /// A path whose meaning is known, and whether it is qualified by a type.
    Resolved(bool, Path),
    Other,
}

#[derive(Debug)]
pub enum ExprKind {
    /// `left = right`.
    Assign(Box<Expr>, Box<Expr>),
    Path(QPath),
    Other,
}

#[derive(Debug)]
pub struct Expr {
    pub kind: ExprKind,
    pub span: Span,
}

#[derive(Debug)]
pub enum StmtKind {
    /// An expression with a semicolon behind it.
    Semi(Expr),
    Other,
}

#[derive(Debug)]
pub struct Stmt {
    pub kind: StmtKind,
    pub span: Span,
}

impl Expr {
    /// A path of one plain segment that names a local variable.
    pub open spec fn names_local(self) -> bool {
        self.kind matches ExprKind::Path(QPath::Resolved(qualified, path)) && !qualified
            && path.segments@.len() == 1 && !path.segments@[0].has_args && path.res is Local
    }

    /// Whether the expression is a path of one plain segment that names a local variable.
    pub fn is_local_name(&self) -> (r: bool)
        ensures
            r == self.names_local(),
            r <==> (match self.kind {
                ExprKind::Path(QPath::Resolved(qualified, path)) => !qualified
                    && path.segments@.len() == 1 && path.segments@[0] == (PathSegment {
                    has_args: false,
                }) && path.res != Res::Other,
                _ => false,
            }),
    {
        match &self.kind {
            ExprKind::Path(QPath::Resolved(qualified, path)) => {
                if *qualified || path.segments.len() != 1 || path.segments[0].has_args {
                    false
                } else {
                    match path.res {
                        Res::Local(_) => true,
                        Res::Other => false,
                    }
                }
            },
            _ => false,
        }
    }
}

impl Stmt {
    /// For `x = value;` with a local variable `x`: the spans of `x` and of `value`.
    pub open spec fn assigned_spans(self) -> Option<(Span, Span)> {
        match self.kind {
            StmtKind::Semi(expr) => match expr.kind {
                ExprKind::Assign(left, right) => if left.names_local() {
                    Some((left.span, right.span))
                } else {
                    None
                },
                _ => None,
            },
            StmtKind::Other => None,
        }
    }

    /// The span of `x` in `x = value;`.
    pub open spec fn left_span(self) -> Span {
        let (left, right) = self.assigned_spans()->0;
        left
    }

    /// The span of `value` in `x = value;`.
    pub open spec fn right_span(self) -> Span {
        let (left, right) = self.assigned_spans()->0;
        right
    }

    /// For `x = value;` with a local variable `x`: the spans of `x` and of `value`.
    pub fn assignment(&self) -> (r: Option<(Span, Span)>)
        ensures
            r == self.assigned_spans(),
            r matches Some((left_span, right_span)) ==> (match self.kind {
                StmtKind::Semi(expr) => match expr.kind {
                    ExprKind::Assign(left, right) => left_span == left.span && right_span
                        == right.span && left.kind is Path,
                    _ => false,
                },
                StmtKind::Other => false,
            }),
            r is None ==> (match self.kind {
                StmtKind::Semi(expr) => match expr.kind {
                    ExprKind::Assign(left, right) => !left.names_local(),
                    _ => true,
                },
                StmtKind::Other => true,
            }),
    {
        match &self.kind {
            StmtKind::Semi(expr) => match &expr.kind {
                ExprKind::Assign(left, right) => {
                    if left.is_local_name() {
                        Some((left.span, right.span))
                    } else {
                        None
                    }
                },
                _ => None,
            },
            StmtKind::Other => None,
        }
    }
}

#[derive(Clone, Copy, Debug, PartialEq, Eq, Structural)]
pub enum ItemKind {
    Fn,
    Impl,
    Other,
}

#[derive(Clone, Copy, Debug, PartialEq, Eq, Structural)]
pub enum TraitItemKind {
    /// A constant, and whether the trait gives its value.
    Const(bool),
    /// A function, and whether the trait gives its body.
    Fn(bool),
    Type,
}

#[derive(Clone, Copy, Debug, PartialEq, Eq, Structural)]
pub enum ImplItemKind {
    Const,
    Fn,
    Type,
}

/// What a statement is nested in, as far as the lint tells it apart.
#[derive(Clone, Copy, Debug, PartialEq, Eq, Structural)]
pub enum Node {
    Item(LocalDefId, ItemKind),
    TraitItem(LocalDefId, TraitItemKind),
    ImplItem(LocalDefId, ImplItemKind),
    Closure,
    Other,
}

/// One of the nodes around a statement.
#[derive(Clone, Copy, Debug, PartialEq, Eq, Structural)]
pub struct Parent {
    pub node: Node,
    pub span: Span,
}

impl Node {
    /// The function or constant whose body the node gives.
    pub open spec fn owns_body(self) -> Option<LocalDefId> {
        match self {
            Node::Item(owner_id, ItemKind::Fn) => Some(owner_id),
            Node::TraitItem(owner_id, TraitItemKind::Const(true)) => Some(owner_id),
            Node::TraitItem(owner_id, TraitItemKind::Fn(true)) => Some(owner_id),
            Node::ImplItem(owner_id, ImplItemKind::Const) => Some(owner_id),
            Node::ImplItem(owner_id, ImplItemKind::Fn) => Some(owner_id),
            _ => None,
        }
    }

    /// What is inside has no body of its own to look at further out.
    pub open spec fn ends_search(self) -> bool {
        self is Closure || (self matches Node::Item(_, kind) && kind == ItemKind::Impl)
    }
}

/// `parents[i]` is the innermost that owns a body or ends the search for one.
pub open spec fn settles_owner(parents: Seq<Parent>, i: int) -> bool {
    &&& 0 <= i < parents.len()
    &&& parents[i].node.owns_body() is Some || parents[i].node.ends_search()
    &&& forall|j: int|
        0 <= j < i ==> (#[trigger] parents[j]).node.owns_body() is None
            && !parents[j].node.ends_search()
}

/// The function that a statement belongs to, given what it is nested in from the inside
/// out: that of the innermost owner, unless a closure or an impl block comes first.
pub open spec fn owner_of(parents: Seq<Parent>) -> Option<LocalDefId> {
    if exists|i: int| settles_owner(parents, i) {
        parents[choose|i: int| settles_owner(parents, i)].node.owns_body()
    } else {
        None
    }
}

/// Finds the function that a statement belongs to, given what it is nested in from the
/// inside out.
pub fn associated_fn(parents: &Vec<Parent>) -> (r: Option<LocalDefId>)
    ensures
        r == owner_of(parents@),
{
    let mut i: usize = 0;
    while i < parents.len()
        invariant
            i <= parents@.len(),
            forall|j: int|
                0 <= j < i ==> (#[trigger] parents@[j]).node.owns_body() is None
                    && !parents@[j].node.ends_search(),
        decreases parents.len() - i,
    {
        let node = parents[i].node;
        proof {
            if parents@[i as int].node.owns_body() is Some || parents@[i as int].node.ends_search() {
                assert(settles_owner(parents@, i as int));
                let k = choose|k: int| settles_owner(parents@, k);
                assert(k == i);
            }
        }
        match node {
            Node::Item(owner_id, ItemKind::Fn)
            | Node::TraitItem(owner_id, TraitItemKind::Const(true) | TraitItemKind::Fn(true))
            | Node::ImplItem(owner_id, ImplItemKind::Const | ImplItemKind::Fn) => {
                return Some(owner_id);
            },
            // abort if in any closure
            Node::Item(_, ItemKind::Impl) | Node::Closure => {
                return None;
            },
            _ => {},
        }
        i += 1;
    }
    None
}

/// A statement that a closure lies around, with no function or constant between them,
/// belongs to no function.
pub proof fn law_closure_hides_owner(parents: Seq<Parent>, i: int)
    requires
        0 <= i < parents.len(),
        parents[i].node is Closure,
        forall|j: int| 0 <= j < i ==> (#[trigger] parents[j]).node.owns_body() is None,
    ensures
        owner_of(parents) is None,
{
    if exists|k: int| settles_owner(parents, k) {
        let k = choose|k: int| settles_owner(parents, k);
        if k > i {
            assert(parents[i].node.ends_search());
        }
    }
}

/// What lies further out than the owner of a statement does not matter.
pub proof fn law_owner_ignores_outer(parents: Seq<Parent>, outer: Seq<Parent>)
    requires
        owner_of(parents) is Some,
    ensures
        owner_of(parents + outer) == owner_of(parents),
{
    let i = choose|i: int| settles_owner(parents, i);
    let all = parents + outer;
    assert(settles_owner(all, i));
    let k = choose|k: int| settles_owner(all, k);
    if k < i {
        assert(all[k] == parents[k]);
    } else if i < k {
        assert(all[i] == parents[i]);
    }
}

/// An expression names a local variable exactly when it is a path, without a type in front,
/// of one segment without generic arguments that resolves to a local variable.
pub proof fn law_local_names(expr: Expr)
    ensures
        expr.names_local() <==> (match expr.kind {
            ExprKind::Path(QPath::Resolved(qualified, path)) => !qualified && path.segments@
                =~= seq![PathSegment { has_args: false }] && path.res != Res::Other,
            _ => false,
        }),
{
}

/// `x = value;` assigns to `x` whatever `value` is: the spans of the two sides are those that
/// stand in the statement.
pub proof fn law_every_value_is_assigned(
    stmt: Stmt,
    expr: Expr,
    left: Box<Expr>,
    right: Box<Expr>,
    path: Path,
    x: u32,
)
    requires
        stmt.kind == StmtKind::Semi(expr),
        expr.kind == ExprKind::Assign(left, right),
        left.kind == ExprKind::Path(QPath::Resolved(false, path)),
        path.segments@ == seq![PathSegment { has_args: false }],
        path.res == Res::Local(x),
    ensures
        stmt.assigned_spans() == Some((left.span, right.span)),
        stmt.left_span() == left.span,
        stmt.right_span() == right.span,
{
}

/// Nothing but an assignment with a semicolon behind it, and a path on its left side, assigns.
pub proof fn law_nothing_else_assigns(stmt: Stmt)
    requires
        stmt.assigned_spans() is Some,
    ensures
        stmt.kind matches StmtKind::Semi(expr) && (expr.kind matches ExprKind::Assign(left, right)
            && left.kind is Path && stmt.left_span() == left.span && stmt.right_span()
            == right.span),
{
}

/// What stands on the right side does not matter, nor what the statement and the whole
/// expression span: two assignments with the same left side, whose right sides lie at the
/// same place, have the same answer.
pub proof fn law_right_side_does_not_matter(
    a: Stmt,
    b: Stmt,
    a_expr: Expr,
    b_expr: Expr,
    left: Box<Expr>,
    a_right: Box<Expr>,
    b_right: Box<Expr>,
)
    requires
        a.kind == StmtKind::Semi(a_expr),
        b.kind == StmtKind::Semi(b_expr),
        a_expr.kind == ExprKind::Assign(left, a_right),
        b_expr.kind == ExprKind::Assign(left, b_right),
        a_right.span == b_right.span,
    ensures
        a.assigned_spans() == b.assigned_spans(),
{
}

/// Where the left side lies does not decide whether the statement assigns to a local variable.
pub proof fn law_place_does_not_decide(
    a: Stmt,
    b: Stmt,
    a_expr: Expr,
    b_expr: Expr,
    a_left: Box<Expr>,
    b_left: Box<Expr>,
    a_right: Box<Expr>,
    b_right: Box<Expr>,
)
    requires
        a.kind == StmtKind::Semi(a_expr),
        b.kind == StmtKind::Semi(b_expr),
        a_expr.kind == ExprKind::Assign(a_left, a_right),
        b_expr.kind == ExprKind::Assign(b_left, b_right),
        a_left.kind == b_left.kind,
    ensures
        a.assigned_spans() is Some <==> b.assigned_spans() is Some,
{
}

/// Outside of everything, a statement belongs to no function.
pub proof fn law_no_owner_outside(parents: Seq<Parent>)
    requires
        parents.len() == 0,
    ensures
        owner_of(parents) is None,
{
}

/// Directly inside a function, or a constant that is given a value in a trait or an impl
/// block, a statement belongs to it, whatever lies around it.
pub proof fn law_innermost_owner(parents: Seq<Parent>, d: LocalDefId)
    requires
        parents.len() > 0,
        ({
            ||| parents[0].node == Node::Item(d, ItemKind::Fn)
            ||| parents[0].node == Node::TraitItem(d, TraitItemKind::Const(true))
            ||| parents[0].node == Node::TraitItem(d, TraitItemKind::Fn(true))
            ||| parents[0].node == Node::ImplItem(d, ImplItemKind::Const)
            ||| parents[0].node == Node::ImplItem(d, ImplItemKind::Fn)
        }),
    ensures
        owner_of(parents) == Some(d),
{
    assert(settles_owner(parents, 0));
}

/// Directly inside a closure or an impl block, a statement belongs to no function.
pub proof fn law_innermost_end(parents: Seq<Parent>, d: LocalDefId)
    requires
        parents.len() > 0,
        parents[0].node == Node::Closure || parents[0].node == Node::Item(d, ItemKind::Impl),
    ensures
        owner_of(parents) is None,
{
    assert(settles_owner(parents, 0));
    let k = choose|k: int| settles_owner(parents, k);
    assert(k == 0);
}

/// A node of any other kind, put around a statement, does not change which function the
/// statement belongs to.
pub proof fn law_other_nodes_do_not_matter(parents: Seq<Parent>, inner: Parent)
    requires
        match inner.node {
            Node::Item(_, kind) => kind == ItemKind::Other,
            Node::TraitItem(_, kind) => kind == TraitItemKind::Const(false) || kind
                == TraitItemKind::Fn(false) || kind == TraitItemKind::Type,
            Node::ImplItem(_, kind) => kind == ImplItemKind::Type,
            Node::Closure => false,
            Node::Other => true,
        },
    ensures
        owner_of(seq![inner] + parents) == owner_of(parents),
{
    let all = seq![inner] + parents;
    assert(forall|j: int| 0 <= j < parents.len() ==> #[trigger] parents[j] == all[j + 1]);
    assert(all[0] == inner);
    if exists|i: int| settles_owner(parents, i) {
        let i = choose|i: int| settles_owner(parents, i);
        assert forall|j: int| 0 <= j < i + 1 implies (#[trigger] all[j]).node.owns_body() is None
            && !all[j].node.ends_search() by {
            if j > 0 {
                assert(parents[j - 1] == all[j]);
            }
        }
        assert(settles_owner(all, i + 1));
        let k = choose|k: int| settles_owner(all, k);
        assert(k == i + 1);
    }
    if exists|k: int| settles_owner(all, k) {
        let k = choose|k: int| settles_owner(all, k);
        assert(k > 0);
        assert(parents[k - 1] == all[k]);
        assert(settles_owner(parents, k - 1));
    }
}

/// However deep a statement lies in a function, or in a constant that is given a value in a
/// trait or an impl block, it belongs to it, as long as no other of these, no closure and no
/// impl block lies between.
pub proof fn law_owner_at_any_depth(parents: Seq<Parent>, i: int, d: LocalDefId)
    requires
        0 <= i < parents.len(),
        ({
            ||| parents[i].node == Node::Item(d, ItemKind::Fn)
            ||| parents[i].node == Node::TraitItem(d, TraitItemKind::Const(true))
            ||| parents[i].node == Node::TraitItem(d, TraitItemKind::Fn(true))
            ||| parents[i].node == Node::ImplItem(d, ImplItemKind::Const)
            ||| parents[i].node == Node::ImplItem(d, ImplItemKind::Fn)
        }),
        forall|j: int|
            0 <= j < i ==> match (#[trigger] parents[j]).node {
                Node::Item(_, kind) => kind == ItemKind::Other,
                Node::TraitItem(_, kind) => kind == TraitItemKind::Const(false) || kind
                    == TraitItemKind::Fn(false) || kind == TraitItemKind::Type,
                Node::ImplItem(_, kind) => kind == ImplItemKind::Type,
                Node::Closure => false,
                Node::Other => true,
            },
    ensures
        owner_of(parents) == Some(d),
    decreases i,
{
    if i == 0 {
        law_innermost_owner(parents, d);
    } else {
        let outer = parents.skip(1);
        assert(forall|j: int| 0 <= j < outer.len() ==> #[trigger] outer[j] == parents[j + 1]);
        law_owner_at_any_depth(outer, i - 1, d);
        law_other_nodes_do_not_matter(outer, parents[0]);
        assert(seq![parents[0]] + outer =~= parents);
    }
}

/// A statement that belongs to a function lies in it: the function is one of the nodes around
/// the statement.
pub proof fn law_owner_lies_around(parents: Seq<Parent>)
    requires
        owner_of(parents) is Some,
    ensures
        exists|i: int|
            0 <= i < parents.len() && match (#[trigger] parents[i]).node {
                Node::Item(d, kind) => kind == ItemKind::Fn && owner_of(parents) == Some(d),
                Node::TraitItem(d, kind) => kind != TraitItemKind::Type && owner_of(parents)
                    == Some(d),
                Node::ImplItem(d, kind) => kind != ImplItemKind::Type && owner_of(parents)
                    == Some(d),
                _ => false,
            },
{
    let i = choose|i: int| settles_owner(parents, i);
    assert(parents[i].node.owns_body() is Some);
}

/// Where the nodes lie does not matter, only what they are.
pub proof fn law_owner_ignores_spans(a: Seq<Parent>, b: Seq<Parent>)
    requires
        a.len() == b.len(),
        forall|i: int| 0 <= i < a.len() ==> (#[trigger] a[i]).node == b[i].node,
    ensures
        owner_of(a) == owner_of(b),
{
    assert forall|i: int| settles_owner(a, i) == settles_owner(b, i) by {
        assert forall|j: int| 0 <= j < a.len() implies a[j].node == (#[trigger] b[j]).node by {}
    }
    if exists|i: int| settles_owner(a, i) {
        let i = choose|i: int| settles_owner(a, i);
        assert(settles_owner(b, i));
        let k = choose|k: int| settles_owner(b, k);
        assert(settles_owner(a, k));
        assert(i == k);
    }
}

} // verus!
