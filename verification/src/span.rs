//! Source ranges and how two of them lie to each other.

use vstd::prelude::*;

verus! {

/// The context of code that no macro produced.
pub const ROOT_CONTEXT: u32 = 0;

/// A range of source bytes, the expansion context that produced it, and the item, if any,
/// that it is recorded relative to.
#[derive(Clone, Copy, Debug, PartialEq, Eq, Structural)]
pub struct Span {
    pub lo: u32,
    pub hi: u32,
    pub ctxt: u32,
    pub parent: Option<u32>,
}

impl Span {
    /// Whether the range of `other` lies within the range of `self`.
    pub open spec fn spec_contains(self, other: Span) -> bool {
        self.lo <= other.lo && other.hi <= self.hi
    }

    /// Whether the two ranges share a byte.
    pub open spec fn spec_overlaps(self, other: Span) -> bool {
        self.lo < other.hi && other.lo < self.hi
    }

    /// Whether a macro or a desugaring produced the span.
    pub open spec fn spec_from_expansion(self) -> bool {
        self.ctxt != ROOT_CONTEXT
    }

    /// The two spans are the same or have different ranges.
    pub open spec fn told_by_range(self, other: Span) -> bool {
        self.lo == other.lo && self.hi == other.hi ==> self == other
    }

    /// Contains `other` and is not the same span.
    pub open spec fn encloses(self, other: Span) -> bool {
        self != other && self.spec_contains(other)
    }

    #[verifier::when_used_as_spec(spec_contains)]
    pub fn contains(self, other: Span) -> (r: bool)
        ensures
            r == self.spec_contains(other),
            r <==> self.lo <= other.lo && other.hi <= self.hi,
    {
        self.lo <= other.lo && other.hi <= self.hi
    }

    #[verifier::when_used_as_spec(spec_overlaps)]
    pub fn overlaps(self, other: Span) -> (r: bool)
        ensures
            r == self.spec_overlaps(other),
            r <==> self.lo < other.hi && other.lo < self.hi,
    {
        self.lo < other.hi && other.lo < self.hi
    }

    #[verifier::when_used_as_spec(spec_from_expansion)]
    pub fn from_expansion(self) -> (r: bool)
        ensures
            r == self.spec_from_expansion(),
            r <==> self.ctxt != ROOT_CONTEXT,
    {
        self.ctxt != ROOT_CONTEXT
    }
}

/// What the session knows of expansion contexts: those that a macro of another crate made.
pub struct Session {
    pub external_macros: Vec<u32>,
}

impl Session {
    /// Whether a macro of another crate produced `span`.
    pub open spec fn is_external(self, span: Span) -> bool {
        self.external_macros@.contains(span.ctxt)
    }
}

/// Whether a macro of another crate produced `span`.
pub fn in_external_macro(sess: &Session, span: Span) -> (r: bool)
    ensures
        r == sess.is_external(span),
        r <==> exists|i: int|
            0 <= i < sess.external_macros@.len() && #[trigger] sess.external_macros@[i] == span.ctxt,
{
    let mut i: usize = 0;
    while i < sess.external_macros.len()
        invariant
            i <= sess.external_macros.len(),
            forall|j: int| 0 <= j < i ==> sess.external_macros@[j] != span.ctxt,
        decreases sess.external_macros.len() - i,
    {
        if sess.external_macros[i] == span.ctxt {
            return true;
        }
        i += 1;
    }
    false
}

/// Produced by an expansion of any kind, so not written by hand at this place.
pub open spec fn expanded(sess: &Session, span: Span) -> bool {
    span.from_expansion() || sess.is_external(span)
}

/// How two spans lie to each other.
#[derive(Clone, Copy, Debug, PartialEq, Eq, Structural)]
pub enum SpanCmp {
    Eq,
    AContainB,
    BContainA,
    Overlap,
    NoOverLap,
}

/// How `a` lies to `b`.
pub open spec fn relation(a: Span, b: Span) -> SpanCmp {
    if a == b {
        SpanCmp::Eq
    } else if a.contains(b) {
        SpanCmp::AContainB
    } else if b.contains(a) {
        SpanCmp::BContainA
    } else if a.overlaps(b) {
        SpanCmp::Overlap
    } else {
        SpanCmp::NoOverLap
    }
}

pub fn cmp_span(a: Span, b: Span) -> (r: SpanCmp)
    ensures
        r == relation(a, b),
        r == SpanCmp::Eq <==> a == b,
        r == SpanCmp::AContainB <==> a != b && a.lo <= b.lo && b.hi <= a.hi,
        r == SpanCmp::BContainA <==> b.lo <= a.lo && a.hi <= b.hi && !(a.lo <= b.lo && b.hi <= a.hi),
        r == SpanCmp::Overlap <==> !(a.lo <= b.lo && b.hi <= a.hi) && !(b.lo <= a.lo && a.hi
            <= b.hi) && a.lo < b.hi && b.lo < a.hi,
{
    if a == b {
        return SpanCmp::Eq;
    }
    if a.contains(b) {
        return SpanCmp::AContainB;
    }
    if b.contains(a) {
        return SpanCmp::BContainA;
    }
    if a.overlaps(b) {
        return SpanCmp::Overlap;
    }
    SpanCmp::NoOverLap
}

/// The relation seen from the other side.
pub open spec fn mirrored(r: SpanCmp) -> SpanCmp {
    match r {
        SpanCmp::AContainB => SpanCmp::BContainA,
        SpanCmp::BContainA => SpanCmp::AContainB,
        other => other,
    }
}

/// How two spans that their ranges tell apart lie to each other, told by their bounds: they
/// are equal, one holds the other and is longer, each sticks out of the other at one end, or
/// one ends before the other begins.
pub proof fn law_relation_by_bounds(a: Span, b: Span)
    requires
        a.told_by_range(b),
        a.lo <= a.hi,
        b.lo <= b.hi,
    ensures
        relation(a, b) == SpanCmp::Eq <==> a.lo == b.lo && a.hi == b.hi,
        relation(a, b) == SpanCmp::AContainB <==> a.lo <= b.lo && b.hi <= a.hi && (a.lo < b.lo
            || b.hi < a.hi),
        relation(a, b) == SpanCmp::BContainA <==> b.lo <= a.lo && a.hi <= b.hi && (b.lo < a.lo
            || a.hi < b.hi),
        relation(a, b) == SpanCmp::Overlap <==> a.lo < b.lo < a.hi < b.hi || b.lo < a.lo < b.hi
            < a.hi,
        relation(a, b) == SpanCmp::NoOverLap <==> !a.contains(b) && !b.contains(a) && (a.hi <= b.lo
            || b.hi <= a.lo),
{
}

/// Swapping two spans that their ranges tell apart mirrors how they lie to each other.
pub proof fn law_relation_mirrors(a: Span, b: Span)
    requires
        a.told_by_range(b),
    ensures
        relation(b, a) == mirrored(relation(a, b)),
{
}

/// Two spans that hold a common nonempty range are never apart: they are the same, one
/// holds the other, or the two overlap.
pub proof fn law_common_range_is_shared(a: Span, b: Span, target: Span)
    requires
        a.contains(target),
        b.contains(target),
        target.lo < target.hi,
    ensures
        relation(a, b) != SpanCmp::NoOverLap,
{
}

/// Strict enclosure is transitive, except that it may lead back to where it began.
pub proof fn law_encloses_transitive(a: Span, b: Span, c: Span)
    requires
        a.encloses(b),
        b.encloses(c),
        a != c,
    ensures
        a.encloses(c),
{
}


/// One span contains another, that is no less than empty, exactly when no position of the
/// other lies outside of it.
pub proof fn law_contains_every_position(a: Span, b: Span)
    requires
        b.lo <= b.hi,
    ensures
        a.contains(b) <==> forall|p: int| b.lo <= p <= b.hi ==> #[trigger] within(a, p),
{
    if forall|p: int| b.lo <= p <= b.hi ==> #[trigger] within(a, p) {
        assert(within(a, b.lo as int));
        assert(within(a, b.hi as int));
    }
}

/// The position is one of the span's, its two ends included.
pub open spec fn within(a: Span, p: int) -> bool {
    a.lo <= p <= a.hi
}

/// Two spans that are not empty overlap exactly when they share a byte.
pub proof fn law_overlaps_in_a_byte(a: Span, b: Span)
    requires
        a.lo < a.hi,
        b.lo < b.hi,
    ensures
        a.overlaps(b) <==> exists|p: int| #[trigger] within(a, p) && within(b, p) && p < a.hi && p
            < b.hi,
{
    if a.overlaps(b) {
        let p = if a.lo <= b.lo {
            b.lo as int
        } else {
            a.lo as int
        };
        assert(within(a, p) && within(b, p));
    }
}

/// Whether a span comes out of an expansion is told by its context alone: that of the root
/// does not, unless the session says so, and every other does.
pub proof fn law_context_tells_expansion(sess: &Session, span: Span)
    ensures
        expanded(sess, span) <==> span.ctxt != ROOT_CONTEXT || exists|i: int|
            0 <= i < sess.external_macros@.len() && #[trigger] sess.external_macros@[i] == ROOT_CONTEXT,
{
}

/// Two spans with one range that are not the same each contain the other, so the first of the
/// two is said to contain the second.
pub proof fn law_same_range_contains(a: Span, b: Span)
    requires
        a.lo == b.lo,
        a.hi == b.hi,
        a.ctxt != b.ctxt || a.parent != b.parent,
    ensures
        relation(a, b) == SpanCmp::AContainB,
        relation(b, a) == SpanCmp::AContainB,
        a.encloses(b),
        b.encloses(a),
{
}

/// Of two spans, the one that reaches further at one end and no less far at the other encloses
/// the other, whatever else tells the two apart.
pub proof fn law_longer_encloses(a: Span, b: Span)
    ensures
        a.lo < b.lo && b.hi <= a.hi || a.lo <= b.lo && b.hi < a.hi ==> a.encloses(b) && relation(
            a,
            b,
        ) == SpanCmp::AContainB,
        a.lo > b.lo || a.hi < b.hi ==> !a.encloses(b) && relation(a, b) != SpanCmp::AContainB,
{
}

/// One span encloses another exactly when it reaches at least as far at both ends and is not
/// the same span.
pub proof fn law_encloses_by_bounds(a: Span, b: Span)
    ensures
        a.encloses(b) <==> a.lo <= b.lo && b.hi <= a.hi && !(a.lo == b.lo && a.hi == b.hi && a.ctxt
            == b.ctxt && a.parent == b.parent),
{
}

} // verus!
