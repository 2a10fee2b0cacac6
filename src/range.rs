//! Inclusive byte ranges and the primitives that relate two of them.

use regex_syntax::utf8::Utf8Range;
use vstd::prelude::*;

verus! {

/// Relies on `regex_syntax::utf8::Utf8Range`: a plain struct of two public
/// `u8` fields, `start` and `end`, which the logic reads and builds directly.
#[verifier::external_type_specification]
pub struct ExUtf8Range(Utf8Range);

/// A range is well formed when its start does not exceed its end.
pub open spec fn valid(r: Utf8Range) -> bool {
    r.start <= r.end
}

/// Whether byte `b` lies within `r`.
pub open spec fn contains(r: Utf8Range, b: int) -> bool {
    r.start <= b <= r.end
}

/// The range from `start` to `end`, both included.
pub open spec fn mk(start: int, end: int) -> Utf8Range {
    Utf8Range { start: start as u8, end: end as u8 }
}

/// The larger of the two starts.
pub open spec fn max_start(r1: Utf8Range, r2: Utf8Range) -> u8 {
    if r1.start >= r2.start { r1.start } else { r2.start }
}

/// The smaller of the two ends.
pub open spec fn min_end(r1: Utf8Range, r2: Utf8Range) -> u8 {
    if r1.end <= r2.end { r1.end } else { r2.end }
}

/// `[max(starts), min(ends)]` when that is not empty.
pub open spec fn spec_intersect(r1: Utf8Range, r2: Utf8Range) -> Option<Utf8Range> {
    if max_start(r1, r2) <= min_end(r1, r2) {
        Some(Utf8Range { start: max_start(r1, r2), end: min_end(r1, r2) })
    } else {
        None
    }
}

/// `r1` contains every byte of `r2`.
pub open spec fn spec_covers(r1: Utf8Range, r2: Utf8Range) -> bool {
    r1.start <= r2.start && r1.end >= r2.end
}

/// The overlap of two ranges, inclusive, or none when they share no byte.
pub fn intersect(r1: Utf8Range, r2: Utf8Range) -> (r: Option<Utf8Range>)
    ensures
        r == spec_intersect(r1, r2),
{
    let start = if r1.start >= r2.start { r1.start } else { r2.start };
    let end = if r1.end <= r2.end { r1.end } else { r2.end };
    if start <= end {
        Some(Utf8Range { start, end })
    } else {
        None
    }
}

/// Whether every byte of `r2` lies in `r1`.
pub fn covers(r1: Utf8Range, r2: Utf8Range) -> (r: bool)
    ensures
        r == spec_covers(r1, r2),
{
    r1.start <= r2.start && r1.end >= r2.end
}

/// How a range that is being inserted (`new`) relates to one already present
/// (`old`).
pub enum Overlap {
    /// The two ranges are identical.
    Equal(Utf8Range),
    /// The two ranges share no byte: `old`, then `new`.
    Disjoint(Utf8Range, Utf8Range),
    /// The ranges share some bytes but differ. The parts of `old` below and
    /// above the shared part, the shared part, and the parts of `new` below
    /// and above it.
    Partial {
        old_below: Option<Utf8Range>,
        old_above: Option<Utf8Range>,
        both: Utf8Range,
        new_below: Option<Utf8Range>,
        new_above: Option<Utf8Range>,
    },
}

/// The part of `a` strictly below the start of `b`, if any.
pub open spec fn part_below(a: Utf8Range, b: Utf8Range) -> Option<Utf8Range> {
    if a.start < b.start {
        Some(mk(a.start as int, b.start - 1))
    } else {
        None
    }
}

/// The part of `a` strictly above the end of `b`, if any.
pub open spec fn part_above(a: Utf8Range, b: Utf8Range) -> Option<Utf8Range> {
    if a.end > b.end {
        Some(mk(b.end + 1, a.end as int))
    } else {
        None
    }
}

/// The classification of `new` against `old`, with the pieces of a split.
pub open spec fn spec_overlap(old: Utf8Range, new: Utf8Range) -> Overlap {
    if old == new {
        Overlap::Equal(old)
    } else if spec_intersect(old, new) is None {
        Overlap::Disjoint(old, new)
    } else {
        Overlap::Partial {
            old_below: part_below(old, new),
            old_above: part_above(old, new),
            both: spec_intersect(old, new).unwrap(),
            new_below: part_below(new, old),
            new_above: part_above(new, old),
        }
    }
}

/// The part of `a` below the start of `b`.
fn below(a: Utf8Range, b: Utf8Range) -> (r: Option<Utf8Range>)
    ensures
        r == part_below(a, b),
{
    if a.start < b.start {
        Some(Utf8Range { start: a.start, end: b.start - 1 })
    } else {
        None
    }
}

/// The part of `a` above the end of `b`.
fn above(a: Utf8Range, b: Utf8Range) -> (r: Option<Utf8Range>)
    ensures
        r == part_above(a, b),
{
    if a.end > b.end {
        Some(Utf8Range { start: b.end + 1, end: a.end })
    } else {
        None
    }
}

/// Classifies `new` against `old`: equal, disjoint, or partly overlapping,
/// with the pieces that a split of the two needs.
pub fn overlap(old: Utf8Range, new: Utf8Range) -> (r: Overlap)
    ensures
        r == spec_overlap(old, new),
{
    if old.start == new.start && old.end == new.end {
        return Overlap::Equal(old);
    }
    let same = match intersect(old, new) {
        Option::None => return Overlap::Disjoint(old, new),
        Option::Some(same) => same,
    };
    Overlap::Partial {
        old_below: below(old, new),
        old_above: above(old, new),
        both: same,
        new_below: below(new, old),
        new_above: above(new, old),
    }
}

/// The intersection does not depend on the order of its arguments.
pub proof fn lemma_intersect_symmetric(a: Utf8Range, b: Utf8Range)
    ensures
        spec_intersect(a, b) == spec_intersect(b, a),
{
}

/// A well-formed range intersected with itself is itself.
pub proof fn lemma_intersect_self(a: Utf8Range)
    requires
        valid(a),
    ensures
        spec_intersect(a, a) == Some(a),
{
}

/// The intersection is empty exactly when no byte lies in both ranges.
pub proof fn lemma_intersect_none_iff_disjoint(a: Utf8Range, b: Utf8Range)
    ensures
        spec_intersect(a, b) is None <==> !(exists|x: int| contains(a, x) && contains(b, x)),
{
    if spec_intersect(a, b) is Some {
        assert(contains(a, max_start(a, b) as int) && contains(b, max_start(a, b) as int));
    }
}

/// Every range covers itself, and two ranges that cover each other are equal.
pub proof fn lemma_covers_reflexive_antisymmetric(a: Utf8Range, b: Utf8Range)
    ensures
        spec_covers(a, a),
        spec_covers(a, b) && spec_covers(b, a) ==> a == b,
{
}

/// Covering is not symmetric: some range covers another that does not cover
/// it back.
pub proof fn lemma_covers_not_symmetric()
    ensures
        exists|a: Utf8Range, b: Utf8Range|
            valid(a) && valid(b) && spec_covers(a, b) && !spec_covers(b, a),
{
    let a = Utf8Range { start: 0, end: 3 };
    let b = Utf8Range { start: 1, end: 2 };
    assert(spec_covers(a, b) && !spec_covers(b, a));
}

} // verus!
