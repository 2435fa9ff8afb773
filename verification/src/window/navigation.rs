//! Directional focus navigation: which pane of a flattened layout is the
//! nearest one above, below, left or right of a given rectangle.
//!
//! Positions are compared by the centres of the rectangles. A candidate is a
//! pane whose centre lies strictly in the requested direction. Among the
//! candidates the one with the smallest distance along that direction wins;
//! where two are level, the one with the smaller Euclidean distance between
//! centres; where that is equal too, the one that comes first in the layout.

use vstd::prelude::*;
use crate::geometry::Rect;
use crate::window::pane::PaneFlattened;

verus! {

/// A direction in which the focus can move.
#[derive(Clone, Copy, Debug, PartialEq, Eq, Structural)]
pub enum Heading {
    Up,
    Down,
    Left,
    Right,
}

/// The centre of `to` lies strictly in the direction `heading` from the centre
/// of `from`.
pub open spec fn toward(from: Rect, to: Rect, heading: Heading) -> bool {
    match heading {
        Heading::Up => to.centre_y2() < from.centre_y2(),
        Heading::Down => to.centre_y2() > from.centre_y2(),
        Heading::Left => to.centre_x2() < from.centre_x2(),
        Heading::Right => to.centre_x2() > from.centre_x2(),
    }
}

/// Twice the distance between the two centres along the axis of `heading`.
pub open spec fn gap(from: Rect, to: Rect, heading: Heading) -> int {
    match heading {
        Heading::Up => from.centre_y2() - to.centre_y2(),
        Heading::Down => to.centre_y2() - from.centre_y2(),
        Heading::Left => from.centre_x2() - to.centre_x2(),
        Heading::Right => to.centre_x2() - from.centre_x2(),
    }
}

/// Four times the square of the Euclidean distance between the two centres.
pub open spec fn distance_sq(from: Rect, to: Rect) -> int {
    (to.centre_x2() - from.centre_x2()) * (to.centre_x2() - from.centre_x2()) + (to.centre_y2()
        - from.centre_y2()) * (to.centre_y2() - from.centre_y2())
}

/// `a` is strictly nearer to `from` than `b`: a smaller gap, or the same gap
/// and a smaller Euclidean distance.
pub open spec fn nearer(from: Rect, a: Rect, b: Rect, heading: Heading) -> bool {
    gap(from, a, heading) < gap(from, b, heading) || (gap(from, a, heading) == gap(
        from,
        b,
        heading,
    ) && distance_sq(from, a) < distance_sq(from, b))
}

/// Entry `k` is the one that navigation picks: it is a candidate, strictly
/// nearer than every candidate before it, and no candidate after it is
/// strictly nearer.
pub open spec fn is_nearest(
    entries: Seq<PaneFlattened>,
    from: Rect,
    heading: Heading,
    k: int,
) -> bool {
    &&& 0 <= k < entries.len()
    &&& toward(from, entries[k].rect, heading)
    &&& forall|j: int|
        0 <= j < k && toward(from, (#[trigger] entries[j]).rect, heading) ==> nearer(
            from,
            entries[k].rect,
            entries[j].rect,
            heading,
        )
    &&& forall|j: int|
        k < j < entries.len() && toward(from, (#[trigger] entries[j]).rect, heading) ==> !nearer(
            from,
            entries[j].rect,
            entries[k].rect,
            heading,
        )
}

/// Some entry is a candidate.
pub open spec fn has_candidate(entries: Seq<PaneFlattened>, from: Rect, heading: Heading) -> bool {
    exists|j: int| 0 <= j < entries.len() && toward(from, (#[trigger] entries[j]).rect, heading)
}

/// The entry that navigation picks, if there is a candidate.
pub open spec fn target(entries: Seq<PaneFlattened>, from: Rect, heading: Heading) -> Option<int> {
    if exists|k: int| is_nearest(entries, from, heading, k) {
        Some(choose|k: int| is_nearest(entries, from, heading, k))
    } else {
        None
    }
}

/// Navigation picks at most one entry.
pub proof fn lemma_nearest_unique(
    entries: Seq<PaneFlattened>,
    from: Rect,
    heading: Heading,
    k1: int,
    k2: int,
)
    requires
        is_nearest(entries, from, heading, k1),
        is_nearest(entries, from, heading, k2),
    ensures
        k1 == k2,
{
    if k1 < k2 {
        assert(toward(from, entries[k1].rect, heading));
        assert(nearer(from, entries[k2].rect, entries[k1].rect, heading));
        assert(toward(from, entries[k2].rect, heading));
        assert(!nearer(from, entries[k2].rect, entries[k1].rect, heading));
    } else if k2 < k1 {
        assert(toward(from, entries[k2].rect, heading));
        assert(nearer(from, entries[k1].rect, entries[k2].rect, heading));
        assert(toward(from, entries[k1].rect, heading));
        assert(!nearer(from, entries[k1].rect, entries[k2].rect, heading));
    }
}

/// Once an entry is known to be the nearest, it is the target.
pub proof fn lemma_target_is(entries: Seq<PaneFlattened>, from: Rect, heading: Heading, k: int)
    requires
        is_nearest(entries, from, heading, k),
    ensures
        target(entries, from, heading) == Some(k),
{
    let c = choose|c: int| is_nearest(entries, from, heading, c);
    lemma_nearest_unique(entries, from, heading, c, k);
}

/// Without a candidate there is no target.
pub proof fn lemma_no_target(entries: Seq<PaneFlattened>, from: Rect, heading: Heading)
    requires
        !has_candidate(entries, from, heading),
    ensures
        target(entries, from, heading) is None,
{
    if exists|k: int| is_nearest(entries, from, heading, k) {
        let k = choose|k: int| is_nearest(entries, from, heading, k);
        assert(toward(from, entries[k].rect, heading));
    }
}

/// Twice the horizontal coordinate of the centre of `r`.
fn centre_x2(r: &Rect) -> (c: i64)
    ensures
        c == r.centre_x2(),
        0 <= c <= 3 * 0xffff,
{
    2 * (r.x as i64) + r.width as i64
}

/// Twice the vertical coordinate of the centre of `r`.
fn centre_y2(r: &Rect) -> (c: i64)
    ensures
        c == r.centre_y2(),
        0 <= c <= 3 * 0xffff,
{
    2 * (r.y as i64) + r.height as i64
}

/// Whether the centre of `to` lies strictly in the direction `heading` from
/// the centre of `from`.
pub fn lies_toward(from: &Rect, to: &Rect, heading: Heading) -> (b: bool)
    ensures
        b == toward(*from, *to, heading),
{
    match heading {
        Heading::Up => centre_y2(to) < centre_y2(from),
        Heading::Down => centre_y2(to) > centre_y2(from),
        Heading::Left => centre_x2(to) < centre_x2(from),
        Heading::Right => centre_x2(to) > centre_x2(from),
    }
}

/// The gap and the squared distance by which candidates are ordered.
fn measure(from: &Rect, to: &Rect, heading: Heading) -> (m: (i64, i64))
    ensures
        m.0 == gap(*from, *to, heading),
        m.1 == distance_sq(*from, *to),
{
    let dx: i64 = centre_x2(to) - centre_x2(from);
    let dy: i64 = centre_y2(to) - centre_y2(from);
    assert(dx * dx <= 3 * 0xffff * (3 * 0xffff)) by (nonlinear_arith)
        requires
            -3 * 0xffff <= dx <= 3 * 0xffff,
    ;
    assert(dy * dy <= 3 * 0xffff * (3 * 0xffff)) by (nonlinear_arith)
        requires
            -3 * 0xffff <= dy <= 3 * 0xffff,
    ;
    assert(0 <= dx * dx) by (nonlinear_arith);
    assert(0 <= dy * dy) by (nonlinear_arith);
    let along: i64 = match heading {
        Heading::Up => -dy,
        Heading::Down => dy,
        Heading::Left => -dx,
        Heading::Right => dx,
    };
    (along, dx * dx + dy * dy)
}

/// Finds the entry that navigation picks when the focus moves in the direction
/// `heading` from the rectangle `from`: the index of the nearest candidate,
/// or `None` when no entry lies in that direction.
pub fn nearest(entries: &Vec<PaneFlattened>, from: &Rect, heading: Heading) -> (found: Option<
    usize,
>)
    ensures
        match found {
            Some(k) => is_nearest(entries@, *from, heading, k as int),
            None => !has_candidate(entries@, *from, heading),
        },
        found == match target(entries@, *from, heading) {
            Some(k) => Some(k as usize),
            None => None,
        },
{
    let mut best: Option<usize> = None;
    let mut best_gap: i64 = 0;
    let mut best_distance: i64 = 0;
    let mut i: usize = 0;
    while i < entries.len()
        invariant
            0 <= i <= entries.len(),
            match best {
                Some(k) => {
                    &&& k < i
                    &&& is_nearest(entries@.take(i as int), *from, heading, k as int)
                    &&& best_gap == gap(*from, entries@[k as int].rect, heading)
                    &&& best_distance == distance_sq(*from, entries@[k as int].rect)
                },
                None => forall|j: int|
                    0 <= j < i ==> !toward(*from, (#[trigger] entries@[j]).rect, heading),
            },
        decreases entries.len() - i,
    {
        let ghost before = entries@.take(i as int);
        let ghost after = entries@.take(i + 1);
        let entry = &entries[i];
        proof {
            assert(after[i as int] == entries@[i as int]);
            assert forall|j: int| 0 <= j < i implies #[trigger] after[j] == before[j] by {}
        }
        if lies_toward(from, &entry.rect, heading) {
            let m = measure(from, &entry.rect, heading);
            let better: bool = match best {
                Some(_) => m.0 < best_gap || (m.0 == best_gap && m.1 < best_distance),
                None => true,
            };
            if better {
                proof {
                    let k = i as int;
                    assert forall|j: int|
                        0 <= j < k && toward(*from, (#[trigger] after[j]).rect, heading) implies nearer(
                        *from,
                        after[k].rect,
                        after[j].rect,
                        heading,
                    ) by {
                        assert(after[j] == before[j]);
                        match best {
                            Some(b) => {
                                let b = b as int;
                                assert(before[b] == entries@[b]);
                                if j < b {
                                    assert(nearer(*from, before[b].rect, before[j].rect, heading));
                                } else if j > b {
                                    assert(!nearer(*from, before[j].rect, before[b].rect, heading));
                                }
                            },
                            None => {
                                assert(before[j] == entries@[j]);
                            },
                        }
                    }
                    assert(is_nearest(after, *from, heading, k));
                }
                best = Some(i);
                best_gap = m.0;
                best_distance = m.1;
            } else {
                proof {
                    let b = best->Some_0 as int;
                    assert(before[b] == entries@[b]);
                    assert(after[b] == entries@[b]);
                    assert forall|j: int|
                        0 <= j < b && toward(*from, (#[trigger] after[j]).rect, heading) implies nearer(
                        *from,
                        after[b].rect,
                        after[j].rect,
                        heading,
                    ) by {
                        assert(after[j] == before[j]);
                    }
                    assert forall|j: int|
                        b < j < after.len() && toward(
                            *from,
                            (#[trigger] after[j]).rect,
                            heading,
                        ) implies !nearer(*from, after[j].rect, after[b].rect, heading) by {
                        if j < i {
                            assert(after[j] == before[j]);
                        }
                    }
                    assert(is_nearest(after, *from, heading, b));
                }
            }
        } else {
            proof {
                match best {
                    Some(b) => {
                        let b = b as int;
                        assert(before[b] == entries@[b]);
                        assert(after[b] == entries@[b]);
                        assert forall|j: int|
                            0 <= j < b && toward(
                                *from,
                                (#[trigger] after[j]).rect,
                                heading,
                            ) implies nearer(*from, after[b].rect, after[j].rect, heading) by {
                            assert(after[j] == before[j]);
                        }
                        assert forall|j: int|
                            b < j < after.len() && toward(
                                *from,
                                (#[trigger] after[j]).rect,
                                heading,
                            ) implies !nearer(*from, after[j].rect, after[b].rect, heading) by {
                            if j < i {
                                assert(after[j] == before[j]);
                            }
                        }
                        assert(is_nearest(after, *from, heading, b));
                    },
                    None => {},
                }
            }
        }
        i = i + 1;
    }
    proof {
        assert(entries@.take(entries.len() as int) == entries@);
        match best {
            Some(k) => {
                lemma_target_is(entries@, *from, heading, k as int);
            },
            None => {
                lemma_no_target(entries@, *from, heading);
            },
        }
    }
    best
}

} // verus!
