//! Integer rectangles and the dirty-region tracker: the tracker accumulates
//! the coordinates written since the last flush and hands out the minimal
//! axis-aligned rectangle covering all of them.

use vstd::prelude::*;

verus! {

/// An axis-aligned rectangle of pixels: origin `(x, y)`, extent `w` by `h`.
#[derive(Clone, Copy, PartialEq, Eq, Structural, Debug)]
pub struct Rect {
    pub x: u32,
    pub y: u32,
    pub w: u32,
    pub h: u32,
}

impl Rect {
    /// Whether the point `(px, py)` lies inside the rectangle.
    pub open spec fn spec_contains(self, px: int, py: int) -> bool {
        &&& self.x <= px < self.x + self.w
        &&& self.y <= py < self.y + self.h
    }
}

/// Whether `r` covers every point of `s`.
pub open spec fn rect_covers(r: Rect, s: Set<(u32, u32)>) -> bool {
    forall|p: (u32, u32)| s.contains(p) ==> r.spec_contains(#[trigger] p.0 as int, p.1 as int)
}

/// Whether `r` is the minimal rectangle covering `s`: it covers every point
/// of `s`, and each of its four edges passes through some point of `s`.
pub open spec fn rect_tight(r: Rect, s: Set<(u32, u32)>) -> bool {
    &&& rect_covers(r, s)
    &&& r.w >= 1
    &&& r.h >= 1
    &&& exists|p: (u32, u32)| #[trigger] s.contains(p) && p.0 == r.x
    &&& exists|p: (u32, u32)| #[trigger] s.contains(p) && p.1 == r.y
    &&& exists|p: (u32, u32)| #[trigger] s.contains(p) && p.0 == r.x + r.w - 1
    &&& exists|p: (u32, u32)| #[trigger] s.contains(p) && p.1 == r.y + r.h - 1
}

/// The minimal covering rectangle is contained in every rectangle that
/// covers the same points.
pub proof fn lemma_tight_rect_minimal(r: Rect, r2: Rect, s: Set<(u32, u32)>)
    requires
        rect_tight(r, s),
        rect_covers(r2, s),
    ensures
        r2.x <= r.x,
        r2.y <= r.y,
        r.x + r.w <= r2.x + r2.w,
        r.y + r.h <= r2.y + r2.h,
{
    let pl = choose|p: (u32, u32)| #[trigger] s.contains(p) && p.0 == r.x;
    let pt = choose|p: (u32, u32)| #[trigger] s.contains(p) && p.1 == r.y;
    let pr = choose|p: (u32, u32)| #[trigger] s.contains(p) && p.0 == r.x + r.w - 1;
    let pb = choose|p: (u32, u32)| #[trigger] s.contains(p) && p.1 == r.y + r.h - 1;
    assert(r2.spec_contains(pl.0 as int, pl.1 as int));
    assert(r2.spec_contains(pt.0 as int, pt.1 as int));
    assert(r2.spec_contains(pr.0 as int, pr.1 as int));
    assert(r2.spec_contains(pb.0 as int, pb.1 as int));
}

/// Accumulates the extremes of the coordinates given to `track`, and on
/// `flush` hands out the minimal rectangle covering them all, wiping its
/// state. The set of coordinates seen since the last flush is carried as a
/// ghost field so that contracts can speak of exactly which points a
/// rectangle accounts for.
pub struct BoundsTracker {
    empty: bool,
    min_x: u32,
    min_y: u32,
    max_x: u32,
    max_y: u32,
    seen: Ghost<Set<(u32, u32)>>,
}

impl BoundsTracker {
    /// The coordinates tracked since the last flush.
    pub closed spec fn tracked_set(self) -> Set<(u32, u32)> {
        self.seen@
    }

    /// The tracker's internal consistency: the recorded extremes are the
    /// extremes of the tracked set, and an empty tracker has seen nothing.
    pub closed spec fn inv(self) -> bool {
        &&& (self.empty ==> self.seen@ =~= Set::<(u32, u32)>::empty())
        &&& (!self.empty ==> {
            &&& (forall|p: (u32, u32)|
                #[trigger] self.seen@.contains(p) ==> {
                    &&& self.min_x <= p.0 <= self.max_x
                    &&& self.min_y <= p.1 <= self.max_y
                })
            &&& exists|p: (u32, u32)| #[trigger] self.seen@.contains(p) && p.0 == self.min_x
            &&& exists|p: (u32, u32)| #[trigger] self.seen@.contains(p) && p.1 == self.min_y
            &&& exists|p: (u32, u32)| #[trigger] self.seen@.contains(p) && p.0 == self.max_x
            &&& exists|p: (u32, u32)| #[trigger] self.seen@.contains(p) && p.1 == self.max_y
            &&& self.max_x < u32::MAX
            &&& self.max_y < u32::MAX
        })
    }

    /// A fresh tracker that has seen no coordinates.
    pub fn new() -> (t: BoundsTracker)
        ensures
            t.inv(),
            t.tracked_set() =~= Set::<(u32, u32)>::empty(),
    {
        BoundsTracker {
            empty: true,
            min_x: 0,
            min_y: 0,
            max_x: 0,
            max_y: 0,
            seen: Ghost(Set::empty()),
        }
    }

    /// Records that the pixel at `(x, y)` was written.
    pub fn track(&mut self, x: u32, y: u32)
        requires
            old(self).inv(),
            x < u32::MAX,
            y < u32::MAX,
        ensures
            final(self).inv(),
            final(self).tracked_set() =~= old(self).tracked_set().insert((x, y)),
    {
        if self.min_x > x || self.empty {
            self.min_x = x;
        }
        if self.min_y > y || self.empty {
            self.min_y = y;
        }
        if self.max_x < x || self.empty {
            self.max_x = x;
        }
        if self.max_y < y || self.empty {
            self.max_y = y;
        }
        self.empty = false;
        proof {
            self.seen@ = self.seen@.insert((x, y));
            assert(self.seen@.contains((x, y)));
            if !old(self).empty {
                let s0 = old(self).tracked_set();
                if self.min_x != x {
                    let p = choose|p: (u32, u32)| #[trigger] s0.contains(p) && p.0
                        == old(self).min_x;
                    assert(self.seen@.contains(p));
                }
                if self.min_y != y {
                    let p = choose|p: (u32, u32)| #[trigger] s0.contains(p) && p.1
                        == old(self).min_y;
                    assert(self.seen@.contains(p));
                }
                if self.max_x != x {
                    let p = choose|p: (u32, u32)| #[trigger] s0.contains(p) && p.0
                        == old(self).max_x;
                    assert(self.seen@.contains(p));
                }
                if self.max_y != y {
                    let p = choose|p: (u32, u32)| #[trigger] s0.contains(p) && p.1
                        == old(self).max_y;
                    assert(self.seen@.contains(p));
                }
            }
            assert forall|p: (u32, u32)| #[trigger] self.seen@.contains(p) implies {
                &&& self.min_x <= p.0 <= self.max_x
                &&& self.min_y <= p.1 <= self.max_y
            } by {
                if p != (x, y) {
                    assert(old(self).tracked_set().contains(p));
                }
            }
            assert(self.inv());
        }
    }

    /// The minimal rectangle covering everything tracked so far, or `None`
    /// if nothing was tracked; the tracked set is left as it is.
    pub fn to_rect(&self) -> (r: Option<Rect>)
        requires
            self.inv(),
        ensures
            r is None <==> self.tracked_set() =~= Set::<(u32, u32)>::empty(),
            r matches Some(rect) ==> rect_tight(rect, self.tracked_set()),
    {
        if self.empty {
            return None;
        }
        Some(
            Rect {
                x: self.min_x,
                y: self.min_y,
                w: self.max_x - self.min_x + 1,
                h: self.max_y - self.min_y + 1,
            },
        )
    }

    /// Hands out the minimal rectangle covering everything tracked since
    /// the last flush — or `None` if nothing was — and wipes the tracker.
    pub fn flush(&mut self) -> (r: Option<Rect>)
        requires
            old(self).inv(),
        ensures
            final(self).inv(),
            final(self).tracked_set() =~= Set::<(u32, u32)>::empty(),
            r is None <==> old(self).tracked_set() =~= Set::<(u32, u32)>::empty(),
            r matches Some(rect) ==> rect_tight(rect, old(self).tracked_set()),
    {
        let r = self.to_rect();
        self.empty = true;
        proof {
            self.seen@ = Set::empty();
        }
        r
    }
}

} // verus!
