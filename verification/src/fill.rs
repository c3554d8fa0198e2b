//! The bucket tool's algorithms: 4-connected flood fill with a locally
//! chained tolerance, and whole-buffer global fill against the seed color.
//! The flood fill's contract is stated over reachability: a pixel is
//! repainted exactly when some 4-connected path from the seed steps only
//! between original colors within the tolerance.

use vstd::prelude::*;

use crate::color::Rgba;
use crate::color::color_dist;
use crate::color::compare_colors;
use crate::raster::lemma_row_major_in_range;
use crate::raster::lemma_row_major_injective;
use crate::raster::row_major;
use crate::rect::BoundsTracker;

verus! {

/// Two grid cells share an edge (4-connectivity).
pub open spec fn adjacent4(p: (int, int), q: (int, int)) -> bool {
    ||| (p.0 == q.0 && p.1 + 1 == q.1)
    ||| (p.0 == q.0 && q.1 + 1 == p.1)
    ||| (p.1 == q.1 && p.0 + 1 == q.0)
    ||| (p.1 == q.1 && q.0 + 1 == p.0)
}

/// Whether the cell lies inside a `w` by `h` grid.
pub open spec fn cell_in_bounds(w: int, h: int, p: (int, int)) -> bool {
    0 <= p.0 < w && 0 <= p.1 < h
}

/// The color of a cell in a flat row-major buffer `w` wide.
pub open spec fn cell_color(buf: Seq<Rgba>, w: int, p: (int, int)) -> Rgba {
    buf[row_major(w, p.0, p.1)]
}

/// A flood fill may step from `p` to an in-bounds neighbour `q` when their
/// colors in the original buffer differ by at most the tolerance. The
/// comparison is against the color of `p` — the pixel the fill just came
/// through — not against the seed, so the tolerance chains locally.
pub open spec fn fill_edge(
    buf: Seq<Rgba>,
    w: int,
    h: int,
    tol: int,
    p: (int, int),
    q: (int, int),
) -> bool {
    &&& cell_in_bounds(w, h, p)
    &&& cell_in_bounds(w, h, q)
    &&& adjacent4(p, q)
    &&& color_dist(cell_color(buf, w, q), cell_color(buf, w, p)) <= tol
}

/// A path the fill can take: it starts at `seed`, ends at `p`, and each
/// step is a legal fill step.
pub open spec fn is_fill_path(
    buf: Seq<Rgba>,
    w: int,
    h: int,
    tol: int,
    path: Seq<(int, int)>,
    seed: (int, int),
    p: (int, int),
) -> bool {
    &&& path.len() >= 1
    &&& path[0] == seed
    &&& path[path.len() - 1] == p
    &&& cell_in_bounds(w, h, seed)
    &&& forall|i: int|
        0 <= i < path.len() - 1 ==> fill_edge(buf, w, h, tol, #[trigger] path[i], path[i + 1])
}

/// The flood fill repaints exactly the cells reachable from the seed.
pub open spec fn fill_reachable(
    buf: Seq<Rgba>,
    w: int,
    h: int,
    tol: int,
    seed: (int, int),
    p: (int, int),
) -> bool {
    exists|path: Seq<(int, int)>| is_fill_path(buf, w, h, tol, path, seed, p)
}

/// The seed of a fill is reachable from itself.
pub proof fn lemma_reach_refl(buf: Seq<Rgba>, w: int, h: int, tol: int, seed: (int, int))
    requires
        cell_in_bounds(w, h, seed),
    ensures
        fill_reachable(buf, w, h, tol, seed, seed),
{
    let path = seq![seed];
    assert(is_fill_path(buf, w, h, tol, path, seed, seed));
}

/// Reachability extends across one legal fill step.
pub proof fn lemma_reach_step(
    buf: Seq<Rgba>,
    w: int,
    h: int,
    tol: int,
    seed: (int, int),
    p: (int, int),
    q: (int, int),
)
    requires
        fill_reachable(buf, w, h, tol, seed, p),
        fill_edge(buf, w, h, tol, p, q),
    ensures
        fill_reachable(buf, w, h, tol, seed, q),
{
    let path = choose|path: Seq<(int, int)>| is_fill_path(buf, w, h, tol, path, seed, p);
    let path2 = path.push(q);
    assert forall|i: int| 0 <= i < path2.len() - 1 implies fill_edge(
        buf,
        w,
        h,
        tol,
        #[trigger] path2[i],
        path2[i + 1],
    ) by {
        if i < path.len() - 1 {
            assert(path2[i] == path[i]);
            assert(path2[i + 1] == path[i + 1]);
        } else {
            assert(path2[i] == p);
            assert(path2[i + 1] == q);
        }
    }
    assert(is_fill_path(buf, w, h, tol, path2, seed, q));
}

/// Every cell on a fill path out of a visited-and-closed set is itself in
/// the set: the workhorse of the fill's completeness argument.
proof fn lemma_path_stays_closed(
    buf: Seq<Rgba>,
    w: int,
    h: int,
    tol: int,
    path: Seq<(int, int)>,
    seed: (int, int),
    p: (int, int),
    vs: Seq<bool>,
)
    requires
        is_fill_path(buf, w, h, tol, path, seed, p),
        vs.len() == w * h,
        vs[row_major(w, seed.0, seed.1)],
        forall|p2: (int, int), q2: (int, int)|
            cell_in_bounds(w, h, p2) && vs[row_major(w, p2.0, p2.1)] && #[trigger] fill_edge(
                buf,
                w,
                h,
                tol,
                p2,
                q2,
            ) ==> vs[row_major(w, q2.0, q2.1)],
    ensures
        cell_in_bounds(w, h, p),
        vs[row_major(w, p.0, p.1)],
    decreases path.len(),
{
    if path.len() == 1 {
        assert(p == seed);
    } else {
        let shorter = path.drop_last();
        let prior = path[path.len() - 2];
        assert(fill_edge(buf, w, h, tol, path[path.len() - 2], path[path.len() - 1]));
        assert forall|i: int| 0 <= i < shorter.len() - 1 implies fill_edge(
            buf,
            w,
            h,
            tol,
            #[trigger] shorter[i],
            shorter[i + 1],
        ) by {
            assert(shorter[i] == path[i]);
            assert(shorter[i + 1] == path[i + 1]);
            assert(fill_edge(buf, w, h, tol, path[i], path[i + 1]));
        }
        assert(is_fill_path(buf, w, h, tol, shorter, seed, prior));
        lemma_path_stays_closed(buf, w, h, tol, shorter, seed, prior, vs);
    }
}

/// Every reachable cell belongs to any set that holds the seed and is
/// closed under fill steps.
pub proof fn lemma_reachable_in_closed_set(
    buf: Seq<Rgba>,
    w: int,
    h: int,
    tol: int,
    seed: (int, int),
    p: (int, int),
    vs: Seq<bool>,
)
    requires
        fill_reachable(buf, w, h, tol, seed, p),
        vs.len() == w * h,
        cell_in_bounds(w, h, seed),
        vs[row_major(w, seed.0, seed.1)],
        forall|p2: (int, int), q2: (int, int)|
            cell_in_bounds(w, h, p2) && vs[row_major(w, p2.0, p2.1)] && #[trigger] fill_edge(
                buf,
                w,
                h,
                tol,
                p2,
                q2,
            ) ==> vs[row_major(w, q2.0, q2.1)],
    ensures
        cell_in_bounds(w, h, p),
        vs[row_major(w, p.0, p.1)],
{
    let path = choose|path: Seq<(int, int)>| is_fill_path(buf, w, h, tol, path, seed, p);
    lemma_path_stays_closed(buf, w, h, tol, path, seed, p, vs);
}

/// What a flood fill leaves behind: every reachable cell turned to
/// `target`, every other cell kept.
pub open spec fn flood_result(
    buf: Seq<Rgba>,
    w: int,
    h: int,
    tol: int,
    seed: (int, int),
    target: Rgba,
) -> Seq<Rgba> {
    Seq::new(
        buf.len(),
        |i: int|
            if fill_reachable(buf, w, h, tol, seed, (i % w, i / w)) {
                target
            } else {
                buf[i]
            },
    )
}

/// What a global fill leaves behind: every cell whose original color lies
/// within the tolerance of the seed cell's original color turned to
/// `target`, every other cell kept.
pub open spec fn global_result(buf: Seq<Rgba>, seed_idx: int, tol: int, target: Rgba) -> Seq<
    Rgba,
> {
    Seq::new(
        buf.len(),
        |i: int|
            if color_dist(buf[i], buf[seed_idx]) <= tol {
                target
            } else {
                buf[i]
            },
    )
}

/// Repaints every pixel of the buffer whose color is within `tolerance`
/// of the color found at `(x, y)` — connectivity plays no part — and
/// returns a tracker holding exactly the repainted coordinates.
pub fn global_fill(
    width: usize,
    pixels: &mut Vec<Rgba>,
    x: usize,
    y: usize,
    target_color: Rgba,
    tolerance: u16,
) -> (t: BoundsTracker)
    requires
        0 < width <= 0xffff,
        old(pixels)@.len() <= 0xffff * width,
        x < width,
        row_major(width as int, x as int, y as int) < old(pixels)@.len(),
    ensures
        final(pixels)@ == global_result(
            old(pixels)@,
            row_major(width as int, x as int, y as int),
            tolerance as int,
            target_color,
        ),
        t.inv(),
        forall|p: (u32, u32)|
            #[trigger] t.tracked_set().contains(p) <==> {
                &&& p.0 < width
                &&& row_major(width as int, p.0 as int, p.1 as int) < old(pixels)@.len()
                &&& color_dist(
                    old(pixels)@[row_major(width as int, p.0 as int, p.1 as int)],
                    old(pixels)@[row_major(width as int, x as int, y as int)],
                ) <= tolerance
            },
{
    let ghost seed_idx = row_major(width as int, x as int, y as int);
    let start_color = pixels[y * width + x];
    let mut tracker = BoundsTracker::new();
    let n = pixels.len();
    let mut i: usize = 0;
    while i < n
        invariant
            0 < width <= 0xffff,
            n == old(pixels)@.len(),
            n <= 0xffff * width,
            pixels@.len() == n,
            i <= n,
            start_color == old(pixels)@[seed_idx],
            seed_idx == row_major(width as int, x as int, y as int),
            forall|j: int|
                0 <= j < i ==> pixels@[j] == (if color_dist(old(pixels)@[j], start_color)
                    <= tolerance {
                    target_color
                } else {
                    old(pixels)@[j]
                }),
            forall|j: int| i <= j < n ==> pixels@[j] == old(pixels)@[j],
            tracker.inv(),
            forall|p: (u32, u32)|
                #[trigger] tracker.tracked_set().contains(p) <==> {
                    &&& p.0 < width
                    &&& row_major(width as int, p.0 as int, p.1 as int) < i
                    &&& color_dist(
                        old(pixels)@[row_major(width as int, p.0 as int, p.1 as int)],
                        start_color,
                    ) <= tolerance
                },
        decreases n - i,
    {
        if compare_colors(pixels[i], start_color) <= tolerance {
            pixels.set(i, target_color);
            proof {
                vstd::arithmetic::div_mod::lemma_fundamental_div_mod(i as int, width as int);
                assert((width as int) * ((i as int) / (width as int)) == ((i as int) / (
                width as int)) * (width as int)) by (nonlinear_arith);
                assert(row_major(width as int, (i as int) % (width as int), (i as int) / (
                width as int)) == i);
                vstd::arithmetic::div_mod::lemma_mod_bound(i as int, width as int);
                assert((i as int) / (width as int) < 0x10000) by (nonlinear_arith)
                    requires
                        0 < width <= 0xffff,
                        (i as int) < n,
                        n <= 0xffff * (width as int),
                ;
                vstd::arithmetic::div_mod::lemma_div_is_ordered_by_denominator(
                    i as int,
                    1,
                    width as int,
                );
            }
            let cx: u32 = (i % width) as u32;
            let cy: u32 = (i / width) as u32;
            let ghost prev_tracker = tracker;
            tracker.track(cx, cy);
            proof {
                assert forall|p: (u32, u32)| #[trigger] tracker.tracked_set().contains(p) <==> {
                    &&& p.0 < width
                    &&& row_major(width as int, p.0 as int, p.1 as int) < i + 1
                    &&& color_dist(
                        old(pixels)@[row_major(width as int, p.0 as int, p.1 as int)],
                        start_color,
                    ) <= tolerance
                } by {
                    if p != (cx, cy) && p.0 < width {
                        lemma_row_major_injective(
                            width as int,
                            p.0 as int,
                            p.1 as int,
                            cx as int,
                            cy as int,
                        );
                    }
                }
            }
        }
        i = i + 1;
    }
    proof {
        assert(pixels@ =~= global_result(
            old(pixels)@,
            seed_idx,
            tolerance as int,
            target_color,
        ));
    }
    tracker
}

/// The neighbour of `p` one step in direction `d`: south, north, east and
/// west for `d` = 0, 1, 2, 3.
pub open spec fn dir_neighbor(p: (int, int), d: int) -> (int, int) {
    if d == 0 {
        (p.0, p.1 + 1)
    } else if d == 1 {
        (p.0, p.1 - 1)
    } else if d == 2 {
        (p.0 + 1, p.1)
    } else {
        (p.0 - 1, p.1)
    }
}

/// Every 4-connected neighbour is the neighbour in one of the four
/// directions.
proof fn lemma_adjacent_is_dir(p: (int, int), q: (int, int))
    requires
        adjacent4(p, q),
    ensures
        exists|d: int| 0 <= d < 4 && q == #[trigger] dir_neighbor(p, d),
{
    if p.0 == q.0 && p.1 + 1 == q.1 {
        assert(q == dir_neighbor(p, 0));
    } else if p.0 == q.0 && q.1 + 1 == p.1 {
        assert(q == dir_neighbor(p, 1));
    } else if p.1 == q.1 && p.0 + 1 == q.0 {
        assert(q == dir_neighbor(p, 2));
    } else {
        assert(q == dir_neighbor(p, 3));
    }
}

/// Whether the worklist holds the cell `c`.
pub open spec fn stack_has(st: Seq<(usize, usize)>, c: (int, int)) -> bool {
    exists|k: int| 0 <= k < st.len() && (#[trigger] st[k]).0 == c.0 && st[k].1 == c.1
}

/// A cell the fill has already repainted: visited and no longer on the
/// worklist.
pub open spec fn ff_painted(
    vs: Seq<bool>,
    st: Seq<(usize, usize)>,
    w: int,
    h: int,
    c: (int, int),
) -> bool {
    &&& cell_in_bounds(w, h, c)
    &&& vs[row_major(w, c.0, c.1)]
    &&& !stack_has(st, c)
}

/// The flood fill's running state: the worklist holds distinct visited
/// in-bounds cells, repainted cells carry the target color and all others
/// their original color, and every visited cell is reachable.
pub open spec fn ff_inv(
    orig: Seq<Rgba>,
    cur: Seq<Rgba>,
    vs: Seq<bool>,
    st: Seq<(usize, usize)>,
    w: int,
    h: int,
    tol: int,
    seedc: (int, int),
    target: Rgba,
) -> bool {
    &&& 0 < w <= 0xffff
    &&& 0 < h <= 0xffff
    &&& orig.len() == w * h
    &&& cur.len() == w * h
    &&& vs.len() == w * h
    &&& cell_in_bounds(w, h, seedc)
    &&& vs[row_major(w, seedc.0, seedc.1)]
    &&& forall|k: int|
        0 <= k < st.len() ==> {
            &&& cell_in_bounds(w, h, ((#[trigger] st[k]).0 as int, st[k].1 as int))
            &&& vs[row_major(w, st[k].0 as int, st[k].1 as int)]
        }
    &&& forall|k1: int, k2: int|
        #![trigger st[k1], st[k2]]
        0 <= k1 < k2 < st.len() ==> st[k1] != st[k2]
    &&& forall|c: (int, int)|
        cell_in_bounds(w, h, c) ==> #[trigger] cur[row_major(w, c.0, c.1)] == (if ff_painted(
            vs,
            st,
            w,
            h,
            c,
        ) {
            target
        } else {
            orig[row_major(w, c.0, c.1)]
        })
    &&& forall|c: (int, int)|
        cell_in_bounds(w, h, c) && #[trigger] vs[row_major(w, c.0, c.1)] ==> fill_reachable(
            orig,
            w,
            h,
            tol,
            seedc,
            c,
        )
}

/// Every repainted cell other than `ex` has all cells one legal fill step
/// away already visited.
pub open spec fn ff_closed_except(
    orig: Seq<Rgba>,
    vs: Seq<bool>,
    st: Seq<(usize, usize)>,
    w: int,
    h: int,
    tol: int,
    ex: (int, int),
) -> bool {
    forall|p2: (int, int), q2: (int, int)|
        ff_painted(vs, st, w, h, p2) && p2 != ex && #[trigger] fill_edge(orig, w, h, tol, p2, q2)
            ==> vs[row_major(w, q2.0, q2.1)]
}

/// As `ff_closed_except`, with no cell excused.
pub open spec fn ff_closed(
    orig: Seq<Rgba>,
    vs: Seq<bool>,
    st: Seq<(usize, usize)>,
    w: int,
    h: int,
    tol: int,
) -> bool {
    forall|p2: (int, int), q2: (int, int)|
        ff_painted(vs, st, w, h, p2) && #[trigger] fill_edge(orig, w, h, tol, p2, q2) ==> vs[
            row_major(w, q2.0, q2.1)
        ]
}

/// How many cells are still unvisited: the fill's termination measure.
pub closed spec fn count_false(s: Seq<bool>) -> int
    decreases s.len(),
{
    if s.len() == 0 {
        0
    } else {
        count_false(s.drop_last()) + if s[s.len() - 1] {
            0int
        } else {
            1int
        }
    }
}

proof fn lemma_count_false_nonneg(s: Seq<bool>)
    ensures
        count_false(s) >= 0,
    decreases s.len(),
{
    if s.len() > 0 {
        lemma_count_false_nonneg(s.drop_last());
    }
}

/// Marking an unvisited cell visited lowers the count of unvisited cells
/// by exactly one.
proof fn lemma_count_false_set_true(s: Seq<bool>, i: int)
    requires
        0 <= i < s.len(),
        !s[i],
    ensures
        count_false(s) >= 1,
        count_false(s.update(i, true)) == count_false(s) - 1,
    decreases s.len(),
{
    let t = s.update(i, true);
    lemma_count_false_nonneg(s.drop_last());
    if i == s.len() - 1 {
        assert(t.drop_last() =~= s.drop_last());
    } else {
        assert(t.drop_last() =~= s.drop_last().update(i, true));
        lemma_count_false_set_true(s.drop_last(), i);
    }
}

/// Considers one neighbour `(qx, qy)` of the just-repainted cell `p`: if
/// it is unvisited and its color lies within the tolerance of `old_color`
/// — the original color of `p` — it is marked visited and put on the
/// worklist.
fn try_spread(
    width: usize,
    height: usize,
    pixels: &Vec<Rgba>,
    visited: &mut Vec<bool>,
    stack: &mut Vec<(usize, usize)>,
    qx: usize,
    qy: usize,
    old_color: Rgba,
    tolerance: u16,
    orig: Ghost<Seq<Rgba>>,
    seedc: Ghost<(int, int)>,
    p: Ghost<(int, int)>,
    target_color: Ghost<Rgba>,
)
    requires
        ff_inv(
            orig@,
            pixels@,
            old(visited)@,
            old(stack)@,
            width as int,
            height as int,
            tolerance as int,
            seedc@,
            target_color@,
        ),
        ff_closed_except(
            orig@,
            old(visited)@,
            old(stack)@,
            width as int,
            height as int,
            tolerance as int,
            p@,
        ),
        ff_painted(old(visited)@, old(stack)@, width as int, height as int, p@),
        old_color == cell_color(orig@, width as int, p@),
        cell_in_bounds(width as int, height as int, (qx as int, qy as int)),
        adjacent4(p@, (qx as int, qy as int)),
    ensures
        ff_inv(
            orig@,
            pixels@,
            final(visited)@,
            final(stack)@,
            width as int,
            height as int,
            tolerance as int,
            seedc@,
            target_color@,
        ),
        ff_closed_except(
            orig@,
            final(visited)@,
            final(stack)@,
            width as int,
            height as int,
            tolerance as int,
            p@,
        ),
        ff_painted(final(visited)@, final(stack)@, width as int, height as int, p@),
        forall|c: (int, int)|
            #[trigger] ff_painted(final(visited)@, final(stack)@, width as int, height as int, c)
                <==> ff_painted(old(visited)@, old(stack)@, width as int, height as int, c),
        forall|i: int| 0 <= i < old(visited)@.len() && old(visited)@[i] ==> final(visited)@[i],
        fill_edge(
            orig@,
            width as int,
            height as int,
            tolerance as int,
            p@,
            (qx as int, qy as int),
        ) ==> final(visited)@[row_major(width as int, qx as int, qy as int)],
        2 * count_false(final(visited)@) + final(stack)@.len() <= 2 * count_false(old(visited)@)
            + old(stack)@.len(),
        count_false(final(visited)@) >= 0,
{
    let ghost w = width as int;
    let ghost h = height as int;
    let ghost tol = tolerance as int;
    let ghost q = (qx as int, qy as int);
    proof {
        lemma_row_major_in_range(w, h, q.0, q.1);
        assert((qy as int) * w + (qx as int) < 0x100000000) by (nonlinear_arith)
            requires
                0 <= qx as int,
                (qx as int) < w,
                0 <= qy as int,
                (qy as int) < h,
                0 < w <= 0xffff,
                0 < h <= 0xffff,
        ;
        lemma_count_false_nonneg(old(visited)@);
    }
    let qidx: usize = qy * width + qx;
    if !visited[qidx] {
        proof {
            assert(!ff_painted(visited@, stack@, w, h, q));
            assert(pixels@[row_major(w, q.0, q.1)] == orig@[row_major(w, q.0, q.1)]);
        }
        if compare_colors(pixels[qidx], old_color) <= tolerance {
            proof {
                assert(fill_edge(orig@, w, h, tol, p@, q));
                assert(visited@[row_major(w, p@.0, p@.1)]);
                assert(fill_reachable(orig@, w, h, tol, seedc@, p@));
                lemma_reach_step(orig@, w, h, tol, seedc@, p@, q);
                lemma_count_false_set_true(visited@, row_major(w, q.0, q.1));
            }
            let ghost vs0 = visited@;
            let ghost st0 = stack@;
            visited.set(qidx, true);
            stack.push((qx, qy));
            proof {
                assert(stack@ == st0.push((qx, qy)));
                assert(stack@[stack@.len() - 1] == (qx, qy));
                assert(stack_has(stack@, q));
                assert forall|c: (int, int)| stack_has(stack@, c) && c != q implies stack_has(
                    st0,
                    c,
                ) by {
                    let k = choose|k: int|
                        0 <= k < stack@.len() && (#[trigger] stack@[k]).0 == c.0 && stack@[k].1
                            == c.1;
                    assert(k < stack@.len() - 1);
                    assert(st0[k] == stack@[k]);
                }
                assert forall|c: (int, int)| stack_has(st0, c) implies stack_has(stack@, c) by {
                    let k = choose|k: int|
                        0 <= k < st0.len() && (#[trigger] st0[k]).0 == c.0 && st0[k].1 == c.1;
                    assert(stack@[k] == st0[k]);
                }
                assert forall|c: (int, int)| cell_in_bounds(w, h, c) && c != q implies
                    visited@[row_major(w, c.0, c.1)] == vs0[row_major(w, c.0, c.1)] by {
                    lemma_row_major_in_range(w, h, c.0, c.1);
                    lemma_row_major_injective(w, c.0, c.1, q.0, q.1);
                }
                assert forall|c: (int, int)| #[trigger] ff_painted(visited@, stack@, w, h, c)
                    <==> ff_painted(vs0, st0, w, h, c) by {
                    if c != q {
                        if cell_in_bounds(w, h, c) {
                            lemma_row_major_in_range(w, h, c.0, c.1);
                            lemma_row_major_injective(w, c.0, c.1, q.0, q.1);
                        }
                    }
                }
                assert forall|c: (int, int)| cell_in_bounds(w, h, c) implies #[trigger] pixels@[
                    row_major(w, c.0, c.1)
                ] == (if ff_painted(visited@, stack@, w, h, c) {
                    target_color@
                } else {
                    orig@[row_major(w, c.0, c.1)]
                }) by {
                    assert(ff_painted(visited@, stack@, w, h, c) == ff_painted(
                        vs0,
                        st0,
                        w,
                        h,
                        c,
                    ));
                }
                assert forall|c: (int, int)|
                    cell_in_bounds(w, h, c) && #[trigger] visited@[row_major(w, c.0, c.1)]
                    implies fill_reachable(orig@, w, h, tol, seedc@, c) by {
                    if c != q {
                        lemma_row_major_in_range(w, h, c.0, c.1);
                        lemma_row_major_injective(w, c.0, c.1, q.0, q.1);
                        assert(vs0[row_major(w, c.0, c.1)]);
                    }
                }
                assert(ff_inv(orig@, pixels@, visited@, stack@, w, h, tol, seedc@, target_color@));
                assert forall|p2: (int, int), q2: (int, int)|
                    ff_painted(visited@, stack@, w, h, p2) && p2 != p@ && #[trigger] fill_edge(
                        orig@,
                        w,
                        h,
                        tol,
                        p2,
                        q2,
                    ) implies visited@[row_major(w, q2.0, q2.1)] by {
                    assert(ff_painted(vs0, st0, w, h, p2));
                    lemma_row_major_in_range(w, h, q2.0, q2.1);
                    assert(vs0[row_major(w, q2.0, q2.1)]);
                    if q2 != q {
                        lemma_row_major_injective(w, q2.0, q2.1, q.0, q.1);
                    }
                }
            }
        }
    }
}

/// Stack-based 4-connected flood fill. Starting from `(x, y)` it repaints
/// to `target_color` exactly the cells reachable through steps whose
/// original colors differ by at most `tolerance` — the comparison chains
/// locally, pixel to pixel, so the color may drift across a long fill.
/// The returned tracker holds exactly the repainted coordinates.
pub fn flood_fill(
    width: usize,
    height: usize,
    pixels: &mut Vec<Rgba>,
    x: usize,
    y: usize,
    target_color: Rgba,
    tolerance: u16,
) -> (t: BoundsTracker)
    requires
        0 < width <= 0xffff,
        0 < height <= 0xffff,
        old(pixels)@.len() == width * height,
        x < width,
        y < height,
    ensures
        final(pixels)@ == flood_result(
            old(pixels)@,
            width as int,
            height as int,
            tolerance as int,
            (x as int, y as int),
            target_color,
        ),
        t.inv(),
        forall|pt: (u32, u32)|
            #[trigger] t.tracked_set().contains(pt) <==> fill_reachable(
                old(pixels)@,
                width as int,
                height as int,
                tolerance as int,
                (x as int, y as int),
                (pt.0 as int, pt.1 as int),
            ),
{
    let ghost orig = old(pixels)@;
    let ghost w = width as int;
    let ghost h = height as int;
    let ghost tol = tolerance as int;
    let ghost seedc = (x as int, y as int);
    let mut tracker = BoundsTracker::new();

    let n = pixels.len();
    let mut visited: Vec<bool> = Vec::new();
    let mut k: usize = 0;
    while k < n
        invariant
            k <= n,
            visited@.len() == k,
            forall|j: int| 0 <= j < k ==> !visited@[j],
        decreases n - k,
    {
        visited.push(false);
        k = k + 1;
    }

    let mut stack: Vec<(usize, usize)> = Vec::new();
    proof {
        lemma_row_major_in_range(w, h, x as int, y as int);
        assert((y as int) * w + (x as int) < 0x100000000) by (nonlinear_arith)
            requires
                0 <= x as int,
                (x as int) < w,
                0 <= y as int,
                (y as int) < h,
                0 < w <= 0xffff,
                0 < h <= 0xffff,
        ;
        lemma_count_false_nonneg(visited@);
    }
    let ghost visited_init = visited@;
    let seed_idx: usize = y * width + x;
    visited.set(seed_idx, true);
    stack.push((x, y));
    proof {
        lemma_reach_refl(orig, w, h, tol, seedc);
        lemma_count_false_set_true(visited_init, seed_idx as int);
        assert(stack@[0] == (x, y));
        assert(stack_has(stack@, seedc));
        assert forall|c: (int, int)| cell_in_bounds(w, h, c) && c != seedc implies !visited@[
            row_major(w, c.0, c.1)
        ] by {
            lemma_row_major_in_range(w, h, c.0, c.1);
            lemma_row_major_injective(w, c.0, c.1, seedc.0, seedc.1);
        }
        assert forall|c: (int, int)| !#[trigger] ff_painted(visited@, stack@, w, h, c) by {
            if cell_in_bounds(w, h, c) && c != seedc {
                assert(!visited@[row_major(w, c.0, c.1)]);
            }
        }
        assert(ff_inv(orig, pixels@, visited@, stack@, w, h, tol, seedc, target_color));
        assert(ff_closed(orig, visited@, stack@, w, h, tol));
    }

    while stack.len() != 0
        invariant
            w == width as int,
            h == height as int,
            tol == tolerance as int,
            seedc == (x as int, y as int),
            ff_inv(orig, pixels@, visited@, stack@, w, h, tol, seedc, target_color),
            ff_closed(orig, visited@, stack@, w, h, tol),
            tracker.inv(),
            forall|pt: (u32, u32)|
                #[trigger] tracker.tracked_set().contains(pt) <==> ff_painted(
                    visited@,
                    stack@,
                    w,
                    h,
                    (pt.0 as int, pt.1 as int),
                ),
            count_false(visited@) >= 0,
        decreases 2 * count_false(visited@) + stack@.len(),
    {
        let ghost stack_at_pop = stack@;
        let item = match stack.pop() {
            Some(it) => it,
            None => {
                proof {
                    assert(false);
                }
                (0, 0)
            },
        };
        let px = item.0;
        let py = item.1;
        let ghost p = (px as int, py as int);
        proof {
            assert(stack_at_pop[stack_at_pop.len() - 1] == item);
            assert(cell_in_bounds(w, h, p));
            if stack_has(stack@, p) {
                let k2 = choose|k2: int|
                    0 <= k2 < stack@.len() && (#[trigger] stack@[k2]).0 == p.0 && stack@[k2].1
                        == p.1;
                assert(stack_at_pop[k2] == stack_at_pop[stack_at_pop.len() - 1]);
                assert(false);
            }
            assert forall|c: (int, int)| c != p && stack_has(stack_at_pop, c) implies stack_has(
                stack@,
                c,
            ) by {
                let k2 = choose|k2: int|
                    0 <= k2 < stack_at_pop.len() && (#[trigger] stack_at_pop[k2]).0 == c.0
                        && stack_at_pop[k2].1 == c.1;
                assert(k2 < stack_at_pop.len() - 1);
                assert(stack@[k2] == stack_at_pop[k2]);
            }
            assert forall|c: (int, int)| stack_has(stack@, c) implies stack_has(
                stack_at_pop,
                c,
            ) by {
                let k2 = choose|k2: int|
                    0 <= k2 < stack@.len() && (#[trigger] stack@[k2]).0 == c.0 && stack@[k2].1
                        == c.1;
                assert(stack_at_pop[k2] == stack@[k2]);
            }
            lemma_row_major_in_range(w, h, p.0, p.1);
            assert((py as int) * w + (px as int) < 0x100000000) by (nonlinear_arith)
                requires
                    0 <= px as int,
                    (px as int) < w,
                    0 <= py as int,
                    (py as int) < h,
                    0 < w <= 0xffff,
                    0 < h <= 0xffff,
            ;
        }
        let idx: usize = py * width + px;
        let old_color = pixels[idx];
        proof {
            assert(!ff_painted(visited@, stack_at_pop, w, h, p));
            assert(old_color == orig[row_major(w, p.0, p.1)]);
        }
        let ghost pixels_at_pop = pixels@;
        pixels.set(idx, target_color);
        let ghost tracker_at_pop = tracker;
        tracker.track(px as u32, py as u32);
        proof {
            // `p` has been repainted and has left the worklist; every other
            // cell keeps its state.
            assert forall|c: (int, int)| cell_in_bounds(w, h, c) implies #[trigger] pixels@[
                row_major(w, c.0, c.1)
            ] == (if ff_painted(visited@, stack@, w, h, c) {
                target_color
            } else {
                orig[row_major(w, c.0, c.1)]
            }) by {
                lemma_row_major_in_range(w, h, c.0, c.1);
                if c != p {
                    lemma_row_major_injective(w, c.0, c.1, p.0, p.1);
                    assert(pixels@[row_major(w, c.0, c.1)] == pixels_at_pop[row_major(
                        w,
                        c.0,
                        c.1,
                    )]);
                    assert(ff_painted(visited@, stack@, w, h, c) == ff_painted(
                        visited@,
                        stack_at_pop,
                        w,
                        h,
                        c,
                    ));
                }
            }
            assert(ff_inv(orig, pixels@, visited@, stack@, w, h, tol, seedc, target_color));
            assert forall|p2: (int, int), q2: (int, int)|
                ff_painted(visited@, stack@, w, h, p2) && p2 != p && #[trigger] fill_edge(
                    orig,
                    w,
                    h,
                    tol,
                    p2,
                    q2,
                ) implies visited@[row_major(w, q2.0, q2.1)] by {
                assert(ff_painted(visited@, stack_at_pop, w, h, p2));
            }
            assert(ff_closed_except(orig, visited@, stack@, w, h, tol, p));
            assert forall|pt: (u32, u32)| #[trigger] tracker.tracked_set().contains(pt) <==>
                ff_painted(visited@, stack@, w, h, (pt.0 as int, pt.1 as int)) by {
                assert(tracker.tracked_set() =~= tracker_at_pop.tracked_set().insert(
                    (px as u32, py as u32),
                ));
                let c = (pt.0 as int, pt.1 as int);
                if pt != (px as u32, py as u32) {
                    assert(c != p);
                    assert(ff_painted(visited@, stack@, w, h, c) == ff_painted(
                        visited@,
                        stack_at_pop,
                        w,
                        h,
                        c,
                    ));
                }
            }
        }

        let ghost measure0 = 2 * count_false(visited@) + stack@.len();
        let mut d: u8 = 0;
        while d < 4
            invariant
                w == width as int,
                h == height as int,
                tol == tolerance as int,
                seedc == (x as int, y as int),
                d <= 4,
                p == (px as int, py as int),
                old_color == cell_color(orig, w, p),
                ff_inv(orig, pixels@, visited@, stack@, w, h, tol, seedc, target_color),
                ff_closed_except(orig, visited@, stack@, w, h, tol, p),
                ff_painted(visited@, stack@, w, h, p),
                forall|d2: int|
                    0 <= d2 < d && fill_edge(orig, w, h, tol, p, #[trigger] dir_neighbor(p, d2))
                        ==> visited@[row_major(
                        w,
                        dir_neighbor(p, d2).0,
                        dir_neighbor(p, d2).1,
                    )],
                tracker.inv(),
                forall|pt: (u32, u32)|
                    #[trigger] tracker.tracked_set().contains(pt) <==> ff_painted(
                        visited@,
                        stack@,
                        w,
                        h,
                        (pt.0 as int, pt.1 as int),
                    ),
                count_false(visited@) >= 0,
                2 * count_false(visited@) + stack@.len() <= measure0,
            decreases 4 - d,
        {
            let qo: Option<(usize, usize)> = if d == 0 {
                if py + 1 < height {
                    Some((px, py + 1))
                } else {
                    None
                }
            } else if d == 1 {
                if py >= 1 {
                    Some((px, py - 1))
                } else {
                    None
                }
            } else if d == 2 {
                if px + 1 < width {
                    Some((px + 1, py))
                } else {
                    None
                }
            } else {
                if px >= 1 {
                    Some((px - 1, py))
                } else {
                    None
                }
            };
            let ghost q = dir_neighbor(p, d as int);
            match qo {
                Some(qc) => {
                    proof {
                        assert(q == (qc.0 as int, qc.1 as int));
                        assert(cell_in_bounds(w, h, q));
                        assert(adjacent4(p, q));
                    }
                    let ghost vs_before = visited@;
                    let ghost st_before = stack@;
                    try_spread(
                        width,
                        height,
                        pixels,
                        &mut visited,
                        &mut stack,
                        qc.0,
                        qc.1,
                        old_color,
                        tolerance,
                        Ghost(orig),
                        Ghost(seedc),
                        Ghost(p),
                        Ghost(target_color),
                    );
                    proof {
                        assert forall|pt: (u32, u32)|
                            #[trigger] tracker.tracked_set().contains(pt) <==> ff_painted(
                                visited@,
                                stack@,
                                w,
                                h,
                                (pt.0 as int, pt.1 as int),
                            ) by {
                            assert(ff_painted(visited@, stack@, w, h, (pt.0 as int, pt.1 as int))
                                == ff_painted(
                                vs_before,
                                st_before,
                                w,
                                h,
                                (pt.0 as int, pt.1 as int),
                            ));
                        }
                        assert forall|d2: int|
                            0 <= d2 < d + 1 && fill_edge(
                                orig,
                                w,
                                h,
                                tol,
                                p,
                                #[trigger] dir_neighbor(p, d2),
                            ) implies visited@[row_major(
                            w,
                            dir_neighbor(p, d2).0,
                            dir_neighbor(p, d2).1,
                        )] by {
                            let q2 = dir_neighbor(p, d2);
                            lemma_row_major_in_range(w, h, q2.0, q2.1);
                            if d2 < d {
                                assert(vs_before[row_major(w, q2.0, q2.1)]);
                            } else {
                                assert(q2 == q);
                            }
                        }
                    }
                },
                None => {
                    proof {
                        assert(!cell_in_bounds(w, h, q));
                        assert forall|d2: int|
                            0 <= d2 < d + 1 && fill_edge(
                                orig,
                                w,
                                h,
                                tol,
                                p,
                                #[trigger] dir_neighbor(p, d2),
                            ) implies visited@[row_major(
                            w,
                            dir_neighbor(p, d2).0,
                            dir_neighbor(p, d2).1,
                        )] by {
                            let q2 = dir_neighbor(p, d2);
                            lemma_row_major_in_range(w, h, q2.0, q2.1);
                            assert(d2 < d || q2 == q);
                        }
                    }
                },
            }
            d = d + 1;
        }
        proof {
            assert forall|p2: (int, int), q2: (int, int)|
                ff_painted(visited@, stack@, w, h, p2) && #[trigger] fill_edge(
                    orig,
                    w,
                    h,
                    tol,
                    p2,
                    q2,
                ) implies visited@[row_major(w, q2.0, q2.1)] by {
                if p2 == p {
                    lemma_adjacent_is_dir(p, q2);
                    let d2 = choose|d2: int| 0 <= d2 < 4 && q2 == #[trigger] dir_neighbor(p, d2);
                    assert(fill_edge(orig, w, h, tol, p, dir_neighbor(p, d2)));
                }
            }
            assert(ff_closed(orig, visited@, stack@, w, h, tol));
        }
    }
    proof {
        // The worklist is empty, so the visited set holds the seed, is
        // sound, and is closed: it is exactly the reachable set, and every
        // visited cell has been repainted.
        assert forall|c: (int, int)| stack_has(stack@, c) implies false by {
            let k2 = choose|k2: int|
                0 <= k2 < stack@.len() && (#[trigger] stack@[k2]).0 == c.0 && stack@[k2].1
                    == c.1;
        }
        assert forall|p2: (int, int), q2: (int, int)|
            cell_in_bounds(w, h, p2) && visited@[row_major(w, p2.0, p2.1)] && #[trigger]
            fill_edge(orig, w, h, tol, p2, q2) implies visited@[row_major(w, q2.0, q2.1)] by {
            assert(ff_painted(visited@, stack@, w, h, p2));
        }
        assert forall|c: (int, int)|
            cell_in_bounds(w, h, c) && fill_reachable(orig, w, h, tol, seedc, c) implies
            visited@[row_major(w, c.0, c.1)] by {
            lemma_reachable_in_closed_set(orig, w, h, tol, seedc, c, visited@);
        }
        assert forall|i: int| 0 <= i < orig.len() implies pixels@[i] == flood_result(
            orig,
            w,
            h,
            tol,
            seedc,
            target_color,
        )[i] by {
            vstd::arithmetic::div_mod::lemma_fundamental_div_mod(i, w);
            vstd::arithmetic::div_mod::lemma_mod_bound(i, w);
            assert(w * (i / w) == (i / w) * w) by (nonlinear_arith);
            let c = (i % w, i / w);
            assert(row_major(w, c.0, c.1) == i);
            assert((i / w) < h) by (nonlinear_arith)
                requires
                    0 < w,
                    0 <= i < w * h,
                    i == w * (i / w) + (i % w),
                    0 <= i % w < w,
            ;
            assert(cell_in_bounds(w, h, c));
            assert(ff_painted(visited@, stack@, w, h, c) == visited@[i]);
            if fill_reachable(orig, w, h, tol, seedc, c) {
                assert(visited@[i]);
                assert(pixels@[i] == target_color);
            } else {
                assert(!visited@[i]);
                assert(pixels@[i] == orig[i]);
            }
        }
        assert(pixels@ =~= flood_result(orig, w, h, tol, seedc, target_color));
        assert forall|pt: (u32, u32)| #[trigger] tracker.tracked_set().contains(pt) <==>
            fill_reachable(orig, w, h, tol, seedc, (pt.0 as int, pt.1 as int)) by {
            let c = (pt.0 as int, pt.1 as int);
            if fill_reachable(orig, w, h, tol, seedc, c) {
                lemma_reachable_in_closed_set(orig, w, h, tol, seedc, c, visited@);
                assert(ff_painted(visited@, stack@, w, h, c));
            }
            if tracker.tracked_set().contains(pt) {
                assert(ff_painted(visited@, stack@, w, h, c));
            }
        }
    }
    tracker
}

/// Colors at distance zero are equal.
proof fn lemma_color_dist_zero(a: Rgba, b: Rgba)
    requires
        color_dist(a, b) <= 0,
    ensures
        a == b,
{
}

/// Along a fill path taken with an exact-match tolerance, every cell
/// carries the seed cell's color.
proof fn lemma_exact_path_same_color(
    buf: Seq<Rgba>,
    w: int,
    h: int,
    path: Seq<(int, int)>,
    seed: (int, int),
    p: (int, int),
)
    requires
        is_fill_path(buf, w, h, 0, path, seed, p),
    ensures
        cell_color(buf, w, p) == cell_color(buf, w, seed),
    decreases path.len(),
{
    if path.len() == 1 {
        assert(p == seed);
    } else {
        let shorter = path.drop_last();
        let prior = path[path.len() - 2];
        assert(fill_edge(buf, w, h, 0, path[path.len() - 2], path[path.len() - 1]));
        assert forall|i: int| 0 <= i < shorter.len() - 1 implies fill_edge(
            buf,
            w,
            h,
            0,
            #[trigger] shorter[i],
            shorter[i + 1],
        ) by {
            assert(shorter[i] == path[i]);
            assert(shorter[i + 1] == path[i + 1]);
            assert(fill_edge(buf, w, h, 0, path[i], path[i + 1]));
        }
        assert(is_fill_path(buf, w, h, 0, shorter, seed, prior));
        lemma_exact_path_same_color(buf, w, h, shorter, seed, prior);
        lemma_color_dist_zero(cell_color(buf, w, p), cell_color(buf, w, prior));
    }
}

/// With an exact-match tolerance, every reachable cell carries the seed
/// cell's color.
proof fn lemma_exact_reach_same_color(
    buf: Seq<Rgba>,
    w: int,
    h: int,
    seed: (int, int),
    p: (int, int),
)
    requires
        fill_reachable(buf, w, h, 0, seed, p),
    ensures
        cell_color(buf, w, p) == cell_color(buf, w, seed),
        cell_in_bounds(w, h, p),
{
    let path = choose|path: Seq<(int, int)>| is_fill_path(buf, w, h, 0, path, seed, p);
    assert(path[path.len() - 1] == p);
    if path.len() == 1 {
        assert(p == seed);
    } else {
        assert(fill_edge(buf, w, h, 0, path[path.len() - 2], path[path.len() - 1]));
    }
    lemma_exact_path_same_color(buf, w, h, path, seed, p);
}

/// Flood filling is idempotent at an exact-match tolerance: a second fill
/// with the same seed and target color leaves the buffer exactly as the
/// first fill left it. (With a positive tolerance this can fail: the first
/// fill may put the target color within tolerance of a pixel just outside
/// the filled region, letting the second fill spread further.)
pub proof fn lemma_flood_fill_idempotent(
    buf: Seq<Rgba>,
    w: int,
    h: int,
    seed: (int, int),
    target: Rgba,
)
    requires
        0 < w,
        0 < h,
        buf.len() == w * h,
        cell_in_bounds(w, h, seed),
    ensures
        flood_result(flood_result(buf, w, h, 0, seed, target), w, h, 0, seed, target)
            =~= flood_result(buf, w, h, 0, seed, target),
{
    let b1 = flood_result(buf, w, h, 0, seed, target);
    let b2 = flood_result(b1, w, h, 0, seed, target);
    lemma_row_major_in_range(w, h, seed.0, seed.1);
    let si = row_major(w, seed.0, seed.1);
    vstd::arithmetic::div_mod::lemma_fundamental_div_mod_converse(si, w, seed.1, seed.0);
    assert((si % w, si / w) == seed);
    lemma_reach_refl(buf, w, h, 0, seed);
    assert(b1[si] == target);
    assert forall|i: int| 0 <= i < b2.len() implies b2[i] == b1[i] by {
        let c = (i % w, i / w);
        if fill_reachable(b1, w, h, 0, seed, c) {
            lemma_exact_reach_same_color(b1, w, h, seed, c);
            lemma_row_major_in_range(w, h, c.0, c.1);
            vstd::arithmetic::div_mod::lemma_fundamental_div_mod(i, w);
            assert(w * (i / w) == (i / w) * w) by (nonlinear_arith);
            assert(row_major(w, c.0, c.1) == i);
            assert(b1[i] == cell_color(b1, w, c));
            assert(cell_color(b1, w, seed) == b1[si]);
        }
    }
}

} // verus!
