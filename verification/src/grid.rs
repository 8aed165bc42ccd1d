//! The mathematical model shared by the pixel sweeps: a row-major buffer
//! read as a grid of points, the 4-neighbourhood on it, and walks through
//! pixels of a given kind.

use vstd::prelude::*;
use vstd::arithmetic::div_mod::lemma_fundamental_div_mod_converse;
use vstd::set_lib::{lemma_int_range, lemma_len_subset, lemma_map_size_bound, set_int_range};

verus! {

/// A pixel position: column first, row second.
pub type Point = (usize, usize);

/// Mask value of background that no labelling pass has visited yet.
pub const UNCOLORED_BACKGROUND: u8 = 0;

/// Mask value of background that a labelling pass has visited.
pub const COLORED_BACKGROUND: u8 = 1;

/// Mask value of foreground that belongs to no labelled region yet.
pub const UNCOLORED_REGION: u8 = 255;

/// `p` is a point of a `width` by `height` grid.
pub open spec fn in_grid(width: usize, height: usize, p: Point) -> bool {
    p.0 < width && p.1 < height
}

/// Position of `p` in a row-major buffer whose rows hold `width` pixels.
pub open spec fn pixel_index(width: usize, p: Point) -> int {
    p.1 * width + p.0
}

/// The value that the buffer holds at `p`.
pub open spec fn pixel(img: Seq<u8>, width: usize, p: Point) -> u8 {
    img[pixel_index(width, p)]
}

/// `a` and `b` are neighbours to the left, right, top or bottom; never
/// diagonally.
pub open spec fn adjacent(a: Point, b: Point) -> bool {
    ||| (a.1 == b.1 && a.0 + 1 == b.0)
    ||| (a.1 == b.1 && b.0 + 1 == a.0)
    ||| (a.0 == b.0 && a.1 + 1 == b.1)
    ||| (a.0 == b.0 && b.1 + 1 == a.1)
}

/// A value that a labelling pass still has to handle.
pub open spec fn unprocessed(v: u8) -> bool {
    v == UNCOLORED_REGION || v == UNCOLORED_BACKGROUND
}

/// Whether a walk may step on a pixel of value `v`: foreground always,
/// unvisited background unless the walk is confined to one region.
pub open spec fn passable(v: u8, region_only: bool) -> bool {
    v == UNCOLORED_REGION || (!region_only && v == UNCOLORED_BACKGROUND)
}

/// All points of a `width` by `height` grid.
pub open spec fn grid_points(width: usize, height: usize) -> Set<Point> {
    Set::new(|p: Point| in_grid(width, height, p))
}

/// `walk` is a non-empty sequence of grid points, each passable and each
/// adjacent to the next.
pub open spec fn is_walk(
    img: Seq<u8>,
    width: usize,
    height: usize,
    walk: Seq<Point>,
    region_only: bool,
) -> bool {
    &&& walk.len() > 0
    &&& forall|i: int|
        0 <= i < walk.len() ==> in_grid(width, height, #[trigger] walk[i]) && passable(
            pixel(img, width, walk[i]),
            region_only,
        )
    &&& forall|i: int| 0 <= i < walk.len() - 1 ==> adjacent(#[trigger] walk[i], walk[i + 1])
}

/// Some walk leads from `a` to `b`.
pub open spec fn connected(
    img: Seq<u8>,
    width: usize,
    height: usize,
    a: Point,
    b: Point,
    region_only: bool,
) -> bool {
    exists|walk: Seq<Point>| #[trigger]
        is_walk(img, width, height, walk, region_only) && walk[0] == a && walk.last() == b
}

/// The points that a walk through foreground alone reaches from `seed`:
/// the maximal 4-connected foreground region around it.
pub open spec fn region_of(img: Seq<u8>, width: usize, height: usize, seed: Point) -> Set<Point> {
    Set::new(|p: Point| connected(img, width, height, seed, p, true))
}

/// `left`, `top`, `right` and `bottom` are the least and greatest column
/// and row that occur among the points of `s`.
pub open spec fn bounds(s: Set<Point>, left: usize, top: usize, right: usize, bottom: usize) -> bool {
    &&& forall|p: Point| #[trigger]
        s.contains(p) ==> left <= p.0 && p.0 <= right && top <= p.1 && p.1 <= bottom
    &&& exists|p: Point| #[trigger] s.contains(p) && p.0 == left
    &&& exists|p: Point| #[trigger] s.contains(p) && p.0 == right
    &&& exists|p: Point| #[trigger] s.contains(p) && p.1 == top
    &&& exists|p: Point| #[trigger] s.contains(p) && p.1 == bottom
}

/// The index of a grid point lies within the buffer, and so does the
/// whole of its row.
pub proof fn lemma_pixel_index_bounds(width: usize, height: usize, p: Point)
    requires
        in_grid(width, height, p),
    ensures
        0 <= p.1 * width,
        0 <= pixel_index(width, p) < width * height,
        p.1 * width + width <= width * height,
{
    assert(p.1 * width + width <= width * height) by (nonlinear_arith)
        requires
            0 <= p.1 < height,
            0 <= width,
    ;
    assert(0 <= p.1 * width) by (nonlinear_arith)
        requires
            0 <= p.1,
            0 <= width,
    ;
}

/// Two points with the same index are the same point.
pub proof fn lemma_pixel_index_injective(width: usize, p: Point, q: Point)
    requires
        p.0 < width,
        q.0 < width,
        pixel_index(width, p) == pixel_index(width, q),
    ensures
        p == q,
{
    lemma_fundamental_div_mod_converse(pixel_index(width, p), width as int, p.1 as int, p.0 as int);
    lemma_fundamental_div_mod_converse(pixel_index(width, q), width as int, q.1 as int, q.0 as int);
}

/// Writing one pixel changes that pixel and no other.
pub proof fn lemma_pixel_update(img: Seq<u8>, width: usize, height: usize, p: Point, v: u8)
    requires
        in_grid(width, height, p),
        img.len() == width * height,
    ensures
        forall|q: Point|
            in_grid(width, height, q) ==> #[trigger] pixel(
                img.update(pixel_index(width, p), v),
                width,
                q,
            ) == if q == p {
                v
            } else {
                pixel(img, width, q)
            },
{
    lemma_pixel_index_bounds(width, height, p);
    assert forall|q: Point| in_grid(width, height, q) implies #[trigger] pixel(
        img.update(pixel_index(width, p), v),
        width,
        q,
    ) == if q == p {
        v
    } else {
        pixel(img, width, q)
    } by {
        lemma_pixel_index_bounds(width, height, q);
        if q != p {
            if pixel_index(width, p) == pixel_index(width, q) {
                lemma_pixel_index_injective(width, p, q);
            }
        }
    }
}

/// Every position of the buffer is the index of a grid point.
pub proof fn lemma_grid_covers(width: usize, height: usize, i: int) -> (p: Point)
    requires
        0 <= i < width * height,
    ensures
        in_grid(width, height, p),
        pixel_index(width, p) == i,
{
    let w = width as int;
    assert(w > 0) by (nonlinear_arith)
        requires
            0 <= i < w * height,
            w >= 0,
    ;
    let x = i % w;
    let y = i / w;
    vstd::arithmetic::div_mod::lemma_fundamental_div_mod(i, w);
    vstd::arithmetic::div_mod::lemma_mod_bound(i, w);
    assert(0 <= y < height) by (nonlinear_arith)
        requires
            i == w * y + x,
            0 <= x < w,
            0 <= i < w * height,
    ;
    assert(w * y == y * w) by (nonlinear_arith);
    (x as usize, y as usize)
}

/// Two buffers that agree at every grid point are equal.
pub proof fn lemma_equal_by_points(a: Seq<u8>, b: Seq<u8>, width: usize, height: usize)
    requires
        a.len() == width * height,
        b.len() == width * height,
        forall|p: Point| in_grid(width, height, p) ==> #[trigger] pixel(a, width, p) == pixel(b, width, p),
    ensures
        a == b,
{
    assert forall|i: int| 0 <= i < a.len() implies a[i] == b[i] by {
        let p = lemma_grid_covers(width, height, i);
        assert(pixel(a, width, p) == pixel(b, width, p));
    }
}

/// A grid has finitely many points, no more than the buffer has bytes.
pub proof fn lemma_grid_finite(width: usize, height: usize)
    ensures
        grid_points(width, height).finite(),
        grid_points(width, height).len() <= width * height,
{
    let n = width * height;
    let indices = set_int_range(0, n);
    let to_point = |i: int| ((i % (width as int)) as usize, (i / (width as int)) as usize);
    let image = indices.map(to_point);
    lemma_int_range(0, n);
    lemma_map_size_bound(indices, image, to_point);
    assert forall|p: Point| grid_points(width, height).contains(p) implies image.contains(p) by {
        lemma_pixel_index_bounds(width, height, p);
        let i = pixel_index(width, p);
        lemma_fundamental_div_mod_converse(i, width as int, p.1 as int, p.0 as int);
        assert(indices.contains(i));
    }
    lemma_len_subset(grid_points(width, height), image);
}

/// A set of grid points is finite and no larger than the grid.
pub proof fn lemma_grid_subset(s: Set<Point>, width: usize, height: usize)
    requires
        forall|p: Point| s.contains(p) ==> in_grid(width, height, p),
    ensures
        s.finite(),
        s.len() <= width * height,
{
    lemma_grid_finite(width, height);
    lemma_len_subset(s, grid_points(width, height));
}

/// A passable grid point is connected to itself.
pub proof fn lemma_connected_here(
    img: Seq<u8>,
    width: usize,
    height: usize,
    a: Point,
    region_only: bool,
)
    requires
        in_grid(width, height, a),
        passable(pixel(img, width, a), region_only),
    ensures
        connected(img, width, height, a, a, region_only),
{
    let walk = seq![a];
    assert(is_walk(img, width, height, walk, region_only));
}

/// The two ends of a walk lie in the grid and are passable.
pub proof fn lemma_connected_ends(
    img: Seq<u8>,
    width: usize,
    height: usize,
    a: Point,
    b: Point,
    region_only: bool,
)
    requires
        connected(img, width, height, a, b, region_only),
    ensures
        in_grid(width, height, a),
        in_grid(width, height, b),
        passable(pixel(img, width, a), region_only),
        passable(pixel(img, width, b), region_only),
{
}

/// A walk goes on to any passable neighbour of its end.
pub proof fn lemma_connected_step(
    img: Seq<u8>,
    width: usize,
    height: usize,
    a: Point,
    b: Point,
    c: Point,
    region_only: bool,
)
    requires
        connected(img, width, height, a, b, region_only),
        adjacent(b, c),
        in_grid(width, height, c),
        passable(pixel(img, width, c), region_only),
    ensures
        connected(img, width, height, a, c, region_only),
{
    let walk = choose|walk: Seq<Point>| #[trigger]
        is_walk(img, width, height, walk, region_only) && walk[0] == a && walk.last() == b;
    let longer = walk.push(c);
    assert forall|i: int| 0 <= i < longer.len() implies in_grid(width, height, #[trigger] longer[i])
        && passable(pixel(img, width, longer[i]), region_only) by {
    }
    assert forall|i: int| 0 <= i < longer.len() - 1 implies adjacent(
        #[trigger] longer[i],
        longer[i + 1],
    ) by {
    }
    assert(is_walk(img, width, height, longer, region_only));
}

/// Walks can be followed backwards.
pub proof fn lemma_connected_symmetric(
    img: Seq<u8>,
    width: usize,
    height: usize,
    a: Point,
    b: Point,
    region_only: bool,
)
    requires
        connected(img, width, height, a, b, region_only),
    ensures
        connected(img, width, height, b, a, region_only),
{
    let walk = choose|walk: Seq<Point>| #[trigger]
        is_walk(img, width, height, walk, region_only) && walk[0] == a && walk.last() == b;
    let n = walk.len() as int;
    let back = Seq::new(walk.len(), |i: int| walk[n - 1 - i]);
    assert forall|i: int| 0 <= i < back.len() implies in_grid(width, height, #[trigger] back[i])
        && passable(pixel(img, width, back[i]), region_only) by {
    }
    assert forall|i: int| 0 <= i < back.len() - 1 implies adjacent(#[trigger] back[i], back[i + 1]) by {
    }
    assert(is_walk(img, width, height, back, region_only));
}

/// Two walks that meet make one.
pub proof fn lemma_connected_transitive(
    img: Seq<u8>,
    width: usize,
    height: usize,
    a: Point,
    b: Point,
    c: Point,
    region_only: bool,
)
    requires
        connected(img, width, height, a, b, region_only),
        connected(img, width, height, b, c, region_only),
    ensures
        connected(img, width, height, a, c, region_only),
{
    let first = choose|walk: Seq<Point>| #[trigger]
        is_walk(img, width, height, walk, region_only) && walk[0] == a && walk.last() == b;
    let second = choose|walk: Seq<Point>| #[trigger]
        is_walk(img, width, height, walk, region_only) && walk[0] == b && walk.last() == c;
    let joined = first + second.drop_first();
    assert forall|i: int| 0 <= i < joined.len() implies in_grid(width, height, #[trigger] joined[i])
        && passable(pixel(img, width, joined[i]), region_only) by {
    }
    assert forall|i: int| 0 <= i < joined.len() - 1 implies adjacent(
        #[trigger] joined[i],
        joined[i + 1],
    ) by {
    }
    assert(is_walk(img, width, height, joined, region_only));
}

/// A walk stays a walk in any buffer that keeps its pixels passable, also
/// when the second buffer lets it step on more kinds of pixel.
pub proof fn lemma_connected_transfer(
    img: Seq<u8>,
    other: Seq<u8>,
    width: usize,
    height: usize,
    a: Point,
    b: Point,
    region_only: bool,
    other_region_only: bool,
)
    requires
        connected(img, width, height, a, b, region_only),
        forall|p: Point|
            in_grid(width, height, p) && passable(#[trigger] pixel(img, width, p), region_only)
                ==> passable(pixel(other, width, p), other_region_only),
    ensures
        connected(other, width, height, a, b, other_region_only),
{
    let walk = choose|walk: Seq<Point>| #[trigger]
        is_walk(img, width, height, walk, region_only) && walk[0] == a && walk.last() == b;
    assert forall|i: int| 0 <= i < walk.len() implies in_grid(width, height, #[trigger] walk[i])
        && passable(pixel(other, width, walk[i]), other_region_only) by {
    }
    assert(is_walk(other, width, height, walk, other_region_only));
}

/// Induction along a walk: what holds where the walk starts and passes
/// from a point to each passable neighbour holds where the walk ends.
pub proof fn lemma_connected_induct(
    img: Seq<u8>,
    width: usize,
    height: usize,
    a: Point,
    b: Point,
    region_only: bool,
    holds: spec_fn(Point) -> bool,
)
    requires
        connected(img, width, height, a, b, region_only),
        holds(a),
        forall|p: Point, r: Point|
            in_grid(width, height, p) && in_grid(width, height, r) && holds(p) && #[trigger] adjacent(
                p,
                r,
            ) && passable(pixel(img, width, r), region_only) ==> holds(r),
    ensures
        holds(b),
{
    let walk = choose|walk: Seq<Point>| #[trigger]
        is_walk(img, width, height, walk, region_only) && walk[0] == a && walk.last() == b;
    lemma_walk_induct(img, width, height, walk, region_only, holds, walk.len() - 1);
}

/// The induction itself, up to the walk's point number `k`.
proof fn lemma_walk_induct(
    img: Seq<u8>,
    width: usize,
    height: usize,
    walk: Seq<Point>,
    region_only: bool,
    holds: spec_fn(Point) -> bool,
    k: int,
)
    requires
        is_walk(img, width, height, walk, region_only),
        0 <= k < walk.len(),
        holds(walk[0]),
        forall|p: Point, r: Point|
            in_grid(width, height, p) && in_grid(width, height, r) && holds(p) && #[trigger] adjacent(
                p,
                r,
            ) && passable(pixel(img, width, r), region_only) ==> holds(r),
    ensures
        holds(walk[k]),
    decreases k,
{
    if k > 0 {
        lemma_walk_induct(img, width, height, walk, region_only, holds, k - 1);
    }
}

} // verus!
