//! Invariant of the depth-first absorption of one foreground region, and
//! the proof that each step of the work list keeps it.

use vstd::prelude::*;
use crate::grid::{
    adjacent, bounds, connected, in_grid, lemma_connected_here,
    lemma_connected_induct, lemma_connected_step, lemma_connected_transfer, lemma_grid_subset,
    lemma_pixel_index_bounds, lemma_pixel_update, passable, pixel, pixel_index, region_of,
    unprocessed, Point, COLORED_BACKGROUND, UNCOLORED_BACKGROUND, UNCOLORED_REGION,
};
use crate::img_connected_components::{lemma_open_neighbors, open_neighbors};
use crate::traversal::remaining_set;

verus! {

/// What one of two sequences holds, both together hold.
pub proof fn lemma_contains_concat<A>(a: Seq<A>, b: Seq<A>, x: A)
    requires
        a.contains(x) || b.contains(x),
    ensures
        (a + b).contains(x),
{
    if a.contains(x) {
        let i = choose|i: int| 0 <= i < a.len() && a[i] == x;
        assert((a + b)[i] == x);
    } else {
        let i = choose|i: int| 0 <= i < b.len() && b[i] == x;
        assert((a + b)[a.len() + i] == x);
    }
}

/// Without its last element a sequence still holds every other value.
pub proof fn lemma_contains_drop_last<A>(a: Seq<A>, x: A)
    requires
        a.len() > 0,
        a.contains(x),
        x != a.last(),
    ensures
        a.drop_last().contains(x),
{
    let i = choose|i: int| 0 <= i < a.len() && a[i] == x;
    assert(a.drop_last()[i] == x);
}

/// Without its first element a sequence still holds every other value.
pub proof fn lemma_contains_drop_first<A>(a: Seq<A>, x: A)
    requires
        a.len() > 0,
        a.contains(x),
        x != a[0],
    ensures
        a.drop_first().contains(x),
{
    let i = choose|i: int| 0 <= i < a.len() && a[i] == x;
    assert(a.drop_first()[i - 1] == x);
}

/// A sequence with one more element holds that element and all it held.
pub proof fn lemma_contains_push<A>(a: Seq<A>, y: A, x: A)
    requires
        a.contains(x) || x == y,
    ensures
        a.push(y).contains(x),
{
    if a.contains(x) {
        let i = choose|i: int| 0 <= i < a.len() && a[i] == x;
        assert(a.push(y)[i] == x);
    } else {
        assert(a.push(y)[a.len() as int] == x);
    }
}

/// `p` was foreground when the fill began and carries the fill's label now.
pub open spec fn absorbed(entry: Seq<u8>, cur: Seq<u8>, width: usize, id: u8, p: Point) -> bool {
    pixel(entry, width, p) == UNCOLORED_REGION && pixel(cur, width, p) == id
}

/// The pixels that the fill has absorbed so far.
pub open spec fn absorbed_set(
    entry: Seq<u8>,
    cur: Seq<u8>,
    width: usize,
    height: usize,
    id: u8,
) -> Set<Point> {
    Set::new(|p: Point| in_grid(width, height, p) && absorbed(entry, cur, width, id, p))
}

/// What holds of a point on the fill's stack: it was unprocessed when the
/// fill began, and a walk leads to it from the seed, through foreground
/// alone if the point is foreground itself.
pub open spec fn pending_ok(entry: Seq<u8>, width: usize, height: usize, seed: Point, r: Point) -> bool {
    &&& in_grid(width, height, r)
    &&& unprocessed(pixel(entry, width, r))
    &&& connected(entry, width, height, seed, r, pixel(entry, width, r) == UNCOLORED_REGION)
}

/// What holds of a point that the fill hands back to the outer queue:
/// it is unvisited background that a walk from the seed reaches.
pub open spec fn handed_ok(entry: Seq<u8>, width: usize, height: usize, seed: Point, r: Point) -> bool {
    &&& in_grid(width, height, r)
    &&& pixel(entry, width, r) == UNCOLORED_BACKGROUND
    &&& connected(entry, width, height, seed, r, false)
}

/// Every pixel is as the fill found it, or was foreground of the seed's
/// region and carries the label.
#[verifier::opaque]
pub open spec fn fill_sound(
    entry: Seq<u8>,
    cur: Seq<u8>,
    width: usize,
    height: usize,
    id: u8,
    seed: Point,
) -> bool {
    forall|p: Point|
        in_grid(width, height, p) ==> #[trigger] pixel(cur, width, p) == pixel(entry, width, p) || (
        absorbed(entry, cur, width, id, p) && connected(entry, width, height, seed, p, true))
}

/// `pending_ok` holds of every point on the stack.
#[verifier::opaque]
pub open spec fn all_pending_ok(
    entry: Seq<u8>,
    width: usize,
    height: usize,
    seed: Point,
    stack: Seq<Point>,
) -> bool {
    forall|i: int|
        0 <= i < stack.len() ==> pending_ok(entry, width, height, seed, #[trigger] stack[i])
}

/// `handed_ok` holds of every point that was handed back.
#[verifier::opaque]
pub open spec fn all_handed_ok(
    entry: Seq<u8>,
    width: usize,
    height: usize,
    seed: Point,
    pushed: Seq<Point>,
) -> bool {
    forall|i: int|
        0 <= i < pushed.len() ==> handed_ok(entry, width, height, seed, #[trigger] pushed[i])
}

/// Nothing that the fill still has to look at is lost: the seed and every
/// neighbour of an absorbed pixel is absorbed too, or waits on the stack,
/// or, if it is background, was handed back.
#[verifier::opaque]
pub open spec fn frontier_kept(
    entry: Seq<u8>,
    cur: Seq<u8>,
    width: usize,
    height: usize,
    id: u8,
    seed: Point,
    stack: Seq<Point>,
    pushed: Seq<Point>,
) -> bool {
    &&& pixel(cur, width, seed) == UNCOLORED_REGION ==> stack.contains(seed)
    &&& forall|p: Point, r: Point|
        in_grid(width, height, p) && in_grid(width, height, r) && absorbed(entry, cur, width, id, p)
            && #[trigger] adjacent(p, r) ==> (pixel(cur, width, r) == UNCOLORED_REGION
            ==> stack.contains(r)) && (pixel(entry, width, r) == UNCOLORED_BACKGROUND
            ==> stack.contains(r) || pushed.contains(r))
}

/// What holds whenever the fill takes the next point off its stack.
pub open spec fn fill_inv(
    entry: Seq<u8>,
    cur: Seq<u8>,
    width: usize,
    height: usize,
    id: u8,
    seed: Point,
    stack: Seq<Point>,
    pushed: Seq<Point>,
) -> bool {
    &&& entry.len() == width * height
    &&& cur.len() == width * height
    &&& in_grid(width, height, seed)
    &&& pixel(entry, width, seed) == UNCOLORED_REGION
    &&& COLORED_BACKGROUND < id < UNCOLORED_REGION
    &&& fill_sound(entry, cur, width, height, id, seed)
    &&& all_pending_ok(entry, width, height, seed, stack)
    &&& all_handed_ok(entry, width, height, seed, pushed)
    &&& frontier_kept(entry, cur, width, height, id, seed, stack, pushed)
}

/// The fill's result: the seed's whole region carries the label and every
/// other pixel is as it was.
pub open spec fn flooded(
    entry: Seq<u8>,
    done: Seq<u8>,
    width: usize,
    height: usize,
    seed: Point,
    id: u8,
) -> bool {
    forall|p: Point|
        in_grid(width, height, p) ==> #[trigger] pixel(done, width, p) == if connected(
            entry,
            width,
            height,
            seed,
            p,
            true,
        ) {
            id
        } else {
            pixel(entry, width, p)
        }
}

/// What the fill appends to the outer queue: unvisited background that it
/// reached, among it every background neighbour of the region.
pub open spec fn handed_over(
    entry: Seq<u8>,
    width: usize,
    height: usize,
    seed: Point,
    before: Seq<Point>,
    after: Seq<Point>,
) -> bool {
    let pushed = after.skip(before.len() as int);
    &&& before.len() <= after.len()
    &&& after == before + pushed
    &&& forall|i: int|
        0 <= i < pushed.len() ==> handed_ok(entry, width, height, seed, #[trigger] pushed[i])
    &&& forall|p: Point, r: Point|
        in_grid(width, height, r) && connected(entry, width, height, seed, p, true)
            && #[trigger] adjacent(p, r) && pixel(entry, width, r) == UNCOLORED_BACKGROUND
            ==> pushed.contains(r)
}

/// The invariant holds when the fill begins with the seed on its stack.
pub proof fn lemma_fill_start(entry: Seq<u8>, width: usize, height: usize, id: u8, seed: Point)
    requires
        entry.len() == width * height,
        in_grid(width, height, seed),
        pixel(entry, width, seed) == UNCOLORED_REGION,
        COLORED_BACKGROUND < id < UNCOLORED_REGION,
    ensures
        fill_inv(entry, entry, width, height, id, seed, seq![seed], Seq::empty()),
        absorbed_set(entry, entry, width, height, id) == Set::<Point>::empty(),
{
    reveal(fill_sound);
    reveal(all_pending_ok);
    reveal(all_handed_ok);
    reveal(frontier_kept);
    lemma_connected_here(entry, width, height, seed, true);
    assert(seq![seed][0] == seed);
}

/// What is known of the stack's top when it still holds foreground.
proof fn lemma_top_is_region(
    entry: Seq<u8>,
    cur: Seq<u8>,
    width: usize,
    height: usize,
    id: u8,
    seed: Point,
    stack: Seq<Point>,
)
    requires
        COLORED_BACKGROUND < id < UNCOLORED_REGION,
        fill_sound(entry, cur, width, height, id, seed),
        all_pending_ok(entry, width, height, seed, stack),
        stack.len() > 0,
        pixel(cur, width, stack.last()) == UNCOLORED_REGION,
    ensures
        in_grid(width, height, stack.last()),
        pixel(entry, width, stack.last()) == UNCOLORED_REGION,
        connected(entry, width, height, seed, stack.last(), true),
{
    reveal(fill_sound);
    reveal(all_pending_ok);
}

/// Labelling the top of the stack keeps `fill_sound`.
proof fn lemma_absorb_sound(
    entry: Seq<u8>,
    cur: Seq<u8>,
    next: Seq<u8>,
    width: usize,
    height: usize,
    id: u8,
    seed: Point,
    p: Point,
)
    requires
        fill_sound(entry, cur, width, height, id, seed),
        in_grid(width, height, p),
        pixel(entry, width, p) == UNCOLORED_REGION,
        connected(entry, width, height, seed, p, true),
        forall|q: Point|
            in_grid(width, height, q) ==> #[trigger] pixel(next, width, q) == if q == p {
                id
            } else {
                pixel(cur, width, q)
            },
    ensures
        fill_sound(entry, next, width, height, id, seed),
{
    reveal(fill_sound);
    assert forall|q: Point| in_grid(width, height, q) implies #[trigger] pixel(next, width, q)
        == pixel(entry, width, q) || (absorbed(entry, next, width, id, q) && connected(
        entry,
        width,
        height,
        seed,
        q,
        true,
    )) by {
        if q != p {
            assert(pixel(cur, width, q) == pixel(entry, width, q) || (absorbed(
                entry,
                cur,
                width,
                id,
                q,
            ) && connected(entry, width, height, seed, q, true)));
        }
    }
}

/// The neighbours that go on the stack are pending points.
proof fn lemma_absorb_stack(
    entry: Seq<u8>,
    cur: Seq<u8>,
    next: Seq<u8>,
    width: usize,
    height: usize,
    id: u8,
    seed: Point,
    stack: Seq<Point>,
    found: Seq<Point>,
)
    requires
        COLORED_BACKGROUND < id < UNCOLORED_REGION,
        fill_sound(entry, cur, width, height, id, seed),
        all_pending_ok(entry, width, height, seed, stack),
        stack.len() > 0,
        in_grid(width, height, stack.last()),
        connected(entry, width, height, seed, stack.last(), true),
        forall|q: Point|
            in_grid(width, height, q) ==> #[trigger] pixel(next, width, q) == if q == stack.last() {
                id
            } else {
                pixel(cur, width, q)
            },
        forall|r: Point|
            found.contains(r) ==> in_grid(width, height, r) && adjacent(stack.last(), r)
                && unprocessed(pixel(next, width, r)),
    ensures
        all_pending_ok(entry, width, height, seed, stack.drop_last() + found),
{
    reveal(fill_sound);
    reveal(all_pending_ok);
    let p = stack.last();
    let rest = stack.drop_last();
    let stack2 = rest + found;
    assert forall|i: int| 0 <= i < stack2.len() implies pending_ok(
        entry,
        width,
        height,
        seed,
        #[trigger] stack2[i],
    ) by {
        if i >= rest.len() {
            let r = stack2[i];
            assert(found.contains(r));
            assert(pixel(next, width, r) == if r == p {
                id
            } else {
                pixel(cur, width, r)
            });
            assert(pixel(cur, width, r) == pixel(entry, width, r) || absorbed(
                entry,
                cur,
                width,
                id,
                r,
            ));
            if pixel(entry, width, r) == UNCOLORED_REGION {
                lemma_connected_step(entry, width, height, seed, p, r, true);
            } else {
                lemma_connected_transfer(entry, entry, width, height, seed, p, true, false);
                lemma_connected_step(entry, width, height, seed, p, r, false);
            }
        }
    }
}

/// Labelling the top of the stack and stacking its neighbours keeps the
/// frontier.
proof fn lemma_absorb_frontier(
    entry: Seq<u8>,
    cur: Seq<u8>,
    next: Seq<u8>,
    width: usize,
    height: usize,
    id: u8,
    seed: Point,
    stack: Seq<Point>,
    found: Seq<Point>,
    pushed: Seq<Point>,
)
    requires
        COLORED_BACKGROUND < id < UNCOLORED_REGION,
        fill_sound(entry, cur, width, height, id, seed),
        frontier_kept(entry, cur, width, height, id, seed, stack, pushed),
        stack.len() > 0,
        in_grid(width, height, stack.last()),
        in_grid(width, height, seed),
        pixel(entry, width, stack.last()) == UNCOLORED_REGION,
        forall|q: Point|
            in_grid(width, height, q) ==> #[trigger] pixel(next, width, q) == if q == stack.last() {
                id
            } else {
                pixel(cur, width, q)
            },
        forall|r: Point|
            in_grid(width, height, r) && #[trigger] adjacent(stack.last(), r) && unprocessed(
                pixel(next, width, r),
            ) ==> found.contains(r),
    ensures
        frontier_kept(entry, next, width, height, id, seed, stack.drop_last() + found, pushed),
{
    reveal(fill_sound);
    reveal(frontier_kept);
    let p = stack.last();
    let rest = stack.drop_last();
    let stack2 = rest + found;
    assert(pixel(next, width, seed) == if seed == p {
        id
    } else {
        pixel(cur, width, seed)
    });
    if pixel(next, width, seed) == UNCOLORED_REGION {
        lemma_contains_drop_last(stack, seed);
        lemma_contains_concat(rest, found, seed);
    }
    assert forall|a: Point, r: Point|
        in_grid(width, height, a) && in_grid(width, height, r) && absorbed(
            entry,
            next,
            width,
            id,
            a,
        ) && #[trigger] adjacent(a, r) implies (pixel(next, width, r) == UNCOLORED_REGION
        ==> stack2.contains(r)) && (pixel(entry, width, r) == UNCOLORED_BACKGROUND
        ==> stack2.contains(r) || pushed.contains(r)) by {
        assert(pixel(next, width, r) == if r == p {
            id
        } else {
            pixel(cur, width, r)
        });
        assert(pixel(next, width, a) == if a == p {
            id
        } else {
            pixel(cur, width, a)
        });
        if a == p {
            if pixel(next, width, r) == UNCOLORED_REGION || pixel(entry, width, r)
                == UNCOLORED_BACKGROUND {
                lemma_contains_concat(rest, found, r);
            }
        } else {
            if pixel(next, width, r) == UNCOLORED_REGION {
                lemma_contains_drop_last(stack, r);
                lemma_contains_concat(rest, found, r);
            }
            if pixel(entry, width, r) == UNCOLORED_BACKGROUND && stack.contains(r) {
                lemma_contains_drop_last(stack, r);
                lemma_contains_concat(rest, found, r);
            }
        }
    }
}

/// Labelling a pixel moves it from the remaining pixels to the absorbed.
proof fn lemma_absorb_sets(
    entry: Seq<u8>,
    cur: Seq<u8>,
    next: Seq<u8>,
    width: usize,
    height: usize,
    id: u8,
    p: Point,
)
    requires
        COLORED_BACKGROUND < id < UNCOLORED_REGION,
        in_grid(width, height, p),
        pixel(entry, width, p) == UNCOLORED_REGION,
        pixel(cur, width, p) == UNCOLORED_REGION,
        forall|q: Point|
            in_grid(width, height, q) ==> #[trigger] pixel(next, width, q) == if q == p {
                id
            } else {
                pixel(cur, width, q)
            },
    ensures
        !absorbed_set(entry, cur, width, height, id).contains(p),
        absorbed_set(entry, next, width, height, id) == absorbed_set(
            entry,
            cur,
            width,
            height,
            id,
        ).insert(p),
        remaining_set(cur, width, height).contains(p),
        remaining_set(next, width, height) == remaining_set(cur, width, height).remove(p),
{
    assert forall|q: Point|
        absorbed_set(entry, next, width, height, id).contains(q) <==> absorbed_set(
            entry,
            cur,
            width,
            height,
            id,
        ).insert(p).contains(q) by {
        if in_grid(width, height, q) {
            assert(pixel(next, width, q) == if q == p {
                id
            } else {
                pixel(cur, width, q)
            });
        }
    }
    assert(absorbed_set(entry, next, width, height, id) =~= absorbed_set(
        entry,
        cur,
        width,
        height,
        id,
    ).insert(p));
    assert forall|q: Point|
        remaining_set(next, width, height).contains(q) <==> remaining_set(
            cur,
            width,
            height,
        ).remove(p).contains(q) by {
        if in_grid(width, height, q) {
            assert(pixel(next, width, q) == if q == p {
                id
            } else {
                pixel(cur, width, q)
            });
        }
    }
}

/// The stack's top is foreground: it takes the label, and its unprocessed
/// neighbours go on the stack.
pub proof fn lemma_fill_absorb(
    entry: Seq<u8>,
    cur: Seq<u8>,
    width: usize,
    height: usize,
    id: u8,
    seed: Point,
    stack: Seq<Point>,
    pushed: Seq<Point>,
)
    requires
        fill_inv(entry, cur, width, height, id, seed, stack, pushed),
        stack.len() > 0,
        pixel(cur, width, stack.last()) == UNCOLORED_REGION,
    ensures
        ({
            let p = stack.last();
            let next = cur.update(pixel_index(width, p), id);
            &&& in_grid(width, height, p)
            &&& fill_inv(
                entry,
                next,
                width,
                height,
                id,
                seed,
                stack.drop_last() + open_neighbors(next, width, height, p),
                pushed,
            )
            &&& !absorbed_set(entry, cur, width, height, id).contains(p)
            &&& absorbed_set(entry, next, width, height, id) == absorbed_set(
                entry,
                cur,
                width,
                height,
                id,
            ).insert(p)
            &&& remaining_set(cur, width, height).contains(p)
            &&& remaining_set(next, width, height) == remaining_set(cur, width, height).remove(p)
        }),
{
    let p = stack.last();
    let next = cur.update(pixel_index(width, p), id);
    let found = open_neighbors(next, width, height, p);
    lemma_top_is_region(entry, cur, width, height, id, seed, stack);
    lemma_pixel_update(cur, width, height, p, id);
    lemma_open_neighbors(next, width, height, p);
    lemma_absorb_sound(entry, cur, next, width, height, id, seed, p);
    lemma_absorb_stack(entry, cur, next, width, height, id, seed, stack, found);
    lemma_absorb_frontier(entry, cur, next, width, height, id, seed, stack, found, pushed);
    lemma_absorb_sets(entry, cur, next, width, height, id, p);
    lemma_pixel_index_bounds(width, height, p);
    assert(next.len() == cur.len());
}

/// The stack's top is unvisited background: it goes back to the outer
/// queue.
pub proof fn lemma_fill_hand_back(
    entry: Seq<u8>,
    cur: Seq<u8>,
    width: usize,
    height: usize,
    id: u8,
    seed: Point,
    stack: Seq<Point>,
    pushed: Seq<Point>,
)
    requires
        fill_inv(entry, cur, width, height, id, seed, stack, pushed),
        stack.len() > 0,
        pixel(cur, width, stack.last()) == UNCOLORED_BACKGROUND,
    ensures
        in_grid(width, height, stack.last()),
        fill_inv(
            entry,
            cur,
            width,
            height,
            id,
            seed,
            stack.drop_last(),
            pushed.push(stack.last()),
        ),
{
    reveal(fill_sound);
    reveal(all_pending_ok);
    reveal(all_handed_ok);
    reveal(frontier_kept);
    let p = stack.last();
    let rest = stack.drop_last();
    let pushed2 = pushed.push(p);
    assert forall|i: int| 0 <= i < rest.len() implies pending_ok(
        entry,
        width,
        height,
        seed,
        #[trigger] rest[i],
    ) by {
    }
    assert forall|i: int| 0 <= i < pushed2.len() implies handed_ok(
        entry,
        width,
        height,
        seed,
        #[trigger] pushed2[i],
    ) by {
    }
    if pixel(cur, width, seed) == UNCOLORED_REGION {
        lemma_contains_drop_last(stack, seed);
    }
    assert forall|a: Point, r: Point|
        in_grid(width, height, a) && in_grid(width, height, r) && absorbed(
            entry,
            cur,
            width,
            id,
            a,
        ) && #[trigger] adjacent(a, r) implies (pixel(cur, width, r) == UNCOLORED_REGION
        ==> rest.contains(r)) && (pixel(entry, width, r) == UNCOLORED_BACKGROUND
        ==> rest.contains(r) || pushed2.contains(r)) by {
        if pixel(cur, width, r) == UNCOLORED_REGION {
            lemma_contains_drop_last(stack, r);
        }
        if pixel(entry, width, r) == UNCOLORED_BACKGROUND {
            if r == p {
                lemma_contains_push(pushed, p, r);
            } else if stack.contains(r) {
                lemma_contains_drop_last(stack, r);
            } else {
                lemma_contains_push(pushed, p, r);
            }
        }
    }
}

/// The stack's top is neither foreground nor unvisited background: then
/// it carries this fill's label already, and nothing is left to do for it.
pub proof fn lemma_fill_skip(
    entry: Seq<u8>,
    cur: Seq<u8>,
    width: usize,
    height: usize,
    id: u8,
    seed: Point,
    stack: Seq<Point>,
    pushed: Seq<Point>,
)
    requires
        fill_inv(entry, cur, width, height, id, seed, stack, pushed),
        stack.len() > 0,
        !unprocessed(pixel(cur, width, stack.last())),
    ensures
        in_grid(width, height, stack.last()),
        pixel(cur, width, stack.last()) == id,
        fill_inv(entry, cur, width, height, id, seed, stack.drop_last(), pushed),
{
    reveal(fill_sound);
    reveal(all_pending_ok);
    reveal(frontier_kept);
    let p = stack.last();
    let rest = stack.drop_last();
    assert forall|i: int| 0 <= i < rest.len() implies pending_ok(
        entry,
        width,
        height,
        seed,
        #[trigger] rest[i],
    ) by {
    }
    if pixel(cur, width, seed) == UNCOLORED_REGION {
        lemma_contains_drop_last(stack, seed);
    }
    assert forall|a: Point, r: Point|
        in_grid(width, height, a) && in_grid(width, height, r) && absorbed(
            entry,
            cur,
            width,
            id,
            a,
        ) && #[trigger] adjacent(a, r) implies (pixel(cur, width, r) == UNCOLORED_REGION
        ==> rest.contains(r)) && (pixel(entry, width, r) == UNCOLORED_BACKGROUND
        ==> rest.contains(r) || pushed.contains(r)) by {
        if pixel(cur, width, r) == UNCOLORED_REGION {
            lemma_contains_drop_last(stack, r);
        }
        if pixel(entry, width, r) == UNCOLORED_BACKGROUND && stack.contains(r) {
            lemma_contains_drop_last(stack, r);
        }
    }
}

/// With the stack empty the fill has absorbed the seed's region, all of it
/// and nothing else.
pub proof fn lemma_fill_done(
    entry: Seq<u8>,
    cur: Seq<u8>,
    width: usize,
    height: usize,
    id: u8,
    seed: Point,
    before: Seq<Point>,
    pushed: Seq<Point>,
)
    requires
        fill_inv(entry, cur, width, height, id, seed, Seq::empty(), pushed),
    ensures
        flooded(entry, cur, width, height, seed, id),
        absorbed_set(entry, cur, width, height, id) == region_of(entry, width, height, seed),
        region_of(entry, width, height, seed).finite(),
        0 < region_of(entry, width, height, seed).len() <= width * height,
        handed_over(entry, width, height, seed, before, before + pushed),
{
    reveal(fill_sound);
    reveal(all_handed_ok);
    reveal(frontier_kept);
    let taken = |p: Point| in_grid(width, height, p) && absorbed(entry, cur, width, id, p);
    assert(pixel(cur, width, seed) == pixel(entry, width, seed) || absorbed(
        entry,
        cur,
        width,
        id,
        seed,
    ));
    assert forall|p: Point, r: Point|
        in_grid(width, height, p) && in_grid(width, height, r) && taken(p) && #[trigger] adjacent(
            p,
            r,
        ) && passable(pixel(entry, width, r), true) implies taken(r) by {
    }
    assert forall|p: Point| connected(entry, width, height, seed, p, true) implies taken(p) by {
        lemma_connected_induct(entry, width, height, seed, p, true, taken);
    }
    assert forall|p: Point| in_grid(width, height, p) implies #[trigger] pixel(cur, width, p)
        == if connected(entry, width, height, seed, p, true) {
        id
    } else {
        pixel(entry, width, p)
    } by {
    }
    assert forall|p: Point|
        absorbed_set(entry, cur, width, height, id).contains(p) <==> region_of(
            entry,
            width,
            height,
            seed,
        ).contains(p) by {
        if absorbed_set(entry, cur, width, height, id).contains(p) {
            assert(pixel(cur, width, p) == pixel(entry, width, p) || (absorbed(
                entry,
                cur,
                width,
                id,
                p,
            ) && connected(entry, width, height, seed, p, true)));
        }
    }
    assert(absorbed_set(entry, cur, width, height, id) =~= region_of(entry, width, height, seed));
    lemma_grid_subset(absorbed_set(entry, cur, width, height, id), width, height);
    assert(absorbed_set(entry, cur, width, height, id).contains(seed));
    let after = before + pushed;
    assert(after.skip(before.len() as int) =~= pushed);
    assert forall|p: Point, r: Point|
        in_grid(width, height, r) && connected(entry, width, height, seed, p, true)
            && #[trigger] adjacent(p, r) && pixel(entry, width, r)
            == UNCOLORED_BACKGROUND implies pushed.contains(r) by {
    }
}

/// Folding one more point into a bounding box that is kept as running
/// minima and maxima.
pub proof fn lemma_bounds_grow(
    s: Set<Point>,
    left: usize,
    top: usize,
    right: usize,
    bottom: usize,
    p: Point,
)
    requires
        s.finite(),
        s.len() > 0 ==> bounds(s, left, top, right, bottom),
        s.len() == 0 ==> left == usize::MAX && top == usize::MAX && right == 0 && bottom == 0,
    ensures
        bounds(
            s.insert(p),
            if p.0 < left {
                p.0
            } else {
                left
            },
            if p.1 < top {
                p.1
            } else {
                top
            },
            if p.0 > right {
                p.0
            } else {
                right
            },
            if p.1 > bottom {
                p.1
            } else {
                bottom
            },
        ),
{
    let grown = s.insert(p);
    assert(grown.contains(p));
    if s.len() > 0 {
        let a = choose|a: Point| #[trigger] s.contains(a) && a.0 == left;
        let b = choose|b: Point| #[trigger] s.contains(b) && b.0 == right;
        let c = choose|c: Point| #[trigger] s.contains(c) && c.1 == top;
        let d = choose|d: Point| #[trigger] s.contains(d) && d.1 == bottom;
        assert(grown.contains(a));
        assert(grown.contains(b));
        assert(grown.contains(c));
        assert(grown.contains(d));
    }
}

} // verus!
