//! Invariant of the breadth-first traversal that labels a mask, and the
//! proof that each kind of step keeps it.

use vstd::prelude::*;
use crate::flood_fill::{
    flooded, handed_over, lemma_contains_concat, lemma_contains_drop_first,
};
use crate::grid::{
    adjacent, connected, in_grid, lemma_connected_ends, lemma_connected_here,
    lemma_connected_induct, lemma_connected_step, lemma_connected_symmetric,
    lemma_connected_transfer, lemma_connected_transitive, passable, pixel,
    region_of, unprocessed, Point, COLORED_BACKGROUND, UNCOLORED_BACKGROUND, UNCOLORED_REGION,
};
use crate::traversal::pending_set;
use crate::img_connected_components::{
    background_swept, describes, foreground_swept, label_set, labelled, one_label_per_region,
    origin, out_of_labels, pixel_labelled, reachable, Component, MAX_REGIONS,
};

verus! {

/// `next` is `cur` with the value `v` written at `p`.
pub open spec fn written(
    cur: Seq<u8>,
    next: Seq<u8>,
    width: usize,
    height: usize,
    p: Point,
    v: u8,
) -> bool {
    forall|q: Point|
        in_grid(width, height, q) ==> #[trigger] pixel(next, width, q) == if q == p {
            v
        } else {
            pixel(cur, width, q)
        }
}

/// `pixel_labelled` holds of every grid point.
#[verifier::opaque]
pub open spec fn all_labelled(
    input: Seq<u8>,
    cur: Seq<u8>,
    width: usize,
    height: usize,
    n: nat,
) -> bool {
    forall|p: Point|
        in_grid(width, height, p) ==> #[trigger] pixel_labelled(input, cur, width, height, n, p)
}

/// Every queued point lies in the grid, and the traversal can reach it
/// if it was unprocessed in the input.
#[verifier::opaque]
pub open spec fn queue_ok(input: Seq<u8>, width: usize, height: usize, queue: Seq<Point>) -> bool {
    forall|i: int|
        0 <= i < queue.len() ==> in_grid(width, height, #[trigger] queue[i]) && (unprocessed(
            pixel(input, width, queue[i]),
        ) ==> reachable(input, width, height, queue[i]))
}

/// No pixel of value `v` that the traversal has to come to is lost: every
/// neighbour of a changed pixel, while it holds `v`, waits in the queue.
#[verifier::opaque]
pub open spec fn frontier(
    input: Seq<u8>,
    cur: Seq<u8>,
    width: usize,
    height: usize,
    queue: Seq<Point>,
    v: u8,
) -> bool {
    forall|p: Point, r: Point|
        in_grid(width, height, p) && in_grid(width, height, r) && #[trigger] adjacent(p, r)
            && pixel(cur, width, p) != pixel(input, width, p) && pixel(cur, width, r) == v
            ==> queue.contains(r)
}

/// The origin is handled first: while it is unprocessed nothing has been
/// labelled and it stands at the head of the queue.
pub open spec fn origin_first(cur: Seq<u8>, width: usize, n: nat, queue: Seq<Point>) -> bool {
    unprocessed(pixel(cur, width, origin())) ==> n == 0 && queue.len() > 0 && queue[0] == origin()
}

/// Neighbouring foreground pixels are both unlabelled or carry one label.
#[verifier::opaque]
pub open spec fn regions_whole(input: Seq<u8>, cur: Seq<u8>, width: usize, height: usize) -> bool {
    forall|p: Point, r: Point|
        in_grid(width, height, p) && in_grid(width, height, r) && #[trigger] adjacent(p, r)
            && pixel(input, width, p) == UNCOLORED_REGION && pixel(input, width, r)
            == UNCOLORED_REGION ==> pixel(cur, width, p) == pixel(cur, width, r)
}

/// Every labelled pixel is joined, through foreground of the input, to
/// the pixel at which its region was discovered.
#[verifier::opaque]
pub open spec fn seeds_ok(
    input: Seq<u8>,
    cur: Seq<u8>,
    width: usize,
    height: usize,
    seeds: Seq<Point>,
) -> bool {
    forall|p: Point|
        in_grid(width, height, p) && pixel(input, width, p) == UNCOLORED_REGION && #[trigger] pixel(
            cur,
            width,
            p,
        ) != UNCOLORED_REGION ==> connected(
            input,
            width,
            height,
            seeds[pixel(cur, width, p) - 2],
            p,
            true,
        )
}

/// Every component found so far describes the pixels of its label.
#[verifier::opaque]
pub open spec fn all_described(
    components: Seq<Component<usize>>,
    input: Seq<u8>,
    cur: Seq<u8>,
    width: usize,
    height: usize,
) -> bool {
    forall|k: int|
        0 <= k < components.len() ==> describes(#[trigger] components[k], input, cur, width, height, k)
}

/// What holds whenever the traversal takes the next point off its queue.
pub open spec fn label_inv(
    input: Seq<u8>,
    cur: Seq<u8>,
    width: usize,
    height: usize,
    n: nat,
    queue: Seq<Point>,
    seeds: Seq<Point>,
    dropped: bool,
) -> bool {
    &&& input.len() == width * height
    &&& cur.len() == width * height
    &&& width > 0
    &&& height > 0
    &&& n <= MAX_REGIONS
    &&& seeds.len() == n
    &&& all_labelled(input, cur, width, height, n)
    &&& queue_ok(input, width, height, queue)
    &&& origin_first(cur, width, n, queue)
    &&& frontier(input, cur, width, height, queue, UNCOLORED_BACKGROUND)
    &&& !dropped ==> frontier(input, cur, width, height, queue, UNCOLORED_REGION)
    &&& dropped ==> out_of_labels(input, cur, width, height, n)
    &&& regions_whole(input, cur, width, height)
    &&& seeds_ok(input, cur, width, height, seeds)
}

/// Every queued point lies in the grid.
pub proof fn lemma_queue_in_grid(input: Seq<u8>, width: usize, height: usize, queue: Seq<Point>)
    requires
        queue_ok(input, width, height, queue),
    ensures
        forall|i: int| 0 <= i < queue.len() ==> in_grid(width, height, #[trigger] queue[i]),
{
    reveal(queue_ok);
}

/// A pixel that is still unprocessed holds what it held in the input.
proof fn lemma_unprocessed_is_input(
    input: Seq<u8>,
    cur: Seq<u8>,
    width: usize,
    height: usize,
    n: nat,
    p: Point,
)
    requires
        all_labelled(input, cur, width, height, n),
        n <= MAX_REGIONS,
        in_grid(width, height, p),
        unprocessed(pixel(cur, width, p)) || pixel(cur, width, p) == pixel(input, width, p),
    ensures
        pixel(input, width, p) == pixel(cur, width, p),
{
    reveal(all_labelled);
    assert(pixel_labelled(input, cur, width, height, n, p));
}

/// The invariant holds when the traversal begins with the origin queued.
pub proof fn lemma_label_start(input: Seq<u8>, width: usize, height: usize)
    requires
        input.len() == width * height,
        width > 0,
        height > 0,
    ensures
        label_inv(input, input, width, height, 0, seq![origin()], Seq::empty(), false),
        all_described(Seq::empty(), input, input, width, height),
{
    reveal(all_labelled);
    reveal(queue_ok);
    reveal(frontier);
    reveal(regions_whole);
    reveal(seeds_ok);
    reveal(all_described);
    let queue = seq![origin()];
    if unprocessed(pixel(input, width, origin())) {
        lemma_connected_here(input, width, height, origin(), false);
    }
}

/// Taking a point off the queue that does not hold `v` keeps the frontier.
proof fn lemma_frontier_after_pop(
    input: Seq<u8>,
    cur: Seq<u8>,
    width: usize,
    height: usize,
    queue: Seq<Point>,
    v: u8,
)
    requires
        frontier(input, cur, width, height, queue, v),
        queue.len() > 0,
        pixel(cur, width, queue[0]) != v,
    ensures
        frontier(input, cur, width, height, queue.drop_first(), v),
{
    reveal(frontier);
    let rest = queue.drop_first();
    assert forall|p: Point, r: Point|
        in_grid(width, height, p) && in_grid(width, height, r) && #[trigger] adjacent(p, r)
            && pixel(cur, width, p) != pixel(input, width, p) && pixel(cur, width, r)
            == v implies rest.contains(r) by {
        lemma_contains_drop_first(queue, r);
    }
}

/// Marking the head of the queue and queueing its neighbours keeps the
/// frontier.
proof fn lemma_frontier_after_write(
    input: Seq<u8>,
    cur: Seq<u8>,
    next: Seq<u8>,
    width: usize,
    height: usize,
    queue: Seq<Point>,
    found: Seq<Point>,
    v: u8,
    mark: u8,
)
    requires
        frontier(input, cur, width, height, queue, v),
        width > 0,
        height > 0,
        queue.len() > 0,
        in_grid(width, height, queue[0]),
        written(cur, next, width, height, queue[0], mark),
        mark != v,
        forall|r: Point|
            in_grid(width, height, r) && #[trigger] adjacent(queue[0], r) && pixel(next, width, r)
                == v ==> found.contains(r),
    ensures
        frontier(input, next, width, height, queue.drop_first() + found, v),
{
    reveal(frontier);
    let p = queue[0];
    let rest = queue.drop_first();
    let after = rest + found;
    assert forall|a: Point, r: Point|
        in_grid(width, height, a) && in_grid(width, height, r) && #[trigger] adjacent(a, r)
            && pixel(next, width, a) != pixel(input, width, a) && pixel(next, width, r)
            == v implies after.contains(r) by {
        assert(pixel(next, width, r) == if r == p {
            mark
        } else {
            pixel(cur, width, r)
        });
        assert(pixel(next, width, a) == if a == p {
            mark
        } else {
            pixel(cur, width, a)
        });
        if a != p {
            lemma_contains_drop_first(queue, r);
        }
        lemma_contains_concat(rest, found, r);
    }
}

/// A fill from the head of the queue keeps the frontier.
proof fn lemma_frontier_after_fill(
    input: Seq<u8>,
    cur: Seq<u8>,
    next: Seq<u8>,
    width: usize,
    height: usize,
    queue: Seq<Point>,
    after: Seq<Point>,
    id: u8,
    v: u8,
)
    requires
        frontier(input, cur, width, height, queue, v),
        width > 0,
        height > 0,
        queue.len() > 0,
        in_grid(width, height, queue[0]),
        pixel(cur, width, queue[0]) == UNCOLORED_REGION,
        flooded(cur, next, width, height, queue[0], id),
        handed_over(cur, width, height, queue[0], queue.drop_first(), after),
        !unprocessed(id),
        unprocessed(v),
    ensures
        frontier(input, next, width, height, after, v),
{
    reveal(frontier);
    let p = queue[0];
    let rest = queue.drop_first();
    let pushed = after.skip(rest.len() as int);
    lemma_connected_here(cur, width, height, p, true);
    assert forall|a: Point, r: Point|
        in_grid(width, height, a) && in_grid(width, height, r) && #[trigger] adjacent(a, r)
            && pixel(next, width, a) != pixel(input, width, a) && pixel(next, width, r)
            == v implies after.contains(r) by {
        assert(pixel(next, width, r) == if connected(cur, width, height, p, r, true) {
            id
        } else {
            pixel(cur, width, r)
        });
        assert(pixel(next, width, a) == if connected(cur, width, height, p, a, true) {
            id
        } else {
            pixel(cur, width, a)
        });
        if connected(cur, width, height, p, a, true) {
            if v == UNCOLORED_REGION {
                lemma_connected_step(cur, width, height, p, a, r, true);
            }
        } else {
            lemma_contains_drop_first(queue, r);
        }
        lemma_contains_concat(rest, pushed, r);
    }
}

/// The region that a fill finds around an unlabelled pixel of the current
/// mask is the region of the input around it.
proof fn lemma_region_same(
    input: Seq<u8>,
    cur: Seq<u8>,
    width: usize,
    height: usize,
    n: nat,
    seed: Point,
)
    requires
        all_labelled(input, cur, width, height, n),
        regions_whole(input, cur, width, height),
        n <= MAX_REGIONS,
        in_grid(width, height, seed),
        pixel(cur, width, seed) == UNCOLORED_REGION,
    ensures
        forall|q: Point|
            connected(cur, width, height, seed, q, true) <==> connected(
                input,
                width,
                height,
                seed,
                q,
                true,
            ),
{
    reveal(all_labelled);
    reveal(regions_whole);
    assert forall|q: Point| in_grid(width, height, q) && passable(
        #[trigger] pixel(cur, width, q),
        true,
    ) implies passable(pixel(input, width, q), true) by {
        assert(pixel_labelled(input, cur, width, height, n, q));
    }
    assert forall|q: Point| connected(cur, width, height, seed, q, true) implies connected(
        input,
        width,
        height,
        seed,
        q,
        true,
    ) by {
        lemma_connected_transfer(cur, input, width, height, seed, q, true, true);
    }
    let together = |q: Point|
        in_grid(width, height, q) && pixel(cur, width, q) == UNCOLORED_REGION && connected(
            cur,
            width,
            height,
            seed,
            q,
            true,
        );
    lemma_connected_here(cur, width, height, seed, true);
    assert forall|a: Point, r: Point|
        in_grid(width, height, a) && in_grid(width, height, r) && together(a) && #[trigger] adjacent(
            a,
            r,
        ) && passable(pixel(input, width, r), true) implies together(r) by {
        lemma_connected_step(cur, width, height, seed, a, r, true);
    }
    assert forall|q: Point| connected(input, width, height, seed, q, true) implies connected(
        cur,
        width,
        height,
        seed,
        q,
        true,
    ) by {
        lemma_connected_induct(input, width, height, seed, q, true, together);
    }
}

/// Writing one pixel that is no labelled foreground leaves every
/// component's record true.
proof fn lemma_described_frame(
    components: Seq<Component<usize>>,
    input: Seq<u8>,
    cur: Seq<u8>,
    next: Seq<u8>,
    width: usize,
    height: usize,
)
    requires
        all_described(components, input, cur, width, height),
        components.len() <= MAX_REGIONS,
        forall|q: Point|
            in_grid(width, height, q) && pixel(input, width, q) == UNCOLORED_REGION
                && #[trigger] pixel(next, width, q) != pixel(cur, width, q) ==> pixel(
                cur,
                width,
                q,
            ) == UNCOLORED_REGION && pixel(next, width, q) > components.len() + 1,
    ensures
        all_described(components, input, next, width, height),
{
    reveal(all_described);
    assert forall|k: int| 0 <= k < components.len() implies describes(
        #[trigger] components[k],
        input,
        next,
        width,
        height,
        k,
    ) by {
        let c = components[k];
        assert forall|q: Point|
            label_set(input, next, width, height, c.id).contains(q) <==> label_set(
                input,
                cur,
                width,
                height,
                c.id,
            ).contains(q) by {
        }
        assert(label_set(input, next, width, height, c.id) =~= label_set(
            input,
            cur,
            width,
            height,
            c.id,
        ));
    }
}

/// The queue's head is unvisited background: it is marked as visited and
/// its unprocessed neighbours are queued.
pub proof fn lemma_sweep_background(
    input: Seq<u8>,
    cur: Seq<u8>,
    next: Seq<u8>,
    width: usize,
    height: usize,
    n: nat,
    queue: Seq<Point>,
    found: Seq<Point>,
    seeds: Seq<Point>,
    dropped: bool,
    components: Seq<Component<usize>>,
)
    requires
        label_inv(input, cur, width, height, n, queue, seeds, dropped),
        all_described(components, input, cur, width, height),
        components.len() == n,
        queue.len() > 0,
        in_grid(width, height, queue[0]),
        pixel(cur, width, queue[0]) == UNCOLORED_BACKGROUND,
        next.len() == cur.len(),
        written(cur, next, width, height, queue[0], COLORED_BACKGROUND),
        forall|r: Point|
            found.contains(r) <==> in_grid(width, height, r) && #[trigger] adjacent(queue[0], r)
                && unprocessed(pixel(next, width, r)),
    ensures
        label_inv(input, next, width, height, n, queue.drop_first() + found, seeds, dropped),
        all_described(components, input, next, width, height),
        pending_set(cur, width, height).contains(queue[0]),
        pending_set(next, width, height) == pending_set(cur, width, height).remove(queue[0]),
{
    let p = queue[0];
    let rest = queue.drop_first();
    let after = rest + found;
    lemma_unprocessed_is_input(input, cur, width, height, n, p);
    assert(reachable(input, width, height, p)) by {
        reveal(queue_ok);
    }
    assert(all_labelled(input, next, width, height, n)) by {
        reveal(all_labelled);
        assert forall|q: Point| in_grid(width, height, q) implies #[trigger] pixel_labelled(
            input,
            next,
            width,
            height,
            n,
            q,
        ) by {
            assert(pixel_labelled(input, cur, width, height, n, q));
            assert(pixel(next, width, q) == if q == p {
                COLORED_BACKGROUND
            } else {
                pixel(cur, width, q)
            });
        }
    }
    assert(queue_ok(input, width, height, after)) by {
        reveal(queue_ok);
        assert forall|i: int| 0 <= i < after.len() implies in_grid(
            width,
            height,
            #[trigger] after[i],
        ) && (unprocessed(pixel(input, width, after[i])) ==> reachable(
            input,
            width,
            height,
            after[i],
        )) by {
            if i >= rest.len() {
                let r = after[i];
                assert(adjacent(p, r));
                assert(pixel(next, width, r) == if r == p {
                    COLORED_BACKGROUND
                } else {
                    pixel(cur, width, r)
                });
                lemma_unprocessed_is_input(input, cur, width, height, n, r);
                lemma_connected_step(input, width, height, origin(), p, r, false);
            }
        }
    }
    assert(pixel(next, width, origin()) == if origin() == p {
        COLORED_BACKGROUND
    } else {
        pixel(cur, width, origin())
    });
    lemma_frontier_after_write(
        input,
        cur,
        next,
        width,
        height,
        queue,
        found,
        UNCOLORED_BACKGROUND,
        COLORED_BACKGROUND,
    );
    if !dropped {
        lemma_frontier_after_write(
            input,
            cur,
            next,
            width,
            height,
            queue,
            found,
            UNCOLORED_REGION,
            COLORED_BACKGROUND,
        );
    } else {
        let w = choose|w: Point|
            in_grid(width, height, w) && pixel(input, width, w) == UNCOLORED_REGION
                && #[trigger] pixel(cur, width, w) == UNCOLORED_REGION && reachable(
                input,
                width,
                height,
                w,
            );
        assert(pixel(next, width, w) == if w == p {
            COLORED_BACKGROUND
        } else {
            pixel(cur, width, w)
        });
    }
    assert(regions_whole(input, next, width, height)) by {
        reveal(regions_whole);
        assert forall|a: Point, r: Point|
            in_grid(width, height, a) && in_grid(width, height, r) && #[trigger] adjacent(a, r)
                && pixel(input, width, a) == UNCOLORED_REGION && pixel(input, width, r)
                == UNCOLORED_REGION implies pixel(next, width, a) == pixel(next, width, r) by {
        }
    }
    assert(seeds_ok(input, next, width, height, seeds)) by {
        reveal(seeds_ok);
        assert forall|q: Point|
            in_grid(width, height, q) && pixel(input, width, q) == UNCOLORED_REGION
                && #[trigger] pixel(next, width, q) != UNCOLORED_REGION implies connected(
            input,
            width,
            height,
            seeds[pixel(next, width, q) - 2],
            q,
            true,
        ) by {
        }
    }
    lemma_described_frame(components, input, cur, next, width, height);
    assert forall|q: Point|
        pending_set(next, width, height).contains(q) <==> pending_set(cur, width, height).remove(
            p,
        ).contains(q) by {
        if in_grid(width, height, q) {
            assert(pixel(next, width, q) == if q == p {
                COLORED_BACKGROUND
            } else {
                pixel(cur, width, q)
            });
        }
    }
}

/// The queue's head needs no work: it was handled since it was queued, or
/// it never was an unprocessed pixel.
pub proof fn lemma_pass_over(
    input: Seq<u8>,
    cur: Seq<u8>,
    width: usize,
    height: usize,
    n: nat,
    queue: Seq<Point>,
    seeds: Seq<Point>,
    dropped: bool,
)
    requires
        label_inv(input, cur, width, height, n, queue, seeds, dropped),
        queue.len() > 0,
        !unprocessed(pixel(cur, width, queue[0])),
    ensures
        label_inv(input, cur, width, height, n, queue.drop_first(), seeds, dropped),
{
    let rest = queue.drop_first();
    assert(queue_ok(input, width, height, rest)) by {
        reveal(queue_ok);
        assert forall|i: int| 0 <= i < rest.len() implies in_grid(
            width,
            height,
            #[trigger] rest[i],
        ) && (unprocessed(pixel(input, width, rest[i])) ==> reachable(
            input,
            width,
            height,
            rest[i],
        )) by {
        }
    }
    lemma_frontier_after_pop(input, cur, width, height, queue, UNCOLORED_BACKGROUND);
    if !dropped {
        lemma_frontier_after_pop(input, cur, width, height, queue, UNCOLORED_REGION);
    }
}

/// The queue's head is foreground and no label is left: the region stays
/// as it is.
pub proof fn lemma_drop_region(
    input: Seq<u8>,
    cur: Seq<u8>,
    width: usize,
    height: usize,
    n: nat,
    queue: Seq<Point>,
    seeds: Seq<Point>,
    dropped: bool,
)
    requires
        label_inv(input, cur, width, height, n, queue, seeds, dropped),
        queue.len() > 0,
        in_grid(width, height, queue[0]),
        pixel(cur, width, queue[0]) == UNCOLORED_REGION,
        n == MAX_REGIONS,
    ensures
        label_inv(input, cur, width, height, n, queue.drop_first(), seeds, true),
{
    let p = queue[0];
    let rest = queue.drop_first();
    lemma_unprocessed_is_input(input, cur, width, height, n, p);
    assert(queue_ok(input, width, height, rest) && reachable(input, width, height, p)) by {
        reveal(queue_ok);
        assert forall|i: int| 0 <= i < rest.len() implies in_grid(
            width,
            height,
            #[trigger] rest[i],
        ) && (unprocessed(pixel(input, width, rest[i])) ==> reachable(
            input,
            width,
            height,
            rest[i],
        )) by {
        }
    }
    lemma_frontier_after_pop(input, cur, width, height, queue, UNCOLORED_BACKGROUND);
}

/// The queue's head is foreground and a label is left: a fill gives the
/// label to the whole region around it.
pub proof fn lemma_label_region(
    input: Seq<u8>,
    cur: Seq<u8>,
    next: Seq<u8>,
    width: usize,
    height: usize,
    n: nat,
    queue: Seq<Point>,
    after: Seq<Point>,
    seeds: Seq<Point>,
    dropped: bool,
    components: Seq<Component<usize>>,
    id: u8,
)
    requires
        label_inv(input, cur, width, height, n, queue, seeds, dropped),
        all_described(components, input, cur, width, height),
        components.len() == n,
        queue.len() > 0,
        in_grid(width, height, queue[0]),
        pixel(cur, width, queue[0]) == UNCOLORED_REGION,
        n < MAX_REGIONS,
        id == n + 2,
        next.len() == cur.len(),
        flooded(cur, next, width, height, queue[0], id),
        handed_over(cur, width, height, queue[0], queue.drop_first(), after),
    ensures
        label_inv(input, next, width, height, n + 1, after, seeds.push(queue[0]), false),
        all_described(components, input, next, width, height),
        label_set(input, next, width, height, id) == region_of(cur, width, height, queue[0]),
        pending_set(cur, width, height).contains(queue[0]),
        pending_set(next, width, height).subset_of(
            pending_set(cur, width, height).remove(queue[0]),
        ),
{
    let p = queue[0];
    let rest = queue.drop_first();
    let seeds2 = seeds.push(p);
    lemma_unprocessed_is_input(input, cur, width, height, n, p);
    lemma_region_same(input, cur, width, height, n, p);
    lemma_connected_here(cur, width, height, p, true);
    assert(reachable(input, width, height, p)) by {
        reveal(queue_ok);
    }
    assert(all_labelled(input, next, width, height, n + 1)) by {
        reveal(all_labelled);
        assert forall|q: Point| in_grid(width, height, q) implies #[trigger] pixel_labelled(
            input,
            next,
            width,
            height,
            n + 1,
            q,
        ) by {
            assert(pixel_labelled(input, cur, width, height, n, q));
            assert(pixel(next, width, q) == if connected(cur, width, height, p, q, true) {
                id
            } else {
                pixel(cur, width, q)
            });
            if connected(cur, width, height, p, q, true) {
                lemma_connected_ends(input, width, height, p, q, true);
                lemma_connected_transfer(input, input, width, height, p, q, true, false);
                lemma_connected_transitive(input, width, height, origin(), p, q, false);
            }
        }
    }
    assert(queue_ok(input, width, height, after)) by {
        reveal(queue_ok);
        reveal(all_labelled);
        assert forall|q: Point| in_grid(width, height, q) && passable(
            #[trigger] pixel(cur, width, q),
            false,
        ) implies passable(pixel(input, width, q), false) by {
            assert(pixel_labelled(input, cur, width, height, n, q));
        }
        assert forall|i: int| 0 <= i < after.len() implies in_grid(
            width,
            height,
            #[trigger] after[i],
        ) && (unprocessed(pixel(input, width, after[i])) ==> reachable(
            input,
            width,
            height,
            after[i],
        )) by {
            if i >= rest.len() {
                let r = after[i];
                lemma_connected_transfer(cur, input, width, height, p, r, false, false);
                lemma_connected_transitive(input, width, height, origin(), p, r, false);
            }
        }
    }
    assert(pixel(next, width, origin()) == if connected(cur, width, height, p, origin(), true) {
        id
    } else {
        pixel(cur, width, origin())
    });
    lemma_frontier_after_fill(
        input,
        cur,
        next,
        width,
        height,
        queue,
        after,
        id,
        UNCOLORED_BACKGROUND,
    );
    lemma_frontier_after_fill(input, cur, next, width, height, queue, after, id, UNCOLORED_REGION);
    assert(regions_whole(input, next, width, height)) by {
        reveal(regions_whole);
        assert forall|a: Point, r: Point|
            in_grid(width, height, a) && in_grid(width, height, r) && #[trigger] adjacent(a, r)
                && pixel(input, width, a) == UNCOLORED_REGION && pixel(input, width, r)
                == UNCOLORED_REGION implies pixel(next, width, a) == pixel(next, width, r) by {
            assert(pixel(next, width, a) == if connected(cur, width, height, p, a, true) {
                id
            } else {
                pixel(cur, width, a)
            });
            assert(pixel(next, width, r) == if connected(cur, width, height, p, r, true) {
                id
            } else {
                pixel(cur, width, r)
            });
            if connected(input, width, height, p, a, true) {
                lemma_connected_step(input, width, height, p, a, r, true);
            }
            if connected(input, width, height, p, r, true) {
                lemma_connected_step(input, width, height, p, r, a, true);
            }
        }
    }
    assert(seeds_ok(input, next, width, height, seeds2)) by {
        reveal(seeds_ok);
        reveal(all_labelled);
        assert forall|q: Point|
            in_grid(width, height, q) && pixel(input, width, q) == UNCOLORED_REGION
                && #[trigger] pixel(next, width, q) != UNCOLORED_REGION implies connected(
            input,
            width,
            height,
            seeds2[pixel(next, width, q) - 2],
            q,
            true,
        ) by {
            assert(pixel_labelled(input, cur, width, height, n, q));
        }
    }
    assert forall|q: Point|
        in_grid(width, height, q) && pixel(input, width, q) == UNCOLORED_REGION
            && #[trigger] pixel(next, width, q) != pixel(cur, width, q) implies pixel(
        cur,
        width,
        q,
    ) == UNCOLORED_REGION && pixel(next, width, q) > components.len() + 1 by {
        if connected(cur, width, height, p, q, true) {
            lemma_connected_ends(cur, width, height, p, q, true);
        }
    }
    lemma_described_frame(components, input, cur, next, width, height);
    assert forall|q: Point|
        label_set(input, next, width, height, id).contains(q) <==> region_of(
            cur,
            width,
            height,
            p,
        ).contains(q) by {
        if connected(cur, width, height, p, q, true) {
            lemma_connected_ends(input, width, height, p, q, true);
        }
        if label_set(input, next, width, height, id).contains(q) {
            reveal(all_labelled);
            assert(pixel_labelled(input, cur, width, height, n, q));
        }
    }
    assert forall|q: Point| pending_set(next, width, height).contains(q) implies pending_set(
        cur,
        width,
        height,
    ).remove(p).contains(q) by {
        assert(pixel(next, width, q) == if connected(cur, width, height, p, q, true) {
            id
        } else {
            pixel(cur, width, q)
        });
    }
}

/// Adds the record of the region that a fill has just labelled.
pub proof fn lemma_described_push(
    components: Seq<Component<usize>>,
    c: Component<usize>,
    input: Seq<u8>,
    cur: Seq<u8>,
    width: usize,
    height: usize,
)
    requires
        all_described(components, input, cur, width, height),
        describes(c, input, cur, width, height, components.len() as int),
    ensures
        all_described(components.push(c), input, cur, width, height),
{
    reveal(all_described);
    let longer = components.push(c);
    assert forall|k: int| 0 <= k < longer.len() implies describes(
        #[trigger] longer[k],
        input,
        cur,
        width,
        height,
        k,
    ) by {
    }
}

/// With the queue empty the pass is over, and the mask and the components
/// stand in the relation that the pass promises.
pub proof fn lemma_label_done(
    input: Seq<u8>,
    cur: Seq<u8>,
    width: usize,
    height: usize,
    seeds: Seq<Point>,
    dropped: bool,
    components: Seq<Component<usize>>,
)
    requires
        label_inv(input, cur, width, height, components.len(), Seq::empty(), seeds, dropped),
        all_described(components, input, cur, width, height),
    ensures
        labelled(input, cur, width, height, components),
{
    let n = components.len();
    reveal(all_labelled);
    reveal(all_described);
    assert(background_swept(input, cur, width, height)) by {
        reveal(frontier);
        assert forall|p: Point, r: Point|
            in_grid(width, height, p) && in_grid(width, height, r) && #[trigger] adjacent(p, r)
                && pixel(cur, width, p) != pixel(input, width, p) && pixel(input, width, r)
                == UNCOLORED_BACKGROUND implies pixel(cur, width, r) == COLORED_BACKGROUND by {
            assert(pixel_labelled(input, cur, width, height, n, r));
        }
    }
    if !dropped {
        assert(foreground_swept(input, cur, width, height)) by {
            reveal(frontier);
            assert forall|p: Point, r: Point|
                in_grid(width, height, p) && in_grid(width, height, r) && #[trigger] adjacent(p, r)
                    && pixel(cur, width, p) != pixel(input, width, p) && pixel(input, width, r)
                    == UNCOLORED_REGION implies pixel(cur, width, r) != UNCOLORED_REGION by {
            }
        }
    }
    assert(one_label_per_region(input, cur, width, height)) by {
        assert forall|p: Point, r: Point|
            #![trigger pixel(cur, width, p), pixel(cur, width, r)]
            in_grid(width, height, p) && in_grid(width, height, r) && pixel(input, width, p)
                == UNCOLORED_REGION && pixel(input, width, r) == UNCOLORED_REGION && pixel(
                cur,
                width,
                p,
            ) != UNCOLORED_REGION implies (connected(input, width, height, p, r, true) <==> pixel(
            cur,
            width,
            r,
        ) == pixel(cur, width, p)) by {
            if connected(input, width, height, p, r, true) {
                lemma_same_label(input, cur, width, height, p, r);
            }
            if pixel(cur, width, r) == pixel(cur, width, p) {
                reveal(seeds_ok);
                let s = seeds[pixel(cur, width, p) - 2];
                lemma_connected_symmetric(input, width, height, s, p, true);
                lemma_connected_transitive(input, width, height, p, s, r, true);
            }
        }
    }
}

/// Foreground pixels of one region hold the same value.
proof fn lemma_same_label(
    input: Seq<u8>,
    cur: Seq<u8>,
    width: usize,
    height: usize,
    p: Point,
    r: Point,
)
    requires
        regions_whole(input, cur, width, height),
        connected(input, width, height, p, r, true),
    ensures
        pixel(cur, width, r) == pixel(cur, width, p),
{
    reveal(regions_whole);
    lemma_connected_ends(input, width, height, p, r, true);
    let alike = |q: Point|
        pixel(input, width, q) == UNCOLORED_REGION && pixel(cur, width, q) == pixel(cur, width, p);
    lemma_connected_induct(input, width, height, p, r, true, alike);
}

} // verus!
