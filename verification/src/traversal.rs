//! The labelling traversal as a function of the mask: what the work lists
//! make of it, step by step. This fixes the order in which regions are
//! discovered, and with it the label of each.

use vstd::prelude::*;
use crate::grid::{
    in_grid, lemma_grid_subset, lemma_pixel_index_bounds, lemma_pixel_update, pixel, pixel_index,
    unprocessed, Point, COLORED_BACKGROUND, UNCOLORED_BACKGROUND, UNCOLORED_REGION,
};
use crate::img_connected_components::{lemma_open_neighbors, open_neighbors, MAX_LABEL};

verus! {

/// The foreground pixels that no fill has absorbed yet.
pub open spec fn remaining_set(cur: Seq<u8>, width: usize, height: usize) -> Set<Point> {
    Set::new(|p: Point| in_grid(width, height, p) && pixel(cur, width, p) == UNCOLORED_REGION)
}

/// The pixels that the traversal may still have to handle.
pub open spec fn pending_set(cur: Seq<u8>, width: usize, height: usize) -> Set<Point> {
    Set::new(|p: Point| in_grid(width, height, p) && unprocessed(pixel(cur, width, p)))
}

/// The points all lie in the grid.
pub open spec fn all_in_grid(width: usize, height: usize, points: Seq<Point>) -> bool {
    forall|i: int| 0 <= i < points.len() ==> in_grid(width, height, #[trigger] points[i])
}

/// A fill can work on this mask with this stack.
pub open spec fn fill_ready(
    img: Seq<u8>,
    width: usize,
    height: usize,
    id: u8,
    stack: Seq<Point>,
) -> bool {
    &&& img.len() == width * height
    &&& !unprocessed(id)
    &&& all_in_grid(width, height, stack)
}

/// The mask and the outer queue as the fill with label `id` leaves them
/// when it starts from the given stack. The point on top of the stack is
/// taken off. If it is unlabelled foreground it gets the label and its
/// unprocessed neighbours go on the stack; if it is unvisited background it
/// goes to the back of the queue; anything else is passed over.
pub open spec fn filled(
    img: Seq<u8>,
    width: usize,
    height: usize,
    id: u8,
    stack: Seq<Point>,
    queue: Seq<Point>,
) -> (Seq<u8>, Seq<Point>)
    decreases remaining_set(img, width, height).len(), stack.len(),
    when fill_ready(img, width, height, id, stack)
    via filled_decreases
{
    if stack.len() == 0 {
        (img, queue)
    } else {
        let p = stack.last();
        let rest = stack.drop_last();
        let v = pixel(img, width, p);
        if v == UNCOLORED_REGION {
            let next = img.update(pixel_index(width, p), id);
            filled(next, width, height, id, rest + open_neighbors(next, width, height, p), queue)
        } else if v == UNCOLORED_BACKGROUND {
            filled(img, width, height, id, rest, queue.push(p))
        } else {
            filled(img, width, height, id, rest, queue)
        }
    }
}

/// Giving a label to a foreground pixel leaves less foreground to absorb.
pub proof fn lemma_remaining_shrinks(img: Seq<u8>, width: usize, height: usize, id: u8, p: Point)
    requires
        img.len() == width * height,
        in_grid(width, height, p),
        pixel(img, width, p) == UNCOLORED_REGION,
        id != UNCOLORED_REGION,
    ensures
        remaining_set(img, width, height).finite(),
        remaining_set(img.update(pixel_index(width, p), id), width, height).len() < remaining_set(
            img,
            width,
            height,
        ).len(),
{
    let next = img.update(pixel_index(width, p), id);
    lemma_pixel_update(img, width, height, p, id);
    lemma_grid_subset(remaining_set(img, width, height), width, height);
    assert forall|q: Point|
        remaining_set(next, width, height).contains(q) <==> remaining_set(
            img,
            width,
            height,
        ).remove(p).contains(q) by {
        if in_grid(width, height, q) {
            assert(pixel(next, width, q) == if q == p {
                id
            } else {
                pixel(img, width, q)
            });
        }
    }
    assert(remaining_set(next, width, height) =~= remaining_set(img, width, height).remove(p));
}

/// Each step of a fill leaves less foreground or a shorter stack.
#[via_fn]
proof fn filled_decreases(
    img: Seq<u8>,
    width: usize,
    height: usize,
    id: u8,
    stack: Seq<Point>,
    queue: Seq<Point>,
) {
    if stack.len() > 0 {
        let p = stack.last();
        if pixel(img, width, p) == UNCOLORED_REGION {
            lemma_remaining_shrinks(img, width, height, id, p);
        }
    }
}

/// The stack that a fill goes on with after it has labelled the top.
pub proof fn lemma_next_stack_in_grid(
    img: Seq<u8>,
    width: usize,
    height: usize,
    stack: Seq<Point>,
)
    requires
        all_in_grid(width, height, stack),
        stack.len() > 0,
    ensures
        all_in_grid(width, height, stack.drop_last()),
        all_in_grid(
            width,
            height,
            stack.drop_last() + open_neighbors(img, width, height, stack.last()),
        ),
{
    let p = stack.last();
    let rest = stack.drop_last();
    let found = open_neighbors(img, width, height, p);
    let longer = rest + found;
    lemma_open_neighbors(img, width, height, p);
    assert forall|i: int| 0 <= i < rest.len() implies in_grid(width, height, #[trigger] rest[i]) by {
    }
    assert forall|i: int| 0 <= i < longer.len() implies in_grid(
        width,
        height,
        #[trigger] longer[i],
    ) by {
    }
}

/// A fill keeps the mask's size and changes nothing but unlabelled
/// foreground, which takes the fill's label; the top of the stack is among
/// it if it is unlabelled foreground.
pub proof fn lemma_filled_effect(
    img: Seq<u8>,
    width: usize,
    height: usize,
    id: u8,
    stack: Seq<Point>,
    queue: Seq<Point>,
)
    requires
        fill_ready(img, width, height, id, stack),
    ensures
        ({
            let out = filled(img, width, height, id, stack, queue).0;
            &&& out.len() == img.len()
            &&& forall|q: Point|
                in_grid(width, height, q) ==> #[trigger] pixel(out, width, q) == pixel(
                    img,
                    width,
                    q,
                ) || (pixel(img, width, q) == UNCOLORED_REGION && pixel(out, width, q) == id)
            &&& stack.len() > 0 && pixel(img, width, stack.last()) == UNCOLORED_REGION ==> pixel(
                out,
                width,
                stack.last(),
            ) == id
        }),
    decreases remaining_set(img, width, height).len(), stack.len(),
{
    if stack.len() > 0 {
        let p = stack.last();
        let rest = stack.drop_last();
        let v = pixel(img, width, p);
        if v == UNCOLORED_REGION {
            let next = img.update(pixel_index(width, p), id);
            let stack2 = rest + open_neighbors(next, width, height, p);
            lemma_remaining_shrinks(img, width, height, id, p);
            lemma_next_stack_in_grid(next, width, height, stack);
            lemma_pixel_update(img, width, height, p, id);
            lemma_pixel_index_bounds(width, height, p);
            lemma_filled_effect(next, width, height, id, stack2, queue);
            let out = filled(next, width, height, id, stack2, queue).0;
            assert forall|q: Point| in_grid(width, height, q) implies #[trigger] pixel(
                out,
                width,
                q,
            ) == pixel(img, width, q) || (pixel(img, width, q) == UNCOLORED_REGION && pixel(
                out,
                width,
                q,
            ) == id) by {
                assert(pixel(next, width, q) == if q == p {
                    id
                } else {
                    pixel(img, width, q)
                });
            }
        } else if v == UNCOLORED_BACKGROUND {
            lemma_next_stack_in_grid(img, width, height, stack);
            lemma_filled_effect(img, width, height, id, rest, queue.push(p));
        } else {
            lemma_next_stack_in_grid(img, width, height, stack);
            lemma_filled_effect(img, width, height, id, rest, queue);
        }
    }
}

/// The traversal can work on this mask with this queue.
pub open spec fn sweep_ready(
    img: Seq<u8>,
    width: usize,
    height: usize,
    id: u8,
    queue: Seq<Point>,
) -> bool {
    &&& img.len() == width * height
    &&& COLORED_BACKGROUND <= id <= MAX_LABEL
    &&& all_in_grid(width, height, queue)
}

/// The mask as the traversal leaves it when `id` is the last label given
/// and the queue is as stated. The point at the head of the queue is taken
/// off. If it is unlabelled foreground and a label is left, a fill gives
/// the next label to its region; if it is unvisited background it is
/// marked as visited and its unprocessed neighbours go to the back of the
/// queue; anything else is passed over.
pub open spec fn swept(
    img: Seq<u8>,
    width: usize,
    height: usize,
    id: u8,
    queue: Seq<Point>,
) -> Seq<u8>
    decreases pending_set(img, width, height).len(), queue.len(),
    when sweep_ready(img, width, height, id, queue)
    via swept_decreases
{
    if queue.len() == 0 {
        img
    } else {
        let p = queue[0];
        let rest = queue.drop_first();
        let v = pixel(img, width, p);
        if v == UNCOLORED_REGION {
            if id < MAX_LABEL {
                let label = (id + 1) as u8;
                let fill = filled(img, width, height, label, seq![p], rest);
                swept(fill.0, width, height, label, fill.1)
            } else {
                swept(img, width, height, id, rest)
            }
        } else if v == UNCOLORED_BACKGROUND {
            let next = img.update(pixel_index(width, p), COLORED_BACKGROUND);
            swept(next, width, height, id, rest + open_neighbors(next, width, height, p))
        } else {
            swept(img, width, height, id, rest)
        }
    }
}

/// Marking a background pixel as visited leaves less to handle.
pub proof fn lemma_pending_shrinks(img: Seq<u8>, width: usize, height: usize, p: Point)
    requires
        img.len() == width * height,
        in_grid(width, height, p),
        unprocessed(pixel(img, width, p)),
    ensures
        pending_set(img, width, height).finite(),
        pending_set(
            img.update(pixel_index(width, p), COLORED_BACKGROUND),
            width,
            height,
        ).len() < pending_set(img, width, height).len(),
{
    let next = img.update(pixel_index(width, p), COLORED_BACKGROUND);
    lemma_pixel_update(img, width, height, p, COLORED_BACKGROUND);
    lemma_grid_subset(pending_set(img, width, height), width, height);
    assert forall|q: Point|
        pending_set(next, width, height).contains(q) <==> pending_set(img, width, height).remove(
            p,
        ).contains(q) by {
        if in_grid(width, height, q) {
            assert(pixel(next, width, q) == if q == p {
                COLORED_BACKGROUND
            } else {
                pixel(img, width, q)
            });
        }
    }
    assert(pending_set(next, width, height) =~= pending_set(img, width, height).remove(p));
}

/// A fill from an unlabelled foreground pixel leaves less to handle.
pub proof fn lemma_fill_shrinks_pending(
    img: Seq<u8>,
    width: usize,
    height: usize,
    label: u8,
    p: Point,
    queue: Seq<Point>,
)
    requires
        img.len() == width * height,
        in_grid(width, height, p),
        pixel(img, width, p) == UNCOLORED_REGION,
        !unprocessed(label),
    ensures
        pending_set(img, width, height).finite(),
        pending_set(filled(img, width, height, label, seq![p], queue).0, width, height).len()
            < pending_set(img, width, height).len(),
{
    let stack = seq![p];
    lemma_filled_effect(img, width, height, label, stack, queue);
    let out = filled(img, width, height, label, stack, queue).0;
    lemma_grid_subset(pending_set(img, width, height), width, height);
    assert forall|q: Point| pending_set(out, width, height).contains(q) implies pending_set(
        img,
        width,
        height,
    ).remove(p).contains(q) by {
        assert(pixel(out, width, q) == pixel(img, width, q) || (pixel(img, width, q)
            == UNCOLORED_REGION && pixel(out, width, q) == label));
    }
    vstd::set_lib::lemma_len_subset(
        pending_set(out, width, height),
        pending_set(img, width, height).remove(p),
    );
}

/// Each step of the traversal leaves less to handle or a shorter queue.
#[via_fn]
proof fn swept_decreases(img: Seq<u8>, width: usize, height: usize, id: u8, queue: Seq<Point>) {
    if queue.len() > 0 {
        let p = queue[0];
        let v = pixel(img, width, p);
        if v == UNCOLORED_REGION {
            if id < MAX_LABEL {
                lemma_fill_shrinks_pending(
                    img,
                    width,
                    height,
                    (id + 1) as u8,
                    p,
                    queue.drop_first(),
                );
            }
        } else if v == UNCOLORED_BACKGROUND {
            lemma_pending_shrinks(img, width, height, p);
        }
    }
}

} // verus!
