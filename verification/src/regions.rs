//! What follows for a mask and its components from the relation that a
//! labelling pass establishes.

use vstd::prelude::*;
use crate::grid::{
    adjacent, bounds, connected, in_grid, lemma_connected_ends, lemma_connected_here,
    lemma_connected_induct, lemma_connected_step, lemma_connected_symmetric,
    lemma_equal_by_points, pixel, unprocessed, Point,
    COLORED_BACKGROUND, UNCOLORED_BACKGROUND, UNCOLORED_REGION,
};
use crate::img_connected_components::{
    foreground_swept, label_set, labelled, origin, pixel_labelled, reachable, Component,
    MAX_REGIONS,
};

verus! {

/// The mask holds nothing but unvisited background and unlabelled
/// foreground.
pub open spec fn binary(mask: Seq<u8>, width: usize, height: usize) -> bool {
    forall|p: Point| in_grid(width, height, p) ==> unprocessed(#[trigger] pixel(mask, width, p))
}

/// The mask holds neither unvisited background nor unlabelled foreground.
pub open spec fn fully_labelled(mask: Seq<u8>, width: usize, height: usize) -> bool {
    forall|p: Point| in_grid(width, height, p) ==> !unprocessed(#[trigger] pixel(mask, width, p))
}

/// The traversal can reach every foreground pixel of the mask.
pub open spec fn foreground_reachable(mask: Seq<u8>, width: usize, height: usize) -> bool {
    forall|p: Point|
        in_grid(width, height, p) && #[trigger] pixel(mask, width, p) == UNCOLORED_REGION
            ==> reachable(mask, width, height, p)
}

/// No pixel of the mask holds one of the first `n` labels.
pub open spec fn labels_unused(mask: Seq<u8>, width: usize, height: usize, n: nat) -> bool {
    forall|p: Point|
        in_grid(width, height, p) ==> !(COLORED_BACKGROUND < #[trigger] pixel(mask, width, p)
            <= COLORED_BACKGROUND + n)
}

/// The points are foreground that the traversal can reach, no two of them
/// in the same region.
pub open spec fn separate_regions(
    mask: Seq<u8>,
    width: usize,
    height: usize,
    points: Seq<Point>,
) -> bool {
    &&& forall|i: int|
        0 <= i < points.len() ==> in_grid(width, height, #[trigger] points[i]) && pixel(
            mask,
            width,
            points[i],
        ) == UNCOLORED_REGION && reachable(mask, width, height, points[i])
    &&& forall|i: int, j: int|
        0 <= i < points.len() && 0 <= j < points.len() && i != j ==> !connected(
            mask,
            width,
            height,
            #[trigger] points[i],
            #[trigger] points[j],
            true,
        )
}

/// The traversal can reach no more regions than there are labels.
pub open spec fn within_budget(mask: Seq<u8>, width: usize, height: usize) -> bool {
    forall|points: Seq<Point>| #[trigger]
        separate_regions(mask, width, height, points) ==> points.len() <= MAX_REGIONS
}

/// The pixels that carry `id`.
pub open spec fn pixels_with(mask: Seq<u8>, width: usize, height: usize, id: u8) -> Set<Point> {
    Set::new(|p: Point| in_grid(width, height, p) && pixel(mask, width, p) == id)
}

/// In a mask of unprocessed pixels the traversal reaches every pixel.
pub proof fn lemma_binary_all_reachable(mask: Seq<u8>, width: usize, height: usize, p: Point)
    requires
        binary(mask, width, height),
        in_grid(width, height, p),
    ensures
        reachable(mask, width, height, p),
    decreases p.0 + p.1,
{
    if p.0 > 0 {
        let before = ((p.0 - 1) as usize, p.1);
        lemma_binary_all_reachable(mask, width, height, before);
        lemma_connected_step(mask, width, height, origin(), before, p, false);
    } else if p.1 > 0 {
        let before = (p.0, (p.1 - 1) as usize);
        lemma_binary_all_reachable(mask, width, height, before);
        lemma_connected_step(mask, width, height, origin(), before, p, false);
    } else {
        lemma_connected_here(mask, width, height, p, false);
    }
}

/// A pass that did not run out of labels has handled every pixel that the
/// traversal can reach.
pub proof fn lemma_reached_is_handled(
    input: Seq<u8>,
    output: Seq<u8>,
    width: usize,
    height: usize,
    components: Seq<Component<usize>>,
    p: Point,
)
    requires
        labelled(input, output, width, height, components),
        foreground_swept(input, output, width, height),
        reachable(input, width, height, p),
    ensures
        !unprocessed(pixel(output, width, p)),
{
    let n = components.len();
    let handled = |q: Point|
        in_grid(width, height, q) && unprocessed(pixel(input, width, q)) && !unprocessed(
            pixel(output, width, q),
        );
    lemma_connected_ends(input, width, height, origin(), p, false);
    assert forall|a: Point, r: Point|
        in_grid(width, height, a) && in_grid(width, height, r) && handled(a) && #[trigger] adjacent(
            a,
            r,
        ) && crate::grid::passable(pixel(input, width, r), false) implies handled(r) by {
        assert(pixel_labelled(input, output, width, height, n, r));
    }
    lemma_connected_induct(input, width, height, origin(), p, false, handled);
}

/// One labelled pixel of each component.
spec fn witness(
    input: Seq<u8>,
    output: Seq<u8>,
    width: usize,
    height: usize,
    k: int,
) -> Point {
    let assigned = label_set(input, output, width, height, (k + 2) as u8);
    choose|q: Point| assigned.contains(q)
}

/// Every component has such a pixel, and the traversal can reach it.
proof fn lemma_witness(
    input: Seq<u8>,
    output: Seq<u8>,
    width: usize,
    height: usize,
    components: Seq<Component<usize>>,
    k: int,
)
    requires
        labelled(input, output, width, height, components),
        0 <= k < components.len(),
    ensures
        label_set(input, output, width, height, (k + 2) as u8).contains(
            witness(input, output, width, height, k),
        ),
        reachable(input, width, height, witness(input, output, width, height, k)),
{
    let c = components[k];
    let s = label_set(input, output, width, height, c.id);
    let a = choose|a: Point| #[trigger] s.contains(a) && a.0 == c.left;
    let q = witness(input, output, width, height, k);
    assert(pixel_labelled(input, output, width, height, components.len(), q));
}

/// Where the traversal can reach no more regions than there are labels, the
/// pass does not run out of them.
pub proof fn lemma_budget_suffices(
    input: Seq<u8>,
    output: Seq<u8>,
    width: usize,
    height: usize,
    components: Seq<Component<usize>>,
)
    requires
        labelled(input, output, width, height, components),
        within_budget(input, width, height),
    ensures
        foreground_swept(input, output, width, height),
{
    if !foreground_swept(input, output, width, height) {
        let n = components.len() as int;
        let left_over = choose|p: Point|
            in_grid(width, height, p) && pixel(input, width, p) == UNCOLORED_REGION
                && #[trigger] pixel(output, width, p) == UNCOLORED_REGION && reachable(
                input,
                width,
                height,
                p,
            );
        let labelled_ones = Seq::new(n as nat, |k: int| witness(input, output, width, height, k));
        let points = labelled_ones.push(left_over);
        assert forall|i: int| 0 <= i < points.len() implies in_grid(
            width,
            height,
            #[trigger] points[i],
        ) && pixel(input, width, points[i]) == UNCOLORED_REGION && reachable(
            input,
            width,
            height,
            points[i],
        ) by {
            if i < n {
                lemma_witness(input, output, width, height, components, i);
            }
        }
        assert forall|i: int, j: int|
            0 <= i < points.len() && 0 <= j < points.len() && i != j implies !connected(
            input,
            width,
            height,
            #[trigger] points[i],
            #[trigger] points[j],
            true,
        ) by {
            if i < n {
                lemma_witness(input, output, width, height, components, i);
            }
            if j < n {
                lemma_witness(input, output, width, height, components, j);
            }
            let a = points[i];
            let b = points[j];
            if connected(input, width, height, a, b, true) {
                if i >= n {
                    lemma_connected_symmetric(input, width, height, a, b, true);
                }
            }
        }
        assert(separate_regions(input, width, height, points));
    }
}

/// What a pass makes of a mask whose foreground the traversal can reach,
/// which holds none of the labels that the pass hands out, and which has
/// no more regions than there are labels:
/// every foreground pixel ends with a label from `2` on; two foreground
/// pixels get the same label exactly if they lie in one 4-connected region
/// of the input, and every label up to the last is given to some pixel, so
/// that there are as many labels as regions; each component's area is the
/// number of pixels that carry its id; and its four bounds are the extreme
/// columns and rows among those pixels, so that its box holds them all and
/// is no larger than they need.
pub proof fn lemma_labels_exact(
    input: Seq<u8>,
    output: Seq<u8>,
    width: usize,
    height: usize,
    components: Seq<Component<usize>>,
)
    requires
        labelled(input, output, width, height, components),
        foreground_reachable(input, width, height),
        labels_unused(input, width, height, components.len()),
        within_budget(input, width, height),
    ensures
        forall|p: Point|
            in_grid(width, height, p) && pixel(input, width, p) == UNCOLORED_REGION ==> 2
                <= #[trigger] pixel(output, width, p) <= components.len() + 1,
        forall|p: Point, r: Point|
            #![trigger pixel(output, width, p), pixel(output, width, r)]
            in_grid(width, height, p) && in_grid(width, height, r) && pixel(input, width, p)
                == UNCOLORED_REGION && pixel(input, width, r) == UNCOLORED_REGION ==> (connected(
                input,
                width,
                height,
                p,
                r,
                true,
            ) <==> pixel(output, width, r) == pixel(output, width, p)),
        forall|k: int|
            0 <= k < components.len() ==> {
                let c = #[trigger] components[k];
                let carrying = pixels_with(output, width, height, c.id);
                &&& c.id == k + 2
                &&& carrying.finite()
                &&& carrying.len() > 0
                &&& c.area == carrying.len()
                &&& bounds(carrying, c.left, c.top, c.right, c.bottom)
            },
{
    let n = components.len();
    lemma_budget_suffices(input, output, width, height, components);
    assert forall|p: Point|
        in_grid(width, height, p) && pixel(input, width, p) == UNCOLORED_REGION implies 2
        <= #[trigger] pixel(output, width, p) <= components.len() + 1 by {
        lemma_reached_is_handled(input, output, width, height, components, p);
        assert(pixel_labelled(input, output, width, height, n, p));
    }
    assert forall|k: int| 0 <= k < components.len() implies {
        let c = #[trigger] components[k];
        let carrying = pixels_with(output, width, height, c.id);
        &&& c.id == k + 2
        &&& carrying.finite()
        &&& carrying.len() > 0
        &&& c.area == carrying.len()
        &&& bounds(carrying, c.left, c.top, c.right, c.bottom)
    } by {
        let c = components[k];
        let assigned = label_set(input, output, width, height, c.id);
        let carrying = pixels_with(output, width, height, c.id);
        assert forall|q: Point| carrying.contains(q) implies assigned.contains(q) by {
            assert(pixel_labelled(input, output, width, height, n, q));
        }
        assert(carrying =~= assigned);
    }
}

/// A set of points has one bounding box only.
pub proof fn lemma_bounds_unique(
    s: Set<Point>,
    a: Component<usize>,
    b: Component<usize>,
)
    requires
        bounds(s, a.left, a.top, a.right, a.bottom),
        bounds(s, b.left, b.top, b.right, b.bottom),
    ensures
        a.left == b.left,
        a.top == b.top,
        a.right == b.right,
        a.bottom == b.bottom,
{
}

/// The mask before and after a pass leaves no choice of components: two
/// lists that stand in the pass's relation to the same masks are equal.
pub proof fn lemma_components_determined(
    input: Seq<u8>,
    output: Seq<u8>,
    width: usize,
    height: usize,
    a: Seq<Component<usize>>,
    b: Seq<Component<usize>>,
)
    requires
        labelled(input, output, width, height, a),
        labelled(input, output, width, height, b),
    ensures
        a == b,
{
    if a.len() < b.len() {
        lemma_witness(input, output, width, height, b, a.len() as int);
        let q = witness(input, output, width, height, a.len() as int);
        assert(pixel_labelled(input, output, width, height, a.len(), q));
    }
    if b.len() < a.len() {
        lemma_witness(input, output, width, height, a, b.len() as int);
        let q = witness(input, output, width, height, b.len() as int);
        assert(pixel_labelled(input, output, width, height, b.len(), q));
    }
    assert forall|k: int| 0 <= k < a.len() implies a[k] == b[k] by {
        lemma_bounds_unique(label_set(input, output, width, height, a[k].id), a[k], b[k]);
    }
}

/// A second pass over a mask that a pass has labelled changes nothing and
/// finds no component: the first pass has handled the origin, so the second
/// has nowhere to start.
pub proof fn lemma_second_pass_idle(
    input: Seq<u8>,
    first: Seq<u8>,
    second: Seq<u8>,
    width: usize,
    height: usize,
    found: Seq<Component<usize>>,
    found_again: Seq<Component<usize>>,
)
    requires
        labelled(input, first, width, height, found),
        labelled(first, second, width, height, found_again),
    ensures
        second == first,
        found_again.len() == 0,
{
    assert forall|p: Point| in_grid(width, height, p) implies #[trigger] pixel(second, width, p)
        == pixel(first, width, p) by {
        assert(pixel_labelled(first, second, width, height, found_again.len(), p));
        if pixel(second, width, p) != pixel(first, width, p) {
            lemma_connected_ends(first, width, height, origin(), p, false);
        }
    }
    lemma_equal_by_points(second, first, width, height);
    if found_again.len() > 0 {
        let c = found_again[0];
        let s = label_set(first, second, width, height, c.id);
        let a = choose|a: Point| #[trigger] s.contains(a) && a.0 == c.left;
        assert(s.contains(a));
    }
}

/// A pass over a mask of unprocessed pixels with no more regions than
/// there are labels leaves no pixel unprocessed: background is marked as
/// visited and foreground is labelled.
pub proof fn lemma_binary_fully_labelled(
    input: Seq<u8>,
    output: Seq<u8>,
    width: usize,
    height: usize,
    components: Seq<Component<usize>>,
)
    requires
        labelled(input, output, width, height, components),
        binary(input, width, height),
        within_budget(input, width, height),
    ensures
        foreground_reachable(input, width, height),
        labels_unused(input, width, height, components.len()),
        fully_labelled(output, width, height),
        forall|p: Point|
            in_grid(width, height, p) && pixel(input, width, p) == UNCOLORED_BACKGROUND
                ==> #[trigger] pixel(output, width, p) == COLORED_BACKGROUND,
{
    let n = components.len();
    lemma_budget_suffices(input, output, width, height, components);
    assert forall|p: Point| in_grid(width, height, p) implies !unprocessed(
        #[trigger] pixel(output, width, p),
    ) by {
        lemma_binary_all_reachable(input, width, height, p);
        lemma_reached_is_handled(input, output, width, height, components, p);
    }
    assert forall|p: Point|
        in_grid(width, height, p) && #[trigger] pixel(input, width, p)
            == UNCOLORED_REGION implies reachable(input, width, height, p) by {
        lemma_binary_all_reachable(input, width, height, p);
    }
    assert forall|p: Point| in_grid(width, height, p) implies !(COLORED_BACKGROUND
        < #[trigger] pixel(input, width, p) <= COLORED_BACKGROUND + n) by {
    }
    assert forall|p: Point|
        in_grid(width, height, p) && pixel(input, width, p)
            == UNCOLORED_BACKGROUND implies #[trigger] pixel(output, width, p)
        == COLORED_BACKGROUND by {
        assert(pixel_labelled(input, output, width, height, n, p));
    }
}

} // verus!
