//! Connected-component labelling of a single-channel mask.

use std::collections::VecDeque;
use std::ops::Sub;
use vstd::prelude::*;
use vstd::std_specs::ops::SubSpec;
use crate::flood_fill::{
    absorbed_set, fill_inv, flooded, handed_over, lemma_bounds_grow, lemma_fill_absorb,
    lemma_fill_done, lemma_fill_hand_back, lemma_fill_skip, lemma_fill_start,
};
use crate::grid::{
    adjacent, bounds, connected, in_grid, lemma_grid_subset, lemma_pixel_index_bounds,
    lemma_pixel_update, pixel, pixel_index, region_of, unprocessed, Point, COLORED_BACKGROUND,
    UNCOLORED_BACKGROUND, UNCOLORED_REGION,
};
use crate::img::Rectangle;
use crate::regions::lemma_components_determined;
use crate::labelling::{
    all_described, label_inv, lemma_described_push, lemma_drop_region, lemma_label_done,
    lemma_label_region, lemma_label_start, lemma_pass_over, lemma_queue_in_grid,
    lemma_sweep_background,
};
use crate::traversal::{
    all_in_grid, filled, lemma_next_stack_in_grid, pending_set, remaining_set, swept,
};

verus! {

/// One labelled region: the extreme columns and rows that its pixels reach
/// (all four inclusive), how many pixels it has, and its label.
#[derive(Clone)]
pub struct Component<T> {
    pub left: T,
    pub top: T,
    pub right: T,
    pub bottom: T,
    pub area: T,
    pub id: u8,
}

impl Component<usize> {
    /// A component without pixels: its bounds start at the far ends so that
    /// the first pixel folded in replaces all four.
    fn new(id: u8) -> (c: Self)
        ensures
            c.left == usize::MAX,
            c.top == usize::MAX,
            c.right == usize::MIN,
            c.bottom == usize::MIN,
            c.area == 0,
            c.id == id,
    {
        Component {
            left: usize::MAX,
            top: usize::MAX,
            right: usize::MIN,
            bottom: usize::MIN,
            area: 0,
            id,
        }
    }
}

impl<T: Copy + Sub<Output = T>> Component<T> {
    /// The component's bounding box as a rectangle: its top-left corner,
    /// and as extents the distances between the extreme columns and rows.
    pub fn bounding_box(&self) -> (r: Rectangle<T>)
        requires
            self.right.sub_req(self.left),
            self.bottom.sub_req(self.top),
        ensures
            r.left == self.left,
            r.top == self.top,
            T::obeys_sub_spec() ==> r.width == self.right.sub_spec(self.left) && r.height
                == self.bottom.sub_spec(self.top),
    {
        Rectangle {
            left: self.left,
            top: self.top,
            width: self.right - self.left,
            height: self.bottom - self.top,
        }
    }
}

/// The largest label that a region can get: the next byte is the mark of
/// unprocessed foreground.
pub const MAX_LABEL: u8 = 254;

/// How many regions one pass can label.
pub const MAX_REGIONS: usize = 253;

/// The corner where the outer traversal starts.
pub open spec fn origin() -> Point {
    (0usize, 0usize)
}

/// A walk from the origin through unprocessed pixels of `mask` reaches `p`.
pub open spec fn reachable(mask: Seq<u8>, width: usize, height: usize, p: Point) -> bool {
    connected(mask, width, height, origin(), p, false)
}

/// The pixels that were foreground in `input` and carry `id` in `output`.
pub open spec fn label_set(
    input: Seq<u8>,
    output: Seq<u8>,
    width: usize,
    height: usize,
    id: u8,
) -> Set<Point> {
    Set::new(
        |p: Point|
            in_grid(width, height, p) && pixel(input, width, p) == UNCOLORED_REGION && pixel(
                output,
                width,
                p,
            ) == id,
    )
}

/// `c` is the record of the region discovered as number `k`: it carries
/// the label `k + 2`, counts the pixels that got this label, and its four
/// bounds are the extreme columns and rows among them.
pub open spec fn describes(
    c: Component<usize>,
    input: Seq<u8>,
    output: Seq<u8>,
    width: usize,
    height: usize,
    k: int,
) -> bool {
    &&& c.id == k + 2
    &&& label_set(input, output, width, height, c.id).finite()
    &&& c.area == label_set(input, output, width, height, c.id).len()
    &&& bounds(label_set(input, output, width, height, c.id), c.left, c.top, c.right, c.bottom)
}

/// What a pass over `input` may have made of the pixel at `p` when it has
/// labelled `n` regions: unvisited background stays or becomes visited,
/// foreground stays or gets one of the labels `2..=n + 1`, anything else
/// is kept; and only pixels that the traversal can reach are changed.
pub open spec fn pixel_labelled(
    input: Seq<u8>,
    output: Seq<u8>,
    width: usize,
    height: usize,
    n: nat,
    p: Point,
) -> bool {
    let before = pixel(input, width, p);
    let after = pixel(output, width, p);
    &&& before == UNCOLORED_BACKGROUND ==> after == UNCOLORED_BACKGROUND || after
        == COLORED_BACKGROUND
    &&& before == UNCOLORED_REGION ==> after == UNCOLORED_REGION || (COLORED_BACKGROUND < after
        <= COLORED_BACKGROUND + n)
    &&& !unprocessed(before) ==> after == before
    &&& after != before ==> reachable(input, width, height, p)
}

/// The traversal left no unvisited background behind next to a pixel that
/// it changed.
pub open spec fn background_swept(input: Seq<u8>, output: Seq<u8>, width: usize, height: usize) -> bool {
    forall|p: Point, r: Point|
        in_grid(width, height, p) && in_grid(width, height, r) && #[trigger] adjacent(p, r)
            && pixel(output, width, p) != pixel(input, width, p) && pixel(input, width, r)
            == UNCOLORED_BACKGROUND ==> pixel(output, width, r) == COLORED_BACKGROUND
}

/// The traversal left no foreground unlabelled next to a pixel that it
/// changed.
pub open spec fn foreground_swept(input: Seq<u8>, output: Seq<u8>, width: usize, height: usize) -> bool {
    forall|p: Point, r: Point|
        in_grid(width, height, p) && in_grid(width, height, r) && #[trigger] adjacent(p, r)
            && pixel(output, width, p) != pixel(input, width, p) && pixel(input, width, r)
            == UNCOLORED_REGION ==> pixel(output, width, r) != UNCOLORED_REGION
}

/// Every label is spent and a foreground pixel that the traversal reached
/// is still without one.
pub open spec fn out_of_labels(
    input: Seq<u8>,
    output: Seq<u8>,
    width: usize,
    height: usize,
    n: nat,
) -> bool {
    &&& n == MAX_REGIONS
    &&& exists|p: Point|
        in_grid(width, height, p) && pixel(input, width, p) == UNCOLORED_REGION && #[trigger] pixel(
            output,
            width,
            p,
        ) == UNCOLORED_REGION && reachable(input, width, height, p)
}

/// Two foreground pixels, one of them labelled, carry the same label
/// exactly if they lie in the same 4-connected region of the input.
pub open spec fn one_label_per_region(
    input: Seq<u8>,
    output: Seq<u8>,
    width: usize,
    height: usize,
) -> bool {
    forall|p: Point, r: Point|
        #![trigger pixel(output, width, p), pixel(output, width, r)]
        in_grid(width, height, p) && in_grid(width, height, r) && pixel(input, width, p)
            == UNCOLORED_REGION && pixel(input, width, r) == UNCOLORED_REGION && pixel(
            output,
            width,
            p,
        ) != UNCOLORED_REGION ==> (connected(input, width, height, p, r, true) <==> pixel(
            output,
            width,
            r,
        ) == pixel(output, width, p))
}

/// The relation between a mask before and after a labelling pass and the
/// components that the pass returns.
pub open spec fn labelled(
    input: Seq<u8>,
    output: Seq<u8>,
    width: usize,
    height: usize,
    components: Seq<Component<usize>>,
) -> bool {
    &&& input.len() == width * height
    &&& output.len() == width * height
    &&& components.len() <= MAX_REGIONS
    &&& forall|p: Point|
        in_grid(width, height, p) ==> #[trigger] pixel_labelled(
            input,
            output,
            width,
            height,
            components.len(),
            p,
        )
    &&& !unprocessed(pixel(output, width, origin()))
    &&& background_swept(input, output, width, height)
    &&& foreground_swept(input, output, width, height) || out_of_labels(
        input,
        output,
        width,
        height,
        components.len(),
    )
    &&& one_label_per_region(input, output, width, height)
    &&& forall|k: int|
        0 <= k < components.len() ==> describes(#[trigger] components[k], input, output, width, height, k)
}

/// The mask that a pass makes of `input`.
pub open spec fn labels_of(input: Seq<u8>, width: usize, height: usize) -> Seq<u8> {
    swept(input, width, height, COLORED_BACKGROUND, seq![origin()])
}

/// The components that a pass over `input` returns: the one list that
/// stands in the pass's relation to the mask before and after.
pub open spec fn components_of(input: Seq<u8>, width: usize, height: usize) -> Seq<
    Component<usize>,
> {
    choose|components: Seq<Component<usize>>|
        labelled(input, labels_of(input, width, height), width, height, components)
}

/// The unprocessed neighbours of `p`, in the order left, right, up, down.
pub open spec fn open_neighbors(img: Seq<u8>, width: usize, height: usize, p: Point) -> Seq<Point> {
    let left = ((p.0 - 1) as usize, p.1);
    let right = ((p.0 + 1) as usize, p.1);
    let up = (p.0, (p.1 - 1) as usize);
    let down = (p.0, (p.1 + 1) as usize);
    (if p.0 > 0 && unprocessed(pixel(img, width, left)) {
        seq![left]
    } else {
        Seq::empty()
    }) + (if p.0 + 1 < width && unprocessed(pixel(img, width, right)) {
        seq![right]
    } else {
        Seq::empty()
    }) + (if p.1 > 0 && unprocessed(pixel(img, width, up)) {
        seq![up]
    } else {
        Seq::empty()
    }) + (if p.1 + 1 < height && unprocessed(pixel(img, width, down)) {
        seq![down]
    } else {
        Seq::empty()
    })
}

/// What `open_neighbors` holds: exactly the grid points next to `p` whose
/// value is still unprocessed.
pub proof fn lemma_open_neighbors(img: Seq<u8>, width: usize, height: usize, p: Point)
    requires
        in_grid(width, height, p),
    ensures
        forall|r: Point|
            open_neighbors(img, width, height, p).contains(r) <==> (in_grid(width, height, r)
                && #[trigger] adjacent(p, r) && unprocessed(pixel(img, width, r))),
{
    let left = ((p.0 - 1) as usize, p.1);
    let right = ((p.0 + 1) as usize, p.1);
    let up = (p.0, (p.1 - 1) as usize);
    let down = (p.0, (p.1 + 1) as usize);
    let a = if p.0 > 0 && unprocessed(pixel(img, width, left)) {
        seq![left]
    } else {
        Seq::empty()
    };
    let b = if p.0 + 1 < width && unprocessed(pixel(img, width, right)) {
        seq![right]
    } else {
        Seq::empty()
    };
    let c = if p.1 > 0 && unprocessed(pixel(img, width, up)) {
        seq![up]
    } else {
        Seq::empty()
    };
    let d = if p.1 + 1 < height && unprocessed(pixel(img, width, down)) {
        seq![down]
    } else {
        Seq::empty()
    };
    let all = a + b + c + d;
    assert forall|r: Point|
        all.contains(r) <==> (in_grid(width, height, r) && #[trigger] adjacent(p, r) && unprocessed(
            pixel(img, width, r),
        )) by {
        if all.contains(r) {
            assert(r == left && a.len() == 1 || r == right && b.len() == 1 || r == up && c.len()
                == 1 || r == down && d.len() == 1);
        }
        if in_grid(width, height, r) && adjacent(p, r) && unprocessed(pixel(img, width, r)) {
            if r == left {
                assert(all[0] == r);
            } else if r == right {
                assert(all[a.len() as int] == r);
            } else if r == up {
                assert(all[(a.len() + b.len()) as int] == r);
            } else {
                assert(all[(a.len() + b.len() + c.len()) as int] == r);
            }
        }
    }
}

/// Collects the neighbours of `(x, y)` that no pass has processed yet.
fn neighbors(img: &[u8], width: usize, height: usize, x: usize, y: usize) -> (r: Vec<(usize, usize)>)
    requires
        img@.len() == width * height,
        in_grid(width, height, (x, y)),
    ensures
        r@ == open_neighbors(img@, width, height, (x, y)),
{
    proof {
        lemma_pixel_index_bounds(width, height, (x, y));
        assert(img.len() == img@.len());
    }
    let idx = y * width + x;
    let mut r: Vec<(usize, usize)> = Vec::new();
    if x > 0 {
        let v1 = img[idx - 1];
        if v1 == UNCOLORED_REGION || v1 == UNCOLORED_BACKGROUND {
            r.push((x - 1, y));
        }
    }
    if x < width - 1 {
        let v1 = img[idx + 1];
        if v1 == UNCOLORED_REGION || v1 == UNCOLORED_BACKGROUND {
            r.push((x + 1, y));
        }
    }
    if y > 0 {
        proof {
            lemma_pixel_index_bounds(width, height, (x, (y - 1) as usize));
            assert((y - 1) * width == y * width - width) by (nonlinear_arith);
        }
        let v1 = img[idx - width];
        if v1 == UNCOLORED_REGION || v1 == UNCOLORED_BACKGROUND {
            r.push((x, y - 1));
        }
    }
    if y < height - 1 {
        proof {
            lemma_pixel_index_bounds(width, height, (x, (y + 1) as usize));
            assert((y + 1) * width == y * width + width) by (nonlinear_arith);
        }
        let v1 = img[idx + width];
        if v1 == UNCOLORED_REGION || v1 == UNCOLORED_BACKGROUND {
            r.push((x, y + 1));
        }
    }
    r
}

/// Absorbs the foreground region around `(x, y)`: every pixel of it takes
/// the label `id`, and the returned component records the region's extent
/// and size. Unvisited background that the fill touches is appended to `q`
/// for the outer traversal.
fn dfs_cc(
    img: &mut [u8],
    q: &mut VecDeque<(usize, usize)>,
    width: usize,
    height: usize,
    id: u8,
    x: usize,
    y: usize,
) -> (component: Component<usize>)
    requires
        old(img)@.len() == width * height,
        in_grid(width, height, (x, y)),
        pixel(old(img)@, width, (x, y)) == UNCOLORED_REGION,
        COLORED_BACKGROUND < id < UNCOLORED_REGION,
    ensures
        final(img)@.len() == old(img)@.len(),
        flooded(old(img)@, final(img)@, width, height, (x, y), id),
        component.id == id,
        region_of(old(img)@, width, height, (x, y)).finite(),
        component.area == region_of(old(img)@, width, height, (x, y)).len(),
        bounds(
            region_of(old(img)@, width, height, (x, y)),
            component.left,
            component.top,
            component.right,
            component.bottom,
        ),
        handed_over(old(img)@, width, height, (x, y), old(q)@, final(q)@),
        (final(img)@, final(q)@) == filled(old(img)@, width, height, id, seq![(x, y)], old(q)@),
{
    let ghost entry = img@;
    let ghost before = q@;
    let ghost seed = (x, y);
    let ghost mut pushed = Seq::<Point>::empty();
    let mut stack: Vec<(usize, usize)> = Vec::new();
    let mut component: Component<usize> = Component::new(id);

    stack.push((x, y));
    proof {
        lemma_fill_start(entry, width, height, id, seed);
    }

    while stack.len() > 0
        invariant
            fill_inv(entry, img@, width, height, id, seed, stack@, pushed),
            all_in_grid(width, height, stack@),
            filled(img@, width, height, id, stack@, q@) == filled(
                entry,
                width,
                height,
                id,
                seq![seed],
                before,
            ),
            q@ == before + pushed,
            component.id == id,
            component.area == absorbed_set(entry, img@, width, height, id).len(),
            component.area > 0 ==> bounds(
                absorbed_set(entry, img@, width, height, id),
                component.left,
                component.top,
                component.right,
                component.bottom,
            ),
            component.area == 0 ==> component.left == usize::MAX && component.top == usize::MAX
                && component.right == 0 && component.bottom == 0,
        decreases remaining_set(img@, width, height).len(), stack@.len(),
    {
        let ghost cur = img@;
        let ghost stacked = stack@;
        let ghost queued = q@;
        let (x, y) = stack.pop().unwrap();
        proof {
            lemma_next_stack_in_grid(
                cur.update(pixel_index(width, (x, y)), id),
                width,
                height,
                stacked,
            );
            lemma_grid_subset(remaining_set(cur, width, height), width, height);
            lemma_grid_subset(absorbed_set(entry, cur, width, height, id), width, height);
            if pixel(cur, width, (x, y)) == UNCOLORED_REGION {
                lemma_fill_absorb(entry, cur, width, height, id, seed, stacked, pushed);
            } else if pixel(cur, width, (x, y)) == UNCOLORED_BACKGROUND {
                lemma_fill_hand_back(entry, cur, width, height, id, seed, stacked, pushed);
            } else {
                lemma_fill_skip(entry, cur, width, height, id, seed, stacked, pushed);
            }
            lemma_pixel_index_bounds(width, height, (x, y));
            assert(img.len() == img@.len());
        }
        let idx = y * width + x;
        let v = img[idx];
        if v == UNCOLORED_REGION {
            img[idx] = id;
            proof {
                lemma_grid_subset(absorbed_set(entry, img@, width, height, id), width, height);
                lemma_bounds_grow(
                    absorbed_set(entry, cur, width, height, id),
                    component.left,
                    component.top,
                    component.right,
                    component.bottom,
                    (x, y),
                );
            }
            component.area += 1;
            if x < component.left {
                component.left = x;
            }
            if y < component.top {
                component.top = y;
            }
            if x > component.right {
                component.right = x;
            }
            if y > component.bottom {
                component.bottom = y;
            }
            let mut found = neighbors(img, width, height, x, y);
            stack.append(&mut found);
            proof {
                assert(filled(cur, width, height, id, stacked, queued) == filled(
                    img@,
                    width,
                    height,
                    id,
                    stack@,
                    q@,
                ));
            }
        } else if v == UNCOLORED_BACKGROUND {
            q.push_back((x, y));
            proof {
                pushed = pushed.push((x, y));
                assert(filled(cur, width, height, id, stacked, queued) == filled(
                    img@,
                    width,
                    height,
                    id,
                    stack@,
                    q@,
                ));
            }
        } else {
            // Whatever else comes off the stack carries this very label: the
            // stack only ever held pixels that were unprocessed when the fill
            // began. A label of another region cannot turn up here.
            assert(v == id);
            proof {
                assert(filled(cur, width, height, id, stacked, queued) == filled(
                    img@,
                    width,
                    height,
                    id,
                    stack@,
                    q@,
                ));
            }
        }
    }
    proof {
        assert(stack@ =~= Seq::<Point>::empty());
        lemma_fill_done(entry, img@, width, height, id, seed, before, pushed);
    }
    component
}

/// Appends `items` to the back of `q`, first item first.
fn enqueue(q: &mut VecDeque<(usize, usize)>, items: &Vec<(usize, usize)>)
    ensures
        final(q)@ == old(q)@ + items@,
{
    let mut i: usize = 0;
    while i < items.len()
        invariant
            i <= items@.len(),
            q@ == old(q)@ + items@.subrange(0, i as int),
        decreases items@.len() - i,
    {
        q.push_back(items[i]);
        i += 1;
    }
}

/// Labels the mask in place and returns one component per labelled
/// region, in the order of discovery.
///
/// The traversal starts at the origin and spreads over unvisited
/// background (`0`) and unlabelled foreground (`255`). Background that it
/// reaches becomes `1`. Each foreground region that it reaches gets the
/// next label, from `2` on, as long as labels are left; there are
/// `MAX_REGIONS` of them, and a region found after the last one is spent
/// stays as it is. Every other value in the mask is taken for a label that
/// an earlier pass assigned: it is kept, and the traversal does not cross
/// it.
pub fn connected_components(img: &mut [u8], width: usize, height: usize) -> (components: Vec<
    Component<usize>,
>)
    requires
        width > 0,
        height > 0,
        old(img)@.len() == width * height,
    ensures
        final(img)@ == labels_of(old(img)@, width, height),
        components@ == components_of(old(img)@, width, height),
        labelled(old(img)@, final(img)@, width, height, components@),
{
    let ghost input = img@;
    let ghost mut seeds = Seq::<Point>::empty();
    let ghost mut dropped = false;
    let mut id: u8 = COLORED_BACKGROUND;
    let mut q: VecDeque<(usize, usize)> = VecDeque::new();
    let mut components: Vec<Component<usize>> = Vec::new();

    q.push_back((0, 0));
    proof {
        lemma_label_start(input, width, height);
    }

    while q.len() > 0
        invariant
            label_inv(input, img@, width, height, components@.len(), q@, seeds, dropped),
            all_described(components@, input, img@, width, height),
            id == components@.len() + 1,
            swept(img@, width, height, id, q@) == swept(
                input,
                width,
                height,
                COLORED_BACKGROUND,
                seq![origin()],
            ),
        decreases pending_set(img@, width, height).len(), q@.len(),
    {
        let ghost cur = img@;
        let ghost queue = q@;
        let ghost found_so_far = components@;
        let ghost last_label = id;
        let (x, y) = q.pop_front().unwrap();
        proof {
            lemma_queue_in_grid(input, width, height, queue);
            lemma_grid_subset(pending_set(cur, width, height), width, height);
            lemma_pixel_index_bounds(width, height, (x, y));
            assert(img.len() == img@.len());
        }
        let idx = y * width + x;
        let v = img[idx];
        if v == UNCOLORED_REGION {
            if id < MAX_LABEL {
                id += 1;
                let component = dfs_cc(img, &mut q, width, height, id, x, y);
                proof {
                    lemma_label_region(
                        input,
                        cur,
                        img@,
                        width,
                        height,
                        found_so_far.len(),
                        queue,
                        q@,
                        seeds,
                        dropped,
                        found_so_far,
                        id,
                    );
                    lemma_described_push(found_so_far, component, input, img@, width, height);
                    lemma_grid_subset(pending_set(img@, width, height), width, height);
                    vstd::set_lib::lemma_len_subset(
                        pending_set(img@, width, height),
                        pending_set(cur, width, height).remove((x, y)),
                    );
                    seeds = seeds.push((x, y));
                    dropped = false;
                    assert(swept(cur, width, height, last_label, queue) == swept(
                        img@,
                        width,
                        height,
                        id,
                        q@,
                    ));
                }
                components.push(component);
            } else {
                proof {
                    lemma_drop_region(
                        input,
                        cur,
                        width,
                        height,
                        found_so_far.len(),
                        queue,
                        seeds,
                        dropped,
                    );
                    dropped = true;
                    assert(swept(cur, width, height, last_label, queue) == swept(
                        img@,
                        width,
                        height,
                        id,
                        q@,
                    ));
                }
            }
        } else if v == UNCOLORED_BACKGROUND {
            img[idx] = COLORED_BACKGROUND;
            let found = neighbors(img, width, height, x, y);
            enqueue(&mut q, &found);
            proof {
                lemma_pixel_update(cur, width, height, (x, y), COLORED_BACKGROUND);
                lemma_open_neighbors(img@, width, height, (x, y));
                lemma_sweep_background(
                    input,
                    cur,
                    img@,
                    width,
                    height,
                    found_so_far.len(),
                    queue,
                    found@,
                    seeds,
                    dropped,
                    found_so_far,
                );
                assert(swept(cur, width, height, last_label, queue) == swept(
                    img@,
                    width,
                    height,
                    id,
                    q@,
                ));
            }
        } else {
            proof {
                lemma_pass_over(
                    input,
                    cur,
                    width,
                    height,
                    found_so_far.len(),
                    queue,
                    seeds,
                    dropped,
                );
                assert(swept(cur, width, height, last_label, queue) == swept(
                    img@,
                    width,
                    height,
                    id,
                    q@,
                ));
            }
        }
    }
    proof {
        assert(q@ =~= Seq::<Point>::empty());
        lemma_label_done(input, img@, width, height, seeds, dropped, components@);
        lemma_components_determined(
            input,
            img@,
            width,
            height,
            components@,
            components_of(input, width, height),
        );
    }
    components
}

} // verus!
