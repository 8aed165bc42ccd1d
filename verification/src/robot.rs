//! The per-frame detector: finds the subject and the projectiles in a
//! frame and says where to point.

use vstd::prelude::*;
use crate::capture::active_pixel_to_screen;
use crate::img::{
    band_mask, blue_mask, median3x3, median_filtered, remove_background, shrink, threshold,
    threshold_blue, thumbnail_pixels, without_background, Rectangle, IMAGE_DOWNSCALE_FACTOR,
    MAX_SOURCE_PIXELS,
};
use crate::img_connected_components::{
    components_of, connected_components, labelled, Component,
};

verus! {

/// Band of the third channel in which a pixel counts as the subject's.
pub const BLUE_THRESHOLD_LOWER: u8 = 57;

/// Upper end of that band.
pub const BLUE_THRESHOLD_UPPER: u8 = 203;

/// A projectile has more pixels than this,
pub const MIN_AREA: usize = 28;

/// and fewer than this.
pub const MAX_AREA: usize = 62;

/// The channel bands of the crystal class of projectiles.
pub open spec fn crystal_bands() -> Seq<(u8, u8)> {
    seq![(10u8, 255u8), (30u8, 204u8), (84u8, 255u8)]
}

/// The channel bands of the fireball class of projectiles.
pub open spec fn fireball_bands() -> Seq<(u8, u8)> {
    seq![(160u8, 255u8), (14u8, 250u8), (1u8, 255u8)]
}

/// The rectangle that a component spans.
pub open spec fn box_of(c: Component<usize>) -> Rectangle<usize> {
    Rectangle {
        left: c.left,
        top: c.top,
        width: (c.right - c.left) as usize,
        height: (c.bottom - c.top) as usize,
    }
}

/// Roundness: the ratio of width to height lies strictly between 3/4 and
/// 5/4. A box without height is not round.
pub open spec fn is_round(width: usize, height: usize) -> bool {
    3 * height < 4 * width && 4 * width < 5 * height
}

/// A component counts as a projectile if its area lies strictly between
/// `MIN_AREA` and `MAX_AREA` and its bounding box is round.
pub open spec fn is_projectile(c: Component<usize>) -> bool {
    &&& MIN_AREA < c.area
    &&& c.area < MAX_AREA
    &&& is_round(box_of(c).width, box_of(c).height)
}

/// The bounding boxes of the projectiles among the components, in the
/// components' order.
pub open spec fn projectile_boxes(components: Seq<Component<usize>>) -> Seq<Rectangle<usize>> {
    components.filter(|c: Component<usize>| is_projectile(c)).map_values(
        |c: Component<usize>| box_of(c),
    )
}

/// `k` is the place of the subject: no component is larger than the one
/// at `k`, and every component before it is smaller.
pub open spec fn is_largest(components: Seq<Component<usize>>, k: int) -> bool {
    &&& 0 <= k < components.len()
    &&& forall|j: int|
        0 <= j < components.len() ==> (#[trigger] components[j]).area <= components[k].area
    &&& forall|j: int| 0 <= j < k ==> (#[trigger] components[j]).area < components[k].area
}

/// The subject's box after a frame in which `components` were found: the
/// box of the largest of them, or the box as it was where none was found.
pub open spec fn subject_box(before: Rectangle<usize>, components: Seq<Component<usize>>) -> Rectangle<
    usize,
> {
    if components.len() == 0 {
        before
    } else {
        box_of(components[choose|k: int| is_largest(components, k)])
    }
}

/// The components that labelling finds in a mask once the median filter
/// has cleaned it.
pub open spec fn found_in(mask: Seq<u8>, width: usize, height: usize) -> Seq<Component<usize>> {
    components_of(median_filtered(mask, width, height), width, height)
}

/// The subject's box once `frame` has been searched for it.
pub open spec fn subject_in(
    frame: Seq<u8>,
    width: usize,
    height: usize,
    before: Rectangle<usize>,
) -> Rectangle<usize> {
    subject_box(
        before,
        found_in(blue_mask(frame, BLUE_THRESHOLD_LOWER, BLUE_THRESHOLD_UPPER), width, height),
    )
}

/// The boxes of the projectiles of one class in `frame`.
pub open spec fn projectiles_in(
    frame: Seq<u8>,
    width: usize,
    height: usize,
    bands: Seq<(u8, u8)>,
) -> Seq<Rectangle<usize>> {
    projectile_boxes(found_in(band_mask(frame, bands), width, height))
}

/// The rectangle lies within a frame of the given size.
pub open spec fn fits(r: Rectangle<usize>, width: usize, height: usize) -> bool {
    r.left + r.width <= width && r.top + r.height <= height
}

/// The rectangle reflected about the vertical centre line of a frame of
/// the given width.
pub open spec fn mirrored(r: Rectangle<usize>, width: usize) -> Rectangle<usize> {
    Rectangle { left: (width - r.left - r.width) as usize, top: r.top, width: r.width, height: r.height }
}

/// The rectangle in screen coordinates.
pub open spec fn on_screen(r: Rectangle<usize>, active_area: Rectangle<usize>) -> Rectangle<usize> {
    Rectangle {
        left: (active_area.left + r.left * IMAGE_DOWNSCALE_FACTOR) as usize,
        top: (active_area.top + r.top * IMAGE_DOWNSCALE_FACTOR) as usize,
        width: (IMAGE_DOWNSCALE_FACTOR * r.width) as usize,
        height: (IMAGE_DOWNSCALE_FACTOR * r.height) as usize,
    }
}

/// The centre of the rectangle, rounded down.
pub open spec fn centre(r: Rectangle<usize>) -> (usize, usize) {
    ((r.left + r.width / 2) as usize, (r.top + r.height / 2) as usize)
}

/// A three-channel image has a third as many pixels as bytes.
proof fn lemma_mask_size(bytes: nat, width: usize, height: usize)
    requires
        bytes == 3 * width * height,
    ensures
        bytes / 3 == width * height,
{
    assert(3 * width * height == 3 * (width * height)) by (nonlinear_arith);
}

/// Every component that a labelling pass returns has a box that lies
/// within the mask.
pub proof fn lemma_component_in_frame(
    input: Seq<u8>,
    output: Seq<u8>,
    width: usize,
    height: usize,
    components: Seq<Component<usize>>,
    k: int,
)
    requires
        labelled(input, output, width, height, components),
        0 <= k < components.len(),
    ensures
        components[k].left <= components[k].right < width,
        components[k].top <= components[k].bottom < height,
        fits(box_of(components[k]), width, height),
{
}

/// Only one place can be the subject's.
pub proof fn lemma_largest_unique(components: Seq<Component<usize>>, k: int)
    requires
        is_largest(components, k),
    ensures
        (choose|k: int| is_largest(components, k)) == k,
{
    let chosen = choose|k: int| is_largest(components, k);
    if chosen < k {
        assert(components[chosen].area < components[k].area);
        assert(components[k].area <= components[chosen].area);
    } else if k < chosen {
        assert(components[k].area < components[chosen].area);
        assert(components[chosen].area <= components[k].area);
    }
}

/// The place of the largest component, the first of them where several
/// are as large; none where there is no component.
pub fn largest(components: &Vec<Component<usize>>) -> (r: Option<usize>)
    ensures
        r is None <==> components@.len() == 0,
        r matches Some(k) ==> is_largest(components@, k as int),
{
    if components.len() == 0 {
        return None;
    }
    let mut best: usize = 0;
    let mut i: usize = 1;
    while i < components.len()
        invariant
            0 <= best < i <= components@.len(),
            forall|j: int| 0 <= j < i ==> (#[trigger] components@[j]).area <= components@[best as int].area,
            forall|j: int|
                0 <= j < best ==> (#[trigger] components@[j]).area < components@[best as int].area,
        decreases components@.len() - i,
    {
        if components[i].area > components[best].area {
            best = i;
        }
        i += 1;
    }
    Some(best)
}

/// Whether the component is a projectile.
pub fn qualifies(c: &Component<usize>) -> (r: bool)
    requires
        c.left <= c.right,
        c.top <= c.bottom,
    ensures
        r == is_projectile(*c),
{
    let width: u128 = (c.right - c.left) as u128;
    let height: u128 = (c.bottom - c.top) as u128;
    c.area > MIN_AREA && c.area < MAX_AREA && 3 * height < 4 * width && 4 * width < 5 * height
}

/// The centre of the rectangle, each coordinate rounded down.
pub fn centroid(r: &Rectangle<usize>) -> (c: (usize, usize))
    requires
        r.left + r.width / 2 <= usize::MAX,
        r.top + r.height / 2 <= usize::MAX,
    ensures
        c == centre(*r),
{
    (r.left + r.width / 2, r.top + r.height / 2)
}

/// Reflects the rectangle about the vertical centre line of a frame that
/// is `width` pixels wide.
pub fn mirror_horizontal(r: &Rectangle<usize>, width: usize) -> (m: Rectangle<usize>)
    requires
        r.left + r.width <= width,
    ensures
        m == mirrored(*r, width),
{
    Rectangle { left: width - r.left - r.width, top: r.top, width: r.width, height: r.height }
}

/// Finds the components of a band mask of `img` and returns the boxes of
/// those that are projectiles.
pub fn projectiles(img: &[u8], width: usize, height: usize, rgb_thresholds: &[(u8, u8); 3]) -> (r:
    Vec<Rectangle<usize>>)
    requires
        width > 0,
        height > 0,
        img@.len() == 3 * width * height,
    ensures
        r@ == projectiles_in(img@, width, height, rgb_thresholds@),
{
    let mask = threshold(img, rgb_thresholds);
    proof {
        lemma_mask_size(img@.len(), width, height);
    }
    let mut mask = median3x3(mask.as_slice(), width, height);
    let ghost cleaned = mask@;
    let components = connected_components(mask.as_mut_slice(), width, height);
    let mut r: Vec<Rectangle<usize>> = Vec::new();
    let mut i: usize = 0;
    proof {
        reveal_with_fuel(Seq::filter, 2);
    }
    while i < components.len()
        invariant
            i <= components@.len(),
            labelled(cleaned, mask@, width, height, components@),
            r@ == projectile_boxes(components@.subrange(0, i as int)),
        decreases components@.len() - i,
    {
        proof {
            lemma_component_in_frame(cleaned, mask@, width, height, components@, i as int);
            let shorter = components@.subrange(0, i as int);
            let longer = components@.subrange(0, i + 1);
            let chosen = |c: Component<usize>| is_projectile(c);
            assert(longer.drop_last() =~= shorter);
            reveal_with_fuel(Seq::filter, 2);
            assert(longer.filter(chosen) == if is_projectile(components@[i as int]) {
                shorter.filter(chosen).push(components@[i as int])
            } else {
                shorter.filter(chosen)
            });
        }
        if qualifies(&components[i]) {
            r.push(components[i].bounding_box());
            proof {
                let chosen = |c: Component<usize>| is_projectile(c);
                let shorter = components@.subrange(0, i as int).filter(chosen);
                assert(shorter.push(components@[i as int]).map_values(
                    |c: Component<usize>| box_of(c),
                ) =~= shorter.map_values(|c: Component<usize>| box_of(c)).push(
                    box_of(components@[i as int]),
                ));
            }
        }
        i += 1;
    }
    proof {
        assert(components@.subrange(0, i as int) =~= components@);
    }
    r
}

/// The projectiles of the crystal class in the frame.
pub fn crystals(img: &[u8], width: usize, height: usize) -> (r: Vec<Rectangle<usize>>)
    requires
        width > 0,
        height > 0,
        img@.len() == 3 * width * height,
    ensures
        r@ == projectiles_in(img@, width, height, crystal_bands()),
{
    let rgb_thresholds: [(u8, u8); 3] = [(10, 255), (30, 204), (84, 255)];
    projectiles(img, width, height, &rgb_thresholds)
}

/// The projectiles of the fireball class in the frame.
pub fn fireballs(img: &[u8], width: usize, height: usize) -> (r: Vec<Rectangle<usize>>)
    requires
        width > 0,
        height > 0,
        img@.len() == 3 * width * height,
    ensures
        r@ == projectiles_in(img@, width, height, fireball_bands()),
{
    let rgb_thresholds: [(u8, u8); 3] = [(160, 255), (14, 250), (1, 255)];
    projectiles(img, width, height, &rgb_thresholds)
}

/// Follows the subject from frame to frame.
struct HeadTracker {
    pub bound: Rectangle<usize>,
}

impl HeadTracker {
    /// Looks for the subject in the frame: its box becomes that of the
    /// largest component of the blue mask. Where the mask has no component
    /// the box stays.
    fn update(&mut self, img: &[u8], width: usize, height: usize)
        requires
            width > 0,
            height > 0,
            img@.len() == 3 * width * height,
        ensures
            final(self).bound == subject_in(img@, width, height, old(self).bound),
            fits(old(self).bound, width, height) ==> fits(final(self).bound, width, height),
    {
        let mask = threshold_blue(img, BLUE_THRESHOLD_LOWER, BLUE_THRESHOLD_UPPER);
        proof {
            lemma_mask_size(img@.len(), width, height);
        }
        let mut mask = median3x3(mask.as_slice(), width, height);
        let ghost cleaned = mask@;
        let components = connected_components(mask.as_mut_slice(), width, height);
        match largest(&components) {
            Some(k) => {
                proof {
                    lemma_component_in_frame(cleaned, mask@, width, height, components@, k as int);
                    lemma_largest_unique(components@, k as int);
                }
                self.bound = components[k].bounding_box();
            },
            None => {},
        }
    }

    fn new() -> (t: Self)
        ensures
            t.bound == (Rectangle::<usize> { left: 0, top: 0, width: 0, height: 0 }),
    {
        HeadTracker { bound: Rectangle { left: 0, top: 0, width: 0, height: 0 } }
    }
}

/// The detector of one tracking session: the session's background and the
/// subject's last known box.
pub struct Robot {
    background: Vec<u8>,
    head_tracker: HeadTracker,
}

/// What one frame yields: the rectangles found, and the screen position to
/// point at.
pub struct Detection {
    /// The target box, the subject's box, then the fireballs and the
    /// crystals.
    pub rectangles: Vec<Rectangle<usize>>,
    /// The centre of the target box on the screen.
    pub pointer: (usize, usize),
}

/// The relation between a detector before and after a frame, the reduced
/// frame, and what the detector returns for it.
pub open spec fn frame_outcome(
    before: Robot,
    after: Robot,
    small: Seq<u8>,
    width: usize,
    height: usize,
    active_area: Rectangle<usize>,
    rectangles: Seq<Rectangle<usize>>,
    pointer: (usize, usize),
) -> bool {
    let frame = without_background(small, before.background());
    let target = mirrored(after.head(), width);
    &&& after.background() == before.background()
    &&& after.head() == subject_in(frame, width, height, before.head())
    &&& rectangles == seq![target, after.head()] + projectiles_in(
        frame,
        width,
        height,
        fireball_bands(),
    ) + projectiles_in(frame, width, height, crystal_bands())
    &&& pointer == centre(on_screen(target, active_area))
}

impl Robot {
    /// The session's background image.
    pub closed spec fn background(self) -> Seq<u8> {
        self.background@
    }

    /// The subject's last known box, in pixels of the reduced frame.
    pub closed spec fn head(self) -> Rectangle<usize> {
        self.head_tracker.bound
    }

    /// The detector can handle a captured frame of `bytes` bytes that shows
    /// `active_area`: the frame holds three bytes for each pixel of the
    /// area, the area is neither too large to be reduced nor so small that
    /// nothing is left of it, it lies on the screen, the background covers
    /// the reduced frame, and the subject's box lies within it.
    pub open spec fn frame_ok(self, bytes: nat, active_area: Rectangle<usize>) -> bool {
        let width = active_area.width / IMAGE_DOWNSCALE_FACTOR;
        let height = active_area.height / IMAGE_DOWNSCALE_FACTOR;
        &&& active_area.width <= u32::MAX
        &&& active_area.height <= u32::MAX
        &&& active_area.width >= IMAGE_DOWNSCALE_FACTOR
        &&& active_area.height >= IMAGE_DOWNSCALE_FACTOR
        &&& active_area.width * active_area.height <= MAX_SOURCE_PIXELS
        &&& bytes == 3 * active_area.width * active_area.height
        &&& active_area.left + active_area.width <= usize::MAX
        &&& active_area.top + active_area.height <= usize::MAX
        &&& self.background().len() >= 3 * width * height
        &&& fits(self.head(), width as usize, height as usize)
    }

    /// Whether the detector can handle such a frame.
    pub fn ready_for(&self, bytes: usize, active_area: &Rectangle<usize>) -> (ok: bool)
        ensures
            ok == self.frame_ok(bytes as nat, *active_area),
    {
        let w = active_area.width;
        let h = active_area.height;
        if w > 0xffff_ffff || h > 0xffff_ffff || w < IMAGE_DOWNSCALE_FACTOR || h
            < IMAGE_DOWNSCALE_FACTOR {
            return false;
        }
        let pixels = match w.checked_mul(h) {
            Some(pixels) => pixels,
            None => {
                return false;
            },
        };
        if pixels > MAX_SOURCE_PIXELS {
            return false;
        }
        let width = w / IMAGE_DOWNSCALE_FACTOR;
        let height = h / IMAGE_DOWNSCALE_FACTOR;
        proof {
            assert(3 * w * h == 3 * (w * h)) by (nonlinear_arith);
            assert(0 <= width * height <= w * h) by (nonlinear_arith)
                requires
                    0 <= width <= w,
                    0 <= height <= h,
            ;
            assert(3 * width * height == 3 * (width * height)) by (nonlinear_arith);
        }
        if bytes != 3 * pixels || self.background.len() < 3 * (width * height) {
            return false;
        }
        let bound = &self.head_tracker.bound;
        let within = match (bound.left.checked_add(bound.width), bound.top.checked_add(bound.height)) {
            (Some(right), Some(bottom)) => right <= width && bottom <= height,
            _ => false,
        };
        within && active_area.left.checked_add(w).is_some() && active_area.top.checked_add(
            h,
        ).is_some()
    }

    /// A detector for the given background. Without a background there is
    /// no detector.
    pub fn new(background: Option<Vec<u8>>) -> (r: Option<Robot>)
        ensures
            r is None <==> background is None,
            r matches Some(robot) ==> robot.background() == background->0@ && robot.head() == (
            Rectangle::<usize> { left: 0, top: 0, width: 0, height: 0 }),
    {
        match background {
            Some(background) => Some(Robot { background, head_tracker: HeadTracker::new() }),
            None => None,
        }
    }

    /// Searches a reduced frame: takes out the background, follows the
    /// subject, collects the projectiles of both classes, and works out
    /// where on the screen the mirrored subject lies.
    pub fn detect(
        &mut self,
        small: &[u8],
        width: usize,
        height: usize,
        active_area: &Rectangle<usize>,
    ) -> (r: Detection)
        requires
            width > 0,
            height > 0,
            small@.len() == 3 * width * height,
            old(self).background().len() >= small@.len(),
            fits(old(self).head(), width, height),
            active_area.left + IMAGE_DOWNSCALE_FACTOR * width <= usize::MAX,
            active_area.top + IMAGE_DOWNSCALE_FACTOR * height <= usize::MAX,
        ensures
            frame_outcome(
                *old(self),
                *final(self),
                small@,
                width,
                height,
                *active_area,
                r.rectangles@,
                r.pointer,
            ),
            fits(final(self).head(), width, height),
    {
        let img = remove_background(small, self.background.as_slice());
        self.head_tracker.update(img.as_slice(), width, height);

        let h_other = Rectangle {
            left: self.head_tracker.bound.left,
            top: self.head_tracker.bound.top,
            width: self.head_tracker.bound.width,
            height: self.head_tracker.bound.height,
        };
        let h_target = mirror_horizontal(&h_other, width);

        let mut fireball_rects = fireballs(img.as_slice(), width, height);
        let mut crystal_rects = crystals(img.as_slice(), width, height);
        let ghost fire = fireball_rects@;
        let ghost crystal = crystal_rects@;

        let pointer = centroid(&active_pixel_to_screen(&h_target, active_area));

        let mut r: Vec<Rectangle<usize>> = Vec::new();
        r.push(h_target);
        r.push(h_other);
        r.append(&mut fireball_rects);
        r.append(&mut crystal_rects);
        proof {
            assert(r@ =~= seq![mirrored(self.head(), width), self.head()] + fire + crystal);
        }
        Detection { rectangles: r, pointer }
    }

    /// Handles one captured frame of the active area: reduces it by
    /// `IMAGE_DOWNSCALE_FACTOR` and searches the reduced frame.
    pub fn process_frame(&mut self, img: Vec<u8>, active_area: &Rectangle<usize>) -> (r: Detection)
        requires
            old(self).frame_ok(img@.len(), *active_area),
        ensures
            frame_outcome(
                *old(self),
                *final(self),
                thumbnail_pixels(
                    img@,
                    active_area.width as nat,
                    active_area.height as nat,
                    (active_area.width / IMAGE_DOWNSCALE_FACTOR) as nat,
                    (active_area.height / IMAGE_DOWNSCALE_FACTOR) as nat,
                ),
                active_area.width / IMAGE_DOWNSCALE_FACTOR,
                active_area.height / IMAGE_DOWNSCALE_FACTOR,
                *active_area,
                r.rectangles@,
                r.pointer,
            ),
            fits(
                final(self).head(),
                active_area.width / IMAGE_DOWNSCALE_FACTOR,
                active_area.height / IMAGE_DOWNSCALE_FACTOR,
            ),
    {
        let (width, height, small) = shrink(
            img,
            active_area.width,
            active_area.height,
            IMAGE_DOWNSCALE_FACTOR,
        );
        self.detect(small.as_slice(), width, height, active_area)
    }
}

} // verus!
