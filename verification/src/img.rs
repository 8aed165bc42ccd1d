//! Image primitives: reduction, colour classification, the median filter,
//! the mode of sample images, and channel order.

use vstd::prelude::*;
use vstd::relations::{sorted_by, total_ordering};
use vstd::seq_lib::{lemma_sorted_unique, to_multiset_build, to_multiset_insert};
use vstd::slice::slice_to_vec;
use crate::grid::{
    in_grid, lemma_equal_by_points, lemma_grid_covers, lemma_pixel_index_bounds,
    lemma_pixel_update, pixel, Point,
};

verus! {

/// Factor by which a captured frame is reduced before classification.
pub const IMAGE_DOWNSCALE_FACTOR: usize = 8;

/// Axis-aligned rectangle given by its top-left corner and its extents.
#[derive(Debug, Clone)]
pub struct Rectangle<T> {
    pub top: T,
    pub left: T,
    pub width: T,
    pub height: T,
}

/// The most pixels that an image may have to be reduced by `shrink`.
pub const MAX_SOURCE_PIXELS: usize = 0x100_0000;

/// The bytes of the image that `image::imageops::thumbnail` makes of an
/// 8-bit RGB image with the bytes `img` and the given width and height
/// when it is asked for the new width and height.
pub uninterp spec fn thumbnail_pixels(
    img: Seq<u8>,
    width: nat,
    height: nat,
    new_width: nat,
    new_height: nat,
) -> Seq<u8>;

/// Calls `image::imageops::thumbnail` on the RGB image that `img` holds
/// and hands back the new image's width, height and bytes.
///
/// Believed without proof: the result has the size asked for, three bytes
/// per pixel, and its bytes are a function of the arguments alone. The
/// preconditions keep to what this library asks of the call and away from
/// what it cannot take: the buffer holds the image exactly, the result is
/// no larger than the source in either direction, and the source has no
/// more than `MAX_SOURCE_PIXELS` pixels, since the call adds up the
/// channels of a block of pixels in 32 bits.
#[verifier::external_body]
fn thumbnail_rgb(img: Vec<u8>, width: u32, height: u32, new_width: u32, new_height: u32) -> (r: (
    u32,
    u32,
    Vec<u8>,
))
    requires
        img@.len() == 3 * width * height,
        width * height <= MAX_SOURCE_PIXELS,
        new_width <= width,
        new_height <= height,
    ensures
        r.0 == new_width,
        r.1 == new_height,
        r.2@.len() == 3 * new_width * new_height,
        r.2@ == thumbnail_pixels(
            img@,
            width as nat,
            height as nat,
            new_width as nat,
            new_height as nat,
        ),
{
    let source = image::RgbImage::from_raw(width, height, img).expect(
        "shrink: failed to convert img type",
    );
    let small = image::imageops::thumbnail(&source, new_width, new_height);
    (small.width(), small.height(), small.into_raw())
}

/// Reduces an RGB image to `width / scale` by `height / scale` pixels and
/// returns the new width, the new height and the new bytes.
pub fn shrink(img: Vec<u8>, width: usize, height: usize, scale: usize) -> (r: (usize, usize, Vec<u8>))
    requires
        scale > 0,
        width <= u32::MAX,
        height <= u32::MAX,
        img@.len() == 3 * width * height,
        width * height <= MAX_SOURCE_PIXELS,
    ensures
        r.0 == width / scale,
        r.1 == height / scale,
        r.2@.len() == 3 * r.0 * r.1,
        r.2@ == thumbnail_pixels(
            img@,
            width as nat,
            height as nat,
            (width / scale) as nat,
            (height / scale) as nat,
        ),
{
    let new_width: usize = width / scale;
    let new_height: usize = height / scale;
    proof {
        assert(new_width <= width && new_height <= height) by (nonlinear_arith)
            requires
                new_width == width / scale,
                new_height == height / scale,
                scale > 0,
        ;
    }
    let (w, h, small) = thumbnail_rgb(
        img,
        width as u32,
        height as u32,
        new_width as u32,
        new_height as u32,
    );
    (w as usize, h as usize, small)
}

/// Value that `bgr_to_rgb` leaves at position `i` of a buffer holding `s`:
/// the outer two bytes of every complete triple change places, the middle
/// byte and an incomplete tail stay.
pub open spec fn swapped_at(s: Seq<u8>, i: int) -> u8 {
    if i >= 3 * (s.len() / 3) {
        s[i]
    } else if i % 3 == 0 {
        s[i + 2]
    } else if i % 3 == 2 {
        s[i - 2]
    } else {
        s[i]
    }
}

/// The buffer with the first and third channel of every pixel exchanged.
pub open spec fn channels_swapped(s: Seq<u8>) -> Seq<u8> {
    Seq::new(s.len(), |i: int| swapped_at(s, i))
}

/// Exchanges the first and third channel of every pixel in place.
pub fn bgr_to_rgb(image: &mut [u8])
    ensures
        final(image)@ == channels_swapped(old(image)@),
{
    let n: usize = image.len() / 3;
    let mut p: usize = 0;
    while p < n
        invariant
            n == old(image)@.len() / 3,
            3 * n <= old(image)@.len() <= usize::MAX,
            image@.len() == old(image)@.len(),
            p <= n,
            forall|i: int| 0 <= i < 3 * p ==> image@[i] == swapped_at(old(image)@, i),
            forall|i: int| 3 * p <= i < image@.len() ==> image@[i] == old(image)@[i],
        decreases n - p,
    {
        let first: u8 = image[3 * p];
        let third: u8 = image[3 * p + 2];
        image[3 * p] = third;
        image[3 * p + 2] = first;
        p += 1;
    }
}

/// `v` lies strictly between `lower` and `upper`.
pub open spec fn in_band(v: u8, lower: u8, upper: u8) -> bool {
    lower < v && v < upper
}

/// The mask value for a pixel that passed (`u8::MAX`) or failed
/// (`u8::MIN`) its band test.
pub open spec fn mask_value(inside: bool) -> u8 {
    if inside {
        u8::MAX
    } else {
        u8::MIN
    }
}

/// The mask of a three-channel image under a band test on its third
/// channel: one byte per complete pixel.
pub open spec fn blue_mask(img: Seq<u8>, lower: u8, upper: u8) -> Seq<u8> {
    Seq::new((img.len() / 3) as nat, |i: int| mask_value(in_band(img[3 * i + 2], lower, upper)))
}

/// Classifies each pixel of a three-channel image by its third channel:
/// the mask is `u8::MAX` where that channel lies strictly between `lower`
/// and `upper`, and `u8::MIN` elsewhere. Bytes after the last complete
/// pixel are ignored.
pub fn threshold_blue(img: &[u8], lower: u8, upper: u8) -> (out: Vec<u8>)
    ensures
        out@ == blue_mask(img@, lower, upper),
{
    let n: usize = img.len() / 3;
    let mut out: Vec<u8> = Vec::with_capacity(n);
    let mut i: usize = 0;
    while i < n
        invariant
            n == img@.len() / 3,
            3 * n <= img@.len() <= usize::MAX,
            i <= n,
            out@.len() == i,
            forall|j: int|
                0 <= j < i ==> out@[j] == mask_value(in_band(img@[3 * j + 2], lower, upper)),
        decreases n - i,
    {
        let b: u8 = img[3 * i + 2];
        out.push(
            if b > lower && b < upper {
                u8::MAX
            } else {
                u8::MIN
            },
        );
        i += 1;
    }
    out
}

/// Whether each of the three channels of pixel `i` lies strictly inside
/// its own band.
pub open spec fn all_in_band(img: Seq<u8>, i: int, bands: Seq<(u8, u8)>) -> bool {
    &&& in_band(img[3 * i], bands[0].0, bands[0].1)
    &&& in_band(img[3 * i + 1], bands[1].0, bands[1].1)
    &&& in_band(img[3 * i + 2], bands[2].0, bands[2].1)
}

/// The mask of a three-channel image under a band test on each channel:
/// one byte per complete pixel.
pub open spec fn band_mask(img: Seq<u8>, bands: Seq<(u8, u8)>) -> Seq<u8> {
    Seq::new((img.len() / 3) as nat, |i: int| mask_value(all_in_band(img, i, bands)))
}

/// Classifies each pixel of a three-channel image by all its channels:
/// the mask is `u8::MAX` where every channel lies strictly inside the band
/// given for it, and `u8::MIN` elsewhere. Bytes after the last complete
/// pixel are ignored.
pub fn threshold(img: &[u8], rgb_thresholds: &[(u8, u8); 3]) -> (out: Vec<u8>)
    ensures
        out@ == band_mask(img@, rgb_thresholds@),
{
    let n: usize = img.len() / 3;
    let mut out: Vec<u8> = Vec::with_capacity(n);
    let mut i: usize = 0;
    while i < n
        invariant
            n == img@.len() / 3,
            3 * n <= img@.len() <= usize::MAX,
            i <= n,
            out@.len() == i,
            forall|j: int|
                0 <= j < i ==> out@[j] == mask_value(all_in_band(img@, j, rgb_thresholds@)),
        decreases n - i,
    {
        let r: u8 = img[3 * i];
        let g: u8 = img[3 * i + 1];
        let b: u8 = img[3 * i + 2];
        let inside = r > rgb_thresholds[0].0 && r < rgb_thresholds[0].1 && g > rgb_thresholds[1].0
            && g < rgb_thresholds[1].1 && b > rgb_thresholds[2].0 && b < rgb_thresholds[2].1;
        out.push(
            if inside {
                u8::MAX
            } else {
                u8::MIN
            },
        );
        i += 1;
    }
    out
}

/// `img` with every byte blanked that equals the byte of `back` at the
/// same position, as far as both reach.
pub open spec fn without_background(img: Seq<u8>, back: Seq<u8>) -> Seq<u8> {
    Seq::new(
        if img.len() <= back.len() {
            img.len()
        } else {
            back.len()
        },
        |i: int|
            if img[i] == back[i] {
                0
            } else {
                img[i]
            },
    )
}

/// Blanks every byte of `img` that equals the byte of `back` at the same
/// position and keeps the others. The result is as long as the shorter of
/// the two.
pub fn remove_background(img: &[u8], back: &[u8]) -> (out: Vec<u8>)
    ensures
        out@ == without_background(img@, back@),
{
    let n: usize = if img.len() <= back.len() {
        img.len()
    } else {
        back.len()
    };
    let mut out: Vec<u8> = Vec::with_capacity(img.len());
    let mut i: usize = 0;
    while i < n
        invariant
            n <= img@.len(),
            n <= back@.len(),
            i <= n,
            out@.len() == i,
            forall|j: int|
                0 <= j < i ==> out@[j] == if img@[j] == back@[j] {
                    0
                } else {
                    img@[j]
                },
        decreases n - i,
    {
        let a: u8 = img[i];
        let b: u8 = back[i];
        out.push(
            if a == b {
                0
            } else {
                a
            },
        );
        i += 1;
    }
    out
}

/// The order in which samples are ranked.
pub open spec fn byte_order() -> spec_fn(u8, u8) -> bool {
    |a: u8, b: u8| a <= b
}

/// The middle one of the samples once they stand in ascending order.
pub open spec fn median_of(samples: Seq<u8>) -> u8 {
    samples.sort_by(byte_order())[samples.len() as int / 2]
}

/// The pixel at `p` and its eight neighbours, row by row.
pub open spec fn window3x3(img: Seq<u8>, width: usize, p: Point) -> Seq<u8> {
    let l = (p.0 - 1) as usize;
    let r = (p.0 + 1) as usize;
    let u = (p.1 - 1) as usize;
    let d = (p.1 + 1) as usize;
    seq![
        pixel(img, width, (l, u)),
        pixel(img, width, (p.0, u)),
        pixel(img, width, (r, u)),
        pixel(img, width, (l, p.1)),
        pixel(img, width, p),
        pixel(img, width, (r, p.1)),
        pixel(img, width, (l, d)),
        pixel(img, width, (p.0, d)),
        pixel(img, width, (r, d)),
    ]
}

/// `p` does not lie in the first or last row or column.
pub open spec fn interior(width: usize, height: usize, p: Point) -> bool {
    0 < p.0 && p.0 + 1 < width && 0 < p.1 && p.1 + 1 < height
}

/// The grid point that position `i` of a row-major buffer stands for.
pub open spec fn point_at(width: usize, i: int) -> Point {
    ((i % (width as int)) as usize, (i / (width as int)) as usize)
}

/// What the median filter leaves at `p`.
pub open spec fn filtered_pixel(img: Seq<u8>, width: usize, height: usize, p: Point) -> u8 {
    if interior(width, height, p) {
        median_of(window3x3(img, width, p))
    } else {
        pixel(img, width, p)
    }
}

/// The image after the 3x3 median filter.
pub open spec fn median_filtered(img: Seq<u8>, width: usize, height: usize) -> Seq<u8> {
    Seq::new(img.len(), |i: int| filtered_pixel(img, width, height, point_at(width, i)))
}

/// All bytes of the buffer are equal.
pub open spec fn uniform(img: Seq<u8>) -> bool {
    forall|i: int, j: int| 0 <= i < img.len() && 0 <= j < img.len() ==> img[i] == img[j]
}

/// Bytes are totally ordered.
proof fn lemma_byte_order_total()
    ensures
        total_ordering(byte_order()),
{
    let leq = byte_order();
    assert forall|x: u8, y: u8| #[trigger] leq(x, y) && #[trigger] leq(y, x) implies x == y by {}
    assert forall|x: u8, y: u8, z: u8| #[trigger] leq(x, y) && #[trigger] leq(y, z) implies leq(
        x,
        z,
    ) by {}
    assert forall|x: u8| #[trigger] leq(x, x) by {}
    assert forall|x: u8, y: u8| #[trigger] leq(x, y) || #[trigger] leq(y, x) by {}
}

/// The median of samples that are all `v` is `v`.
pub proof fn lemma_median_of_constant(samples: Seq<u8>, v: u8)
    requires
        samples.len() > 0,
        forall|i: int| 0 <= i < samples.len() ==> samples[i] == v,
    ensures
        median_of(samples) == v,
{
    lemma_byte_order_total();
    samples.lemma_sort_by_ensures(byte_order());
    let sorted = samples.sort_by(byte_order());
    vstd::seq_lib::to_multiset_len(samples);
    vstd::seq_lib::to_multiset_len(sorted);
    let m = sorted[samples.len() as int / 2];
    assert(sorted.contains(m));
}

/// Puts `v` into an ascending vector at the place that keeps it ascending.
fn insert_sorted(sorted: &mut Vec<u8>, v: u8)
    requires
        sorted_by(old(sorted)@, byte_order()),
    ensures
        sorted_by(final(sorted)@, byte_order()),
        final(sorted)@.len() == old(sorted)@.len() + 1,
        final(sorted)@.to_multiset() == old(sorted)@.to_multiset().insert(v),
{
    let mut j: usize = 0;
    while j < sorted.len() && sorted[j] <= v
        invariant
            j <= sorted@.len(),
            sorted@ == old(sorted)@,
            forall|i: int| 0 <= i < j ==> sorted@[i] <= v,
        decreases sorted@.len() - j,
    {
        j += 1;
    }
    sorted.insert(j, v);
    proof {
        let before = old(sorted)@;
        let after = sorted@;
        to_multiset_insert(before, j as int, v);
        let leq = byte_order();
        assert forall|a: int, b: int| 0 <= a < b < after.len() implies #[trigger] leq(
            after[a],
            after[b],
        ) by {
            if a == j {
                assert(leq(before[j as int], before[b - 1]));
            }
        }
    }
}

/// The median of nine samples.
fn median9(samples: &[u8; 9]) -> (m: u8)
    ensures
        m == median_of(samples@),
{
    let mut sorted: Vec<u8> = Vec::with_capacity(9);
    let mut k: usize = 0;
    proof {
        assert(sorted@ =~= samples@.subrange(0, 0));
    }
    while k < 9
        invariant
            k <= 9,
            sorted@.len() == k,
            sorted_by(sorted@, byte_order()),
            sorted@.to_multiset() == samples@.subrange(0, k as int).to_multiset(),
        decreases 9 - k,
    {
        proof {
            to_multiset_build(samples@.subrange(0, k as int), samples@[k as int]);
            assert(samples@.subrange(0, k as int).push(samples@[k as int]) =~= samples@.subrange(
                0,
                k + 1,
            ));
        }
        insert_sorted(&mut sorted, samples[k]);
        k += 1;
    }
    proof {
        assert(samples@.subrange(0, 9) =~= samples@);
        lemma_byte_order_total();
        samples@.lemma_sort_by_ensures(byte_order());
        lemma_sorted_unique(sorted@, samples@.sort_by(byte_order()), byte_order());
    }
    sorted[4]
}

/// A buffer that holds the filtered value at every grid point is the
/// filtered image.
proof fn lemma_filtered_by_points(img: Seq<u8>, out: Seq<u8>, width: usize, height: usize)
    requires
        img.len() == width * height,
        out.len() == img.len(),
        forall|p: Point|
            in_grid(width, height, p) ==> #[trigger] pixel(out, width, p) == filtered_pixel(
                img,
                width,
                height,
                p,
            ),
    ensures
        out == median_filtered(img, width, height),
{
    let filtered = median_filtered(img, width, height);
    assert forall|i: int| 0 <= i < out.len() implies out[i] == filtered[i] by {
        let p = lemma_grid_covers(width, height, i);
        vstd::arithmetic::div_mod::lemma_fundamental_div_mod_converse(
            i,
            width as int,
            p.1 as int,
            p.0 as int,
        );
        assert(pixel(out, width, p) == out[i]);
    }
}

/// 3x3 median filter over a single-channel image. Every pixel that has all
/// eight neighbours is replaced by the median of itself and those
/// neighbours, taken from the unfiltered image. The first and last row and
/// column keep the values they had.
pub fn median3x3(img: &[u8], width: usize, height: usize) -> (out: Vec<u8>)
    requires
        img@.len() == width * height,
    ensures
        out@ == median_filtered(img@, width, height),
        forall|p: Point|
            in_grid(width, height, p) ==> #[trigger] pixel(out@, width, p) == filtered_pixel(
                img@,
                width,
                height,
                p,
            ),
        uniform(img@) ==> out@ == img@,
{
    let mut out: Vec<u8> = slice_to_vec(img);
    if width < 3 || height < 3 {
        proof {
            assert forall|p: Point| in_grid(width, height, p) implies !interior(width, height, p) by {}
            lemma_filtered_by_points(img@, out@, width, height);
        }
        return out;
    }
    let mut y: usize = 1;
    while y < height - 1
        invariant
            width >= 3,
            height >= 3,
            1 <= y <= height - 1,
            img@.len() == width * height,
            out@.len() == img@.len(),
            forall|p: Point|
                in_grid(width, height, p) ==> #[trigger] pixel(out@, width, p) == if interior(
                    width,
                    height,
                    p,
                ) && p.1 < y {
                    median_of(window3x3(img@, width, p))
                } else {
                    pixel(img@, width, p)
                },
        decreases height - y,
    {
        let mut x: usize = 1;
        while x < width - 1
            invariant
                width >= 3,
                height >= 3,
                1 <= y < height - 1,
                1 <= x <= width - 1,
                img@.len() == width * height,
                out@.len() == img@.len(),
                forall|p: Point|
                    in_grid(width, height, p) ==> #[trigger] pixel(out@, width, p) == if interior(
                        width,
                        height,
                        p,
                    ) && (p.1 < y || (p.1 == y && p.0 < x)) {
                        median_of(window3x3(img@, width, p))
                    } else {
                        pixel(img@, width, p)
                    },
            decreases width - x,
        {
            proof {
                assert(img.len() == img@.len());
                lemma_pixel_index_bounds(width, height, (x, y));
                lemma_pixel_index_bounds(width, height, (x, (y - 1) as usize));
                lemma_pixel_index_bounds(width, height, (x, (y + 1) as usize));
                assert((y - 1) * width == y * width - width) by (nonlinear_arith);
                assert((y + 1) * width == y * width + width) by (nonlinear_arith);
            }
            let idx = y * width + x;
            let samples: [u8; 9] = [
                img[idx - width - 1],
                img[idx - width],
                img[idx - width + 1],
                img[idx - 1],
                img[idx],
                img[idx + 1],
                img[idx + width - 1],
                img[idx + width],
                img[idx + width + 1],
            ];
            let m = median9(&samples);
            proof {
                lemma_pixel_update(out@, width, height, (x, y), m);
            }
            out[idx] = m;
            x += 1;
        }
        y += 1;
    }
    proof {
        if uniform(img@) {
            assert forall|p: Point| in_grid(width, height, p) implies #[trigger] pixel(
                out@,
                width,
                p,
            ) == pixel(img@, width, p) by {
                if interior(width, height, p) {
                    let window = window3x3(img@, width, p);
                    let v = pixel(img@, width, p);
                    lemma_pixel_index_bounds(width, height, p);
                    assert forall|i: int| 0 <= i < window.len() implies window[i] == v by {
                        lemma_pixel_index_bounds(width, height, ((p.0 - 1) as usize, (p.1 - 1) as usize));
                        lemma_pixel_index_bounds(width, height, (p.0, (p.1 - 1) as usize));
                        lemma_pixel_index_bounds(width, height, ((p.0 + 1) as usize, (p.1 - 1) as usize));
                        lemma_pixel_index_bounds(width, height, ((p.0 - 1) as usize, p.1));
                        lemma_pixel_index_bounds(width, height, ((p.0 + 1) as usize, p.1));
                        lemma_pixel_index_bounds(width, height, ((p.0 - 1) as usize, (p.1 + 1) as usize));
                        lemma_pixel_index_bounds(width, height, (p.0, (p.1 + 1) as usize));
                        lemma_pixel_index_bounds(width, height, ((p.0 + 1) as usize, (p.1 + 1) as usize));
                    }
                    lemma_median_of_constant(window, v);
                }
            }
            lemma_equal_by_points(out@, img@, width, height);
        }
        lemma_filtered_by_points(img@, out@, width, height);
    }
    out
}

/// How often `v` occurs among the samples.
pub open spec fn occurrences(samples: Seq<u8>, v: u8) -> nat {
    samples.to_multiset().count(v)
}

/// `k` is the place of the sample that the mode is taken from: no value
/// occurs more often than the one at `k`, and every value seen before `k`
/// occurs less often.
pub open spec fn is_mode_index(samples: Seq<u8>, k: int) -> bool {
    &&& 0 <= k < samples.len()
    &&& forall|j: int|
        0 <= j < samples.len() ==> occurrences(samples, #[trigger] samples[j]) <= occurrences(
            samples,
            samples[k],
        )
    &&& forall|j: int|
        0 <= j < k ==> occurrences(samples, #[trigger] samples[j]) < occurrences(
            samples,
            samples[k],
        )
}

/// The value that occurs most often among the samples; of several such
/// values the one that is seen first.
pub open spec fn mode_of(samples: Seq<u8>) -> u8 {
    samples[choose|k: int| is_mode_index(samples, k)]
}

/// The bytes that the sample images hold at position `p`, in the order of
/// the images.
pub open spec fn column_of(images: Seq<Vec<u8>>, p: int) -> Seq<u8> {
    Seq::new(images.len(), |i: int| images[i]@[p])
}

/// Only one place can be the mode's, so the mode is the value there.
pub proof fn lemma_mode_index_unique(samples: Seq<u8>, k: int)
    requires
        is_mode_index(samples, k),
    ensures
        mode_of(samples) == samples[k],
{
}

/// The place of the mode among the first `n` samples.
proof fn lemma_mode_in_prefix(samples: Seq<u8>, n: int) -> (k: int)
    requires
        0 < n <= samples.len(),
    ensures
        0 <= k < n,
        forall|j: int|
            0 <= j < n ==> occurrences(samples, #[trigger] samples[j]) <= occurrences(
                samples,
                samples[k],
            ),
        forall|j: int|
            0 <= j < k ==> occurrences(samples, #[trigger] samples[j]) < occurrences(
                samples,
                samples[k],
            ),
    decreases n,
{
    if n == 1 {
        0
    } else {
        let k = lemma_mode_in_prefix(samples, n - 1);
        if occurrences(samples, samples[n - 1]) > occurrences(samples, samples[k]) {
            n - 1
        } else {
            k
        }
    }
}

/// Samples that are not empty have a mode.
pub proof fn lemma_mode_exists(samples: Seq<u8>)
    requires
        samples.len() > 0,
    ensures
        is_mode_index(samples, choose|k: int| is_mode_index(samples, k)),
        samples.contains(mode_of(samples)),
{
    let k = lemma_mode_in_prefix(samples, samples.len() as int);
    assert(is_mode_index(samples, k));
}

/// One more sample is one more occurrence of its value and of no other.
proof fn lemma_occurrences_push(samples: Seq<u8>, x: u8, v: u8)
    ensures
        occurrences(samples.push(x), v) == occurrences(samples, v) + if x == v {
            1nat
        } else {
            0nat
        },
{
    to_multiset_build(samples, x);
}

/// Two different values cannot both occur in more than half of the
/// samples.
proof fn lemma_two_values_bound(samples: Seq<u8>, a: u8, b: u8)
    requires
        a != b,
    ensures
        occurrences(samples, a) + occurrences(samples, b) <= samples.len(),
    decreases samples.len(),
{
    if samples.len() == 0 {
        vstd::seq_lib::to_multiset_len(samples);
        vstd::seq_lib::to_multiset_contains(samples, a);
        vstd::seq_lib::to_multiset_contains(samples, b);
    } else {
        let shorter = samples.drop_last();
        lemma_two_values_bound(shorter, a, b);
        assert(shorter.push(samples.last()) =~= samples);
        lemma_occurrences_push(shorter, samples.last(), a);
        lemma_occurrences_push(shorter, samples.last(), b);
    }
}

/// The mode of samples that are all `v` is `v`.
pub proof fn lemma_mode_of_identical(samples: Seq<u8>, v: u8)
    requires
        samples.len() > 0,
        forall|i: int| 0 <= i < samples.len() ==> samples[i] == v,
    ensures
        mode_of(samples) == v,
{
    lemma_mode_exists(samples);
}

/// A value that occurs in more than half of the samples is their mode.
pub proof fn lemma_mode_of_majority(samples: Seq<u8>, v: u8)
    requires
        2 * occurrences(samples, v) > samples.len(),
    ensures
        mode_of(samples) == v,
{
    vstd::seq_lib::to_multiset_contains(samples, v);
    let at = choose|i: int| 0 <= i < samples.len() && samples[i] == v;
    lemma_mode_exists(samples);
    let k = choose|k: int| is_mode_index(samples, k);
    if samples[k] != v {
        lemma_two_values_bound(samples, samples[k], v);
    }
}

/// What the counting table holds while one column is tallied: for each
/// byte value, how often it occurs among the first `i` samples.
spec fn tallied(counts: Seq<usize>, column: Seq<u8>, i: int) -> bool {
    &&& counts.len() == 256
    &&& forall|v: u8| counts[v as int] == #[trigger] occurrences(column.subrange(0, i), v)
}

/// What the counting table holds while it is cleared again: nothing for
/// the values among the first `i` samples, the full tally for the others.
spec fn cleared(counts: Seq<usize>, column: Seq<u8>, i: int) -> bool {
    &&& counts.len() == 256
    &&& forall|v: u8|
        counts[v as int] == if #[trigger] column.subrange(0, i).contains(v) {
            0nat
        } else {
            occurrences(column, v)
        }
}

/// The per-pixel, per-channel mode of the sample images: each byte of the
/// result is the value that most samples hold at that position; where
/// several values tie, the one that an earlier sample holds.
/// There is no result without samples.
pub fn mode(images: &[Vec<u8>]) -> (r: Option<Vec<u8>>)
    requires
        forall|i: int|
            0 <= i < images@.len() ==> (#[trigger] images@[i])@.len() == images@[0]@.len(),
    ensures
        r is None <==> images@.len() == 0,
        r matches Some(out) ==> {
            &&& out@.len() == images@[0]@.len()
            &&& forall|p: int|
                0 <= p < out@.len() ==> #[trigger] out@[p] == mode_of(column_of(images@, p))
            &&& (forall|i: int| 0 <= i < images@.len() ==> (#[trigger] images@[i])@ == images@[0]@)
                ==> out@ == images@[0]@
        },
{
    let n: usize = images.len();
    if n == 0 {
        return None;
    }
    let len: usize = images[0].len();
    let mut counts: Vec<usize> = Vec::with_capacity(256);
    let mut v: usize = 0;
    while v < 256
        invariant
            v <= 256,
            counts@.len() == v,
            forall|w: int| 0 <= w < v ==> counts@[w] == 0,
        decreases 256 - v,
    {
        counts.push(0);
        v += 1;
    }
    let mut out: Vec<u8> = Vec::with_capacity(len);
    let mut p: usize = 0;
    while p < len
        invariant
            n == images@.len(),
            n > 0,
            len == images@[0]@.len(),
            forall|i: int| 0 <= i < images@.len() ==> (#[trigger] images@[i])@.len() == len,
            p <= len,
            out@.len() == p,
            counts@.len() == 256,
            forall|w: int| 0 <= w < 256 ==> counts@[w] == 0,
            forall|t: int| 0 <= t < p ==> #[trigger] out@[t] == mode_of(column_of(images@, t)),
        decreases len - p,
    {
        let ghost column = column_of(images@, p as int);
        let mut i: usize = 0;
        proof {
            assert forall|w: u8| #[trigger] occurrences(column.subrange(0, 0), w) == 0 by {
                vstd::seq_lib::to_multiset_contains(column.subrange(0, 0), w);
            }
        }
        while i < n
            invariant
                n == images@.len(),
                forall|i: int| 0 <= i < images@.len() ==> (#[trigger] images@[i])@.len() == len,
                p < len,
                i <= n,
                column == column_of(images@, p as int),
                tallied(counts@, column, i as int),
            decreases n - i,
        {
            let value: u8 = images[i][p];
            proof {
                assert(column.subrange(0, i as int).push(value) =~= column.subrange(0, i + 1));
                assert forall|w: u8| #[trigger]
                    occurrences(column.subrange(0, i + 1), w) == occurrences(
                        column.subrange(0, i as int),
                        w,
                    ) + if value == w {
                        1nat
                    } else {
                        0nat
                    } by {
                    lemma_occurrences_push(column.subrange(0, i as int), value, w);
                }
                vstd::seq_lib::to_multiset_len(column.subrange(0, i + 1));
                lemma_two_values_bound(
                    column.subrange(0, i + 1),
                    value,
                    if value == 0 {
                        1u8
                    } else {
                        0u8
                    },
                );
            }
            let seen: usize = counts[value as usize];
            counts[value as usize] = seen + 1;
            i += 1;
        }
        proof {
            assert(column.subrange(0, n as int) =~= column);
        }
        let mut best: u8 = 0;
        let mut best_count: usize = 0;
        let ghost mut best_at: int = 0;
        i = 0;
        while i < n
            invariant
                n == images@.len(),
                forall|i: int| 0 <= i < images@.len() ==> (#[trigger] images@[i])@.len() == len,
                p < len,
                i <= n,
                column == column_of(images@, p as int),
                counts@.len() == 256,
                forall|w: u8| counts@[w as int] == #[trigger] occurrences(column, w),
                i == 0 ==> best_count == 0,
                0 <= best_at,
                i > 0 ==> best_at < i && best == column[best_at] && best_count == occurrences(
                    column,
                    best,
                ),
                forall|j: int|
                    0 <= j < i ==> occurrences(column, #[trigger] column[j]) <= best_count,
                forall|j: int|
                    0 <= j < best_at ==> occurrences(column, #[trigger] column[j]) < best_count,
            decreases n - i,
        {
            let value: u8 = images[i][p];
            let seen: usize = counts[value as usize];
            proof {
                assert(column[i as int] == value);
                vstd::seq_lib::to_multiset_contains(column, value);
            }
            if seen > best_count {
                best_count = seen;
                best = value;
                proof {
                    best_at = i as int;
                }
            }
            i += 1;
        }
        proof {
            assert(is_mode_index(column, best_at));
            lemma_mode_index_unique(column, best_at);
        }
        i = 0;
        while i < n
            invariant
                n == images@.len(),
                forall|i: int| 0 <= i < images@.len() ==> (#[trigger] images@[i])@.len() == len,
                p < len,
                i <= n,
                column == column_of(images@, p as int),
                cleared(counts@, column, i as int),
            decreases n - i,
        {
            let value: u8 = images[i][p];
            proof {
                let shorter = column.subrange(0, i as int);
                let longer = column.subrange(0, i + 1);
                assert(longer[i as int] == value);
                assert forall|w: u8| #[trigger]
                    longer.contains(w) <==> (shorter.contains(w) || w == value) by {
                    if shorter.contains(w) {
                        let at = choose|at: int| 0 <= at < shorter.len() && shorter[at] == w;
                        assert(longer[at] == w);
                    }
                    if longer.contains(w) && w != value {
                        let at = choose|at: int| 0 <= at < longer.len() && longer[at] == w;
                        assert(shorter[at] == w);
                    }
                }
            }
            counts[value as usize] = 0;
            i += 1;
        }
        proof {
            assert forall|w: int| 0 <= w < 256 implies counts@[w] == 0 by {
                let value = w as u8;
                vstd::seq_lib::to_multiset_contains(column, value);
                assert(counts@[value as int] == if column.subrange(0, n as int).contains(value) {
                    0nat
                } else {
                    occurrences(column, value)
                });
            }
        }
        out.push(best);
        p += 1;
    }
    proof {
        if forall|i: int| 0 <= i < images@.len() ==> (#[trigger] images@[i])@ == images@[0]@ {
            assert forall|t: int| 0 <= t < out@.len() implies out@[t] == images@[0]@[t] by {
                let column = column_of(images@, t);
                assert forall|i: int| 0 <= i < column.len() implies column[i] == images@[0]@[t] by {
                }
                lemma_mode_of_identical(column, images@[0]@[t]);
            }
        }
    }
    Some(out)
}

} // verus!
