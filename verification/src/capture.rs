//! Geometry between a captured screen buffer, the active area cut out of
//! it, and the reduced image that the detector works on.

use vstd::prelude::*;
use crate::grid::{lemma_pixel_index_injective, pixel_index};
use crate::img::{Rectangle, IMAGE_DOWNSCALE_FACTOR};

verus! {

/// Where the four bytes of the screen pixel start that lies `x` columns and
/// `y` rows into `rectangle`, in a buffer whose rows hold `stride` pixels.
pub open spec fn source_index(stride: usize, rectangle: Rectangle<usize>, x: int, y: int) -> int {
    4 * (stride * (rectangle.top + y) + rectangle.left + x)
}

/// Where the three bytes of pixel `(x, y)` start in the copy.
pub open spec fn target_index(width: usize, x: int, y: int) -> int {
    3 * (width * y + x)
}

/// The copy holds, for every pixel of the rectangle, the first three
/// bytes of the screen pixel in reverse order.
pub open spec fn copied(
    data: Seq<u8>,
    stride: usize,
    rectangle: Rectangle<usize>,
    out: Seq<u8>,
    rows: int,
    columns_of_last: int,
) -> bool {
    forall|x: int, y: int|
        0 <= x < rectangle.width && 0 <= y && (y < rows || (y == rows && x < columns_of_last)) ==> {
            let t = #[trigger] target_index(rectangle.width, x, y);
            let s = source_index(stride, rectangle, x, y);
            &&& out[t] == data[s + 2]
            &&& out[t + 1] == data[s + 1]
            &&& out[t + 2] == data[s]
        }
}

/// The indices of a pixel of the rectangle lie within the two buffers.
proof fn lemma_copy_indices(
    data_len: int,
    stride: usize,
    rectangle: Rectangle<usize>,
    x: usize,
    y: usize,
)
    requires
        x < rectangle.width,
        y < rectangle.height,
        3 * rectangle.width * rectangle.height <= usize::MAX,
        rectangle.top + rectangle.height - 1 <= usize::MAX,
        source_index(stride, rectangle, rectangle.width - 1, rectangle.height - 1) + 2 < data_len,
        data_len <= usize::MAX,
    ensures
        0 <= rectangle.width * y <= rectangle.width * y + x < rectangle.width * rectangle.height,
        0 <= target_index(rectangle.width, x as int, y as int),
        target_index(rectangle.width, x as int, y as int) + 2 < 3 * rectangle.width
            * rectangle.height,
        0 <= stride * (rectangle.top + y) <= stride * (rectangle.top + y) + rectangle.left + x,
        0 <= source_index(stride, rectangle, x as int, y as int),
        source_index(stride, rectangle, x as int, y as int) + 2 < data_len,
{
    let w = rectangle.width as int;
    let h = rectangle.height as int;
    let top = rectangle.top as int;
    assert(w * y + w <= w * h && 0 <= w * y) by (nonlinear_arith)
        requires
            0 <= y < h,
            0 <= w,
    ;
    assert(3 * w * h == 3 * (w * h)) by (nonlinear_arith);
    assert(0 <= stride * (top + y) <= stride * (top + h - 1)) by (nonlinear_arith)
        requires
            0 <= y < h,
            0 <= top,
            0 <= stride,
    ;
}

/// Cuts `rectangle` out of a captured screen and turns its pixels from
/// four bytes in the order blue, green, red into three in the order red,
/// green, blue. `stride` is the number of pixels in one row of the screen.
pub fn copy_rectangle_bgr_to_rgb(data: &[u8], stride: usize, rectangle: &Rectangle<usize>) -> (r:
    Vec<u8>)
    requires
        3 * rectangle.width <= usize::MAX,
        3 * rectangle.width * rectangle.height <= usize::MAX,
        rectangle.width > 0 && rectangle.height > 0 ==> rectangle.top + rectangle.height - 1
            <= usize::MAX && source_index(
            stride,
            *rectangle,
            rectangle.width - 1,
            rectangle.height - 1,
        ) + 2 < data@.len(),
    ensures
        r@.len() == 3 * rectangle.width * rectangle.height,
        copied(data@, stride, *rectangle, r@, rectangle.height as int, 0),
{
    let width = rectangle.width;
    let height = rectangle.height;
    let size: usize = 3 * width * height;
    let mut r: Vec<u8> = Vec::with_capacity(size);
    let mut n: usize = 0;
    while n < size
        invariant
            n <= size,
            r@.len() == n,
        decreases size - n,
    {
        r.push(0);
        n += 1;
    }
    let mut y: usize = 0;
    while y < height
        invariant
            width == rectangle.width,
            height == rectangle.height,
            3 * width * height <= usize::MAX,
            width > 0 && height > 0 ==> rectangle.top + height - 1 <= usize::MAX && source_index(
                stride,
                *rectangle,
                width - 1,
                height - 1,
            ) + 2 < data@.len(),
            y <= height,
            r@.len() == 3 * width * height,
            copied(data@, stride, *rectangle, r@, y as int, 0),
        decreases height - y,
    {
        let mut x: usize = 0;
        while x < width
            invariant
                width == rectangle.width,
                height == rectangle.height,
                3 * width * height <= usize::MAX,
                width > 0 && height > 0 ==> rectangle.top + height - 1 <= usize::MAX
                    && source_index(stride, *rectangle, width - 1, height - 1) + 2 < data@.len(),
                y < height,
                x <= width,
                r@.len() == 3 * width * height,
                copied(data@, stride, *rectangle, r@, y as int, x as int),
            decreases width - x,
        {
            proof {
                assert(data.len() == data@.len());
                lemma_copy_indices(data@.len() as int, stride, *rectangle, x, y);
            }
            let idx_dst = 3 * (width * y + x);
            let idx_src = 4 * (stride * (rectangle.top + y) + rectangle.left + x);
            r[idx_dst] = data[idx_src + 2];
            r[idx_dst + 1] = data[idx_src + 1];
            r[idx_dst + 2] = data[idx_src];
            proof {
                assert forall|a: int, b: int|
                    0 <= a < width && 0 <= b && (b < y || (b == y && a < x + 1)) implies {
                    let t = #[trigger] target_index(width, a, b);
                    let s = source_index(stride, *rectangle, a, b);
                    &&& r@[t] == data@[s + 2]
                    &&& r@[t + 1] == data@[s + 1]
                    &&& r@[t + 2] == data@[s]
                } by {
                    if a != x || b != y {
                        let t = target_index(width, a, b);
                        lemma_copy_indices(
                            data@.len() as int,
                            stride,
                            *rectangle,
                            a as usize,
                            b as usize,
                        );
                        if pixel_index(width, (a as usize, b as usize)) == pixel_index(
                            width,
                            (x, y),
                        ) {
                            lemma_pixel_index_injective(width, (a as usize, b as usize), (x, y));
                        }
                        assert(width * b == b * width) by (nonlinear_arith);
                        assert(width * y == y * width) by (nonlinear_arith);
                    }
                }
            }
            x += 1;
        }
        proof {
            assert forall|a: int, b: int|
                0 <= a < width && 0 <= b && (b < y + 1 || (b == y + 1 && a < 0)) implies {
                let t = #[trigger] target_index(width, a, b);
                let s = source_index(stride, *rectangle, a, b);
                &&& r@[t] == data@[s + 2]
                &&& r@[t + 1] == data@[s + 1]
                &&& r@[t + 2] == data@[s]
            } by {
            }
        }
        y += 1;
    }
    r
}

/// Maps a rectangle of the reduced image to screen coordinates: scaled
/// back up by the reduction factor and moved by the active area's corner.
pub fn active_pixel_to_screen(rectangle: &Rectangle<usize>, active_area: &Rectangle<usize>) -> (r:
    Rectangle<usize>)
    requires
        active_area.left + rectangle.left * IMAGE_DOWNSCALE_FACTOR <= usize::MAX,
        active_area.top + rectangle.top * IMAGE_DOWNSCALE_FACTOR <= usize::MAX,
        IMAGE_DOWNSCALE_FACTOR * rectangle.width <= usize::MAX,
        IMAGE_DOWNSCALE_FACTOR * rectangle.height <= usize::MAX,
    ensures
        r.left == active_area.left + rectangle.left * IMAGE_DOWNSCALE_FACTOR,
        r.top == active_area.top + rectangle.top * IMAGE_DOWNSCALE_FACTOR,
        r.width == IMAGE_DOWNSCALE_FACTOR * rectangle.width,
        r.height == IMAGE_DOWNSCALE_FACTOR * rectangle.height,
{
    let left = active_area.left + rectangle.left * IMAGE_DOWNSCALE_FACTOR;
    let top = active_area.top + rectangle.top * IMAGE_DOWNSCALE_FACTOR;
    let width = IMAGE_DOWNSCALE_FACTOR * rectangle.width;
    let height = IMAGE_DOWNSCALE_FACTOR * rectangle.height;
    Rectangle { left, top, width, height }
}

} // verus!
