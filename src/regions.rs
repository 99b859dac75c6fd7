//! Pass two of the segmentation: the one box around every pixel of a frame
//! that differs from its scene's background, cropped from the frame.
use vstd::prelude::*;

use crate::frame::{crop_pixels, lemma_index_decompose, Rgba, RgbaFrame};
use crate::segmenter::{is_changed, pixel_difference};

verus! {

/// Settings of the encoder.
#[derive(Debug, Clone, Copy)]
pub struct EncoderConfig {
    /// Quality of the still images, 0 to 100.
    pub quality: u8,
    /// A pixel counts as changed when its difference exceeds this value.
    pub threshold: u8,
    /// Boxes of fewer pixels are dropped as noise.
    pub min_region_size: u32,
}

impl Default for EncoderConfig {
    fn default() -> (r: Self)
        ensures
            r.quality == 80,
            r.threshold == 30,
            r.min_region_size == 64,
    {
        EncoderConfig { quality: 80, threshold: 30, min_region_size: 64 }
    }
}

/// A changed area of a frame: its top-left corner and its pixels.
#[derive(Debug, Clone)]
pub struct DiffRegion {
    pub x: u32,
    pub y: u32,
    pub image: RgbaFrame,
}

pub open spec fn is_set(mask: Seq<Vec<bool>>, x: int, y: int) -> bool {
    0 <= y < mask.len() && 0 <= x < mask[y]@.len() && mask[y]@[x]
}

/// Smallest and largest column and row of the set cells of `mask`; with no
/// set cell, the width of the first row, the number of rows, 0 and 0.
pub fn find_bounding_box(mask: &[Vec<bool>]) -> (r: (u32, u32, u32, u32))
    requires
        mask@.len() <= u32::MAX,
        forall|y: int| 0 <= y < mask@.len() ==> (#[trigger] mask@[y])@.len() <= u32::MAX,
    ensures
        ({
            let m = mask@;
            let w = if m.len() > 0 {
                m[0]@.len() as int
            } else {
                0
            };
            &&& forall|x: int, y: int|
                #[trigger] is_set(m, x, y) ==> r.0 <= x <= r.2 && r.1 <= y <= r.3
            &&& r.0 <= w && r.1 <= m.len()
            &&& r.0 == w || exists|y: int| #[trigger] is_set(m, r.0 as int, y)
            &&& r.1 == m.len() || exists|x: int| #[trigger] is_set(m, x, r.1 as int)
            &&& r.2 == 0 || exists|y: int| #[trigger] is_set(m, r.2 as int, y)
            &&& r.3 == 0 || exists|x: int| #[trigger] is_set(m, x, r.3 as int)
        }),
{
    let height = mask.len();
    let width = if height > 0 {
        mask[0].len()
    } else {
        0
    };
    let mut min_x = width;
    let mut min_y = height;
    let mut max_x: usize = 0;
    let mut max_y: usize = 0;
    let mut y: usize = 0;
    while y < height
        invariant
            height == mask@.len(),
            width == if height > 0 {
                mask@[0]@.len() as int
            } else {
                0
            },
            y <= height,
            height <= u32::MAX,
            forall|x: int, j: int|
                0 <= j < y && #[trigger] is_set(mask@, x, j) ==> min_x <= x <= max_x && min_y <= j
                    <= max_y,
            min_x <= width && min_y <= height,
            max_x <= u32::MAX && max_y <= u32::MAX,
            min_x == width || exists|j: int| #[trigger] is_set(mask@, min_x as int, j),
            min_y == height || exists|x: int| #[trigger] is_set(mask@, x, min_y as int),
            max_x == 0 || exists|j: int| #[trigger] is_set(mask@, max_x as int, j),
            max_y == 0 || exists|x: int| #[trigger] is_set(mask@, x, max_y as int),
            forall|j: int| 0 <= j < mask@.len() ==> (#[trigger] mask@[j])@.len() <= u32::MAX,
        decreases height - y,
    {
        let row = &mask[y];
        let mut x: usize = 0;
        while x < row.len()
            invariant
                height == mask@.len(),
                y < height,
                row == mask@[y as int],
                x <= row@.len(),
                forall|i: int, j: int|
                    ((0 <= j < y) || (j == y && 0 <= i < x)) && #[trigger] is_set(mask@, i, j)
                        ==> min_x <= i <= max_x && min_y <= j <= max_y,
                min_x <= width && min_y <= height,
                max_x <= u32::MAX && max_y <= u32::MAX,
                row@.len() <= u32::MAX,
                height <= u32::MAX,
                min_x == width || exists|j: int| #[trigger] is_set(mask@, min_x as int, j),
                min_y == height || exists|i: int| #[trigger] is_set(mask@, i, min_y as int),
                max_x == 0 || exists|j: int| #[trigger] is_set(mask@, max_x as int, j),
                max_y == 0 || exists|i: int| #[trigger] is_set(mask@, i, max_y as int),
            decreases row@.len() - x,
        {
            if row[x] {
                assert(is_set(mask@, x as int, y as int));
                if x < min_x {
                    min_x = x;
                }
                if y < min_y {
                    min_y = y;
                }
                if x > max_x {
                    max_x = x;
                }
                if y > max_y {
                    max_y = y;
                }
            }
            x = x + 1;
        }
        proof {
            assert forall|i: int, j: int|
                0 <= j < y + 1 && #[trigger] is_set(mask@, i, j) implies min_x <= i <= max_x
                && min_y <= j <= max_y by {
                if j == y {
                    assert(i < x);
                }
            }
        }
        y = y + 1;
    }
    (min_x as u32, min_y as u32, max_x as u32, max_y as u32)
}

/// Pixel `(x, y)` lies in the background's area and differs from it by
/// more than `threshold` in `f`.
pub open spec fn changed_in(bg: RgbaFrame, f: RgbaFrame, threshold: u8, x: int, y: int) -> bool {
    0 <= x < bg.width && 0 <= y < bg.height && is_changed(bg, f, x, y, threshold)
}

/// `(x0, y0)`–`(x1, y1)`, both corners included, is the smallest box that
/// holds every changed pixel.
pub open spec fn is_change_box(
    bg: RgbaFrame,
    f: RgbaFrame,
    threshold: u8,
    x0: int,
    y0: int,
    x1: int,
    y1: int,
) -> bool {
    &&& forall|x: int, y: int| #[trigger]
        changed_in(bg, f, threshold, x, y) ==> x0 <= x <= x1 && y0 <= y <= y1
    &&& exists|y: int| #[trigger] changed_in(bg, f, threshold, x0, y)
    &&& exists|y: int| #[trigger] changed_in(bg, f, threshold, x1, y)
    &&& exists|x: int| #[trigger] changed_in(bg, f, threshold, x, y0)
    &&& exists|x: int| #[trigger] changed_in(bg, f, threshold, x, y1)
}

/// `img` holds the pixels of `f` from `(x0, y0)` on.
pub open spec fn is_crop(img: RgbaFrame, f: RgbaFrame, x0: int, y0: int) -> bool {
    &&& img.wf()
    &&& forall|x: int, y: int|
        0 <= x < img.width && 0 <= y < img.height ==> #[trigger] img.pixel(x, y) == f.pixel(
            x0 + x,
            y0 + y,
        )
}

/// A crop of `f` holds the bytes of that area of `f`.
pub proof fn lemma_crop_bytes(img: RgbaFrame, f: RgbaFrame, x0: int, y0: int)
    requires
        is_crop(img, f, x0, y0),
    ensures
        img.pixels@ == crop_pixels(f, x0, y0, img.width as int, img.height as int),
{
    let w = img.width as int;
    let h = img.height as int;
    let c = crop_pixels(f, x0, y0, w, h);
    assert forall|k: int| 0 <= k < img.pixels@.len() implies img.pixels@[k] == c[k] by {
        lemma_index_decompose(k, w, h);
        let x = (k / 4) % w;
        let y = (k / 4) / w;
        assert(img.pixel(x, y) == f.pixel(x0 + x, y0 + y));
    }
    assert(img.pixels@ =~= c);
}

/// The smallest box around the changed pixels, unless none changed or the
/// box holds fewer than `min_size` pixels.
pub open spec fn diff_box(bg: RgbaFrame, f: RgbaFrame, threshold: u8, min_size: u32) -> Option<
    (int, int, int, int),
> {
    if exists|b: (int, int, int, int)| is_change_box(bg, f, threshold, b.0, b.1, b.2, b.3) {
        let b = choose|b: (int, int, int, int)| is_change_box(bg, f, threshold, b.0, b.1, b.2, b.3);
        if (b.2 - b.0 + 1) * (b.3 - b.1 + 1) < min_size {
            None
        } else {
            Some(b)
        }
    } else {
        None
    }
}

/// The region's corner and size are those of the smallest box around the
/// changed pixels.
pub open spec fn box_of_changes(reg: DiffRegion, bg: RgbaFrame, f: RgbaFrame, threshold: u8) -> bool {
    exists|x1: int, y1: int|
        {
            &&& #[trigger] is_change_box(bg, f, threshold, reg.x as int, reg.y as int, x1, y1)
            &&& reg.image.width == x1 - reg.x + 1
            &&& reg.image.height == y1 - reg.y + 1
        }
}

/// A region holds at least one pixel each way.
pub proof fn lemma_box_nonempty(reg: DiffRegion, bg: RgbaFrame, f: RgbaFrame, threshold: u8)
    requires
        box_of_changes(reg, bg, f, threshold),
    ensures
        reg.image.width > 0,
        reg.image.height > 0,
{
    let (x1, y1) = choose|x1: int, y1: int|
        {
            &&& #[trigger] is_change_box(bg, f, threshold, reg.x as int, reg.y as int, x1, y1)
            &&& reg.image.width == x1 - reg.x + 1
            &&& reg.image.height == y1 - reg.y + 1
        };
    let y = choose|y: int| #[trigger] changed_in(bg, f, threshold, reg.x as int, y);
    let x = choose|x: int| #[trigger] changed_in(bg, f, threshold, x, reg.y as int);
}

/// At most one box is the smallest around the changed pixels.
pub proof fn lemma_change_box_unique(
    bg: RgbaFrame,
    f: RgbaFrame,
    threshold: u8,
    a: (int, int, int, int),
    b: (int, int, int, int),
)
    requires
        is_change_box(bg, f, threshold, a.0, a.1, a.2, a.3),
        is_change_box(bg, f, threshold, b.0, b.1, b.2, b.3),
    ensures
        a == b,
{
    let ya = choose|y: int| #[trigger] changed_in(bg, f, threshold, a.0, y);
    let yb = choose|y: int| #[trigger] changed_in(bg, f, threshold, b.0, y);
    let ya2 = choose|y: int| #[trigger] changed_in(bg, f, threshold, a.2, y);
    let yb2 = choose|y: int| #[trigger] changed_in(bg, f, threshold, b.2, y);
    let xa = choose|x: int| #[trigger] changed_in(bg, f, threshold, x, a.1);
    let xb = choose|x: int| #[trigger] changed_in(bg, f, threshold, x, b.1);
    let xa3 = choose|x: int| #[trigger] changed_in(bg, f, threshold, x, a.3);
    let xb3 = choose|x: int| #[trigger] changed_in(bg, f, threshold, x, b.3);
}

/// The changed area of `frame` against `background`: `None` when no pixel
/// changed or when the box around the changed pixels has fewer than
/// `min_region_size` pixels; otherwise that box, cropped from `frame`.
pub fn find_diff_regions(config: &EncoderConfig, background: &RgbaFrame, frame: &RgbaFrame) -> (r:
    Option<DiffRegion>)
    requires
        background.wf(),
        frame.wf(),
        background.width <= frame.width,
        background.height <= frame.height,
    ensures
        r is None <==> (forall|x: int, y: int|
            !#[trigger] changed_in(*background, *frame, config.threshold, x, y)) || exists|
            x0: int,
            y0: int,
            x1: int,
            y1: int,
        |
            is_change_box(*background, *frame, config.threshold, x0, y0, x1, y1) && (x1 - x0 + 1)
                * (y1 - y0 + 1) < config.min_region_size,
        r matches Some(reg) ==> box_of_changes(reg, *background, *frame, config.threshold),
        r matches Some(reg) ==> reg.image.width * reg.image.height >= config.min_region_size,
        r matches Some(reg) ==> is_crop(reg.image, *frame, reg.x as int, reg.y as int),
        r is None <==> diff_box(*background, *frame, config.threshold, config.min_region_size) is None,
        r matches Some(reg) ==> diff_box(*background, *frame, config.threshold, config.min_region_size)
            == Some((reg.x as int, reg.y as int, reg.x + reg.image.width - 1, reg.y + reg.image.height - 1)),
        r matches Some(reg) ==> reg.image.pixels@ == crop_pixels(
            *frame,
            reg.x as int,
            reg.y as int,
            reg.image.width as int,
            reg.image.height as int,
        ),
{
    let ghost bg = *background;
    let ghost f = *frame;
    let threshold = config.threshold;
    let width = background.width;
    let height = background.height;
    let mut mask: Vec<Vec<bool>> = Vec::new();
    let mut has_diff = false;
    let mut y: u32 = 0;
    while y < height
        invariant
            bg == *background,
            f == *frame,
            width == bg.width,
            height == bg.height,
            bg.wf(),
            f.wf(),
            bg.width <= f.width,
            bg.height <= f.height,
            y <= height,
            mask@.len() == y,
            forall|j: int| 0 <= j < y ==> (#[trigger] mask@[j])@.len() == width,
            forall|i: int, j: int| #[trigger]
                is_set(mask@, i, j) <==> (j < y && changed_in(bg, f, threshold, i, j)),
            has_diff <==> exists|i: int, j: int| #[trigger] is_set(mask@, i, j),
        decreases height - y,
    {
        let mut row: Vec<bool> = Vec::new();
        let mut x: u32 = 0;
        while x < width
            invariant
                bg == *background,
                f == *frame,
                width == bg.width,
                height == bg.height,
                bg.wf(),
                f.wf(),
                bg.width <= f.width,
                bg.height <= f.height,
                y < height,
                x <= width,
                row@.len() == x,
                forall|i: int| 0 <= i < x ==> #[trigger] row@[i] == changed_in(bg, f, threshold, i, y as int),
                has_diff <==> (exists|i: int, j: int| #[trigger] is_set(mask@, i, j)) || exists|i: int|
                    0 <= i < x && #[trigger] row@[i],
            decreases width - x,
        {
            let d = pixel_difference(background.get_pixel(x, y), frame.get_pixel(x, y));
            let ghost old_row = row@;
            row.push(d > threshold);
            if d > threshold {
                has_diff = true;
            }
            proof {
                assert(row@[x as int] == (d > threshold));
                assert(row@ == old_row.push(d > threshold));
                if d > threshold {
                    assert(0 <= x < x + 1 && row@[x as int]);
                } else {
                    if exists|i: int| 0 <= i < x && #[trigger] old_row[i] {
                        let i = choose|i: int| 0 <= i < x && #[trigger] old_row[i];
                        assert(row@[i]);
                    }
                    if exists|i: int| 0 <= i < x + 1 && #[trigger] row@[i] {
                        let i = choose|i: int| 0 <= i < x + 1 && #[trigger] row@[i];
                        assert(old_row[i]);
                    }
                }
            }
            x = x + 1;
        }
        let ghost before = mask@;
        mask.push(row);
        proof {
            assert forall|i: int, j: int| #[trigger]
                is_set(mask@, i, j) <==> (j < y + 1 && changed_in(bg, f, threshold, i, j)) by {
                if 0 <= j < y {
                    assert(mask@[j] == before[j]);
                    assert(is_set(mask@, i, j) == is_set(before, i, j));
                }
            }
            if has_diff {
                if exists|i: int, j: int| #[trigger] is_set(before, i, j) {
                    let (i, j) = choose|i: int, j: int| #[trigger] is_set(before, i, j);
                    assert(mask@[j] == before[j]);
                    assert(is_set(mask@, i, j));
                } else {
                    let i = choose|i: int| 0 <= i < x && #[trigger] row@[i];
                    assert(is_set(mask@, i, y as int));
                }
            } else {
                assert forall|i: int, j: int| !#[trigger] is_set(mask@, i, j) by {
                    if 0 <= j < y {
                        assert(mask@[j] == before[j]);
                        assert(is_set(mask@, i, j) == is_set(before, i, j));
                    }
                    if j == y && 0 <= i < x {
                        assert(!row@[i]);
                    }
                }
            }
        }
        y = y + 1;
    }
    if !has_diff {
        proof {
            assert forall|x: int, y: int| !#[trigger] changed_in(bg, f, threshold, x, y) by {
                assert(!is_set(mask@, x, y));
            }
            if exists|b: (int, int, int, int)| is_change_box(bg, f, threshold, b.0, b.1, b.2, b.3) {
                let b = choose|b: (int, int, int, int)|
                    is_change_box(bg, f, threshold, b.0, b.1, b.2, b.3);
                let y = choose|y: int| #[trigger] changed_in(bg, f, threshold, b.0, y);
            }
        }
        return None;
    }
    let (min_x, min_y, max_x, max_y) = find_bounding_box(mask.as_slice());
    proof {
        let (i, j) = choose|i: int, j: int| #[trigger] is_set(mask@, i, j);
        assert(changed_in(bg, f, threshold, i, j));
        assert(min_x <= i <= max_x && min_y <= j <= max_y);
        assert(mask@[0]@.len() == width);
        if max_x == 0 {
            assert(is_set(mask@, 0, j));
        }
        if max_y == 0 {
            assert(is_set(mask@, i, 0));
        }
        assert forall|x: int, y: int| #[trigger]
            changed_in(bg, f, threshold, x, y) implies min_x <= x <= max_x && min_y <= y <= max_y by {
            assert(is_set(mask@, x, y));
        }
        let ya = choose|y: int| #[trigger] is_set(mask@, min_x as int, y);
        assert(changed_in(bg, f, threshold, min_x as int, ya));
        let yb = choose|y: int| #[trigger] is_set(mask@, max_x as int, y);
        assert(changed_in(bg, f, threshold, max_x as int, yb));
        let xa = choose|x: int| #[trigger] is_set(mask@, x, min_y as int);
        assert(changed_in(bg, f, threshold, xa, min_y as int));
        let xb = choose|x: int| #[trigger] is_set(mask@, x, max_y as int);
        assert(changed_in(bg, f, threshold, xb, max_y as int));
        assert(is_change_box(
            bg,
            f,
            threshold,
            min_x as int,
            min_y as int,
            max_x as int,
            max_y as int,
        ));
    }
    let region_width = max_x - min_x + 1;
    let region_height = max_y - min_y + 1;
    let pixel_bytes = background.pixels.len();
    proof {
        assert(region_width * region_height <= 0xFFFF_FFFE_0000_0001) by (nonlinear_arith)
            requires
                region_width <= u32::MAX,
                region_height <= u32::MAX,
        ;
    }
    let ghost ours = (min_x as int, min_y as int, max_x as int, max_y as int);
    proof {
        let b = choose|b: (int, int, int, int)| is_change_box(bg, f, threshold, b.0, b.1, b.2, b.3);
        lemma_change_box_unique(bg, f, threshold, b, ours);
    }
    if (region_width as u64) * (region_height as u64) < config.min_region_size as u64 {
        return None;
    }
    proof {
        assert forall|x0: int, y0: int, x1: int, y1: int|
            is_change_box(bg, f, threshold, x0, y0, x1, y1) implies !((x1 - x0 + 1) * (y1 - y0 + 1)
            < config.min_region_size) by {
            lemma_change_box_unique(
                bg,
                f,
                threshold,
                (x0, y0, x1, y1),
                (min_x as int, min_y as int, max_x as int, max_y as int),
            );
        }
        assert(region_width * region_height * 4 <= width * height * 4) by (nonlinear_arith)
            requires
                region_width <= width,
                region_height <= height,
        ;
    }
    let mut image = RgbaFrame::from_pixel(region_width, region_height, Rgba { r: 0, g: 0, b: 0, a: 0 });
    let mut yy: u32 = 0;
    while yy < region_height
        invariant
            f == *frame,
            f.wf(),
            image.wf(),
            image.width == region_width,
            image.height == region_height,
            min_x + region_width <= f.width,
            min_y + region_height <= f.height,
            yy <= region_height,
            forall|i: int, j: int|
                0 <= i < region_width && 0 <= j < yy ==> #[trigger] image.pixel(i, j) == f.pixel(
                    min_x + i,
                    min_y + j,
                ),
        decreases region_height - yy,
    {
        let mut xx: u32 = 0;
        while xx < region_width
            invariant
                f == *frame,
                f.wf(),
                image.wf(),
                image.width == region_width,
                image.height == region_height,
                min_x + region_width <= f.width,
                min_y + region_height <= f.height,
                yy < region_height,
                xx <= region_width,
                forall|i: int, j: int|
                    0 <= i < region_width && (0 <= j < yy || (j == yy && i < xx))
                        ==> #[trigger] image.pixel(i, j) == f.pixel(min_x + i, min_y + j),
            decreases region_width - xx,
        {
            let px = frame.get_pixel(min_x + xx, min_y + yy);
            image.put_pixel(xx, yy, px);
            xx = xx + 1;
        }
        yy = yy + 1;
    }
    let region = DiffRegion { x: min_x, y: min_y, image };
    assert(is_change_box(bg, f, threshold, region.x as int, region.y as int, max_x as int, max_y as int)
        && region.image.width == max_x - region.x + 1 && region.image.height == max_y - region.y + 1);
    assert(box_of_changes(region, bg, f, threshold));
    proof {
        lemma_crop_bytes(region.image, f, min_x as int, min_y as int);
    }
    Some(region)
}

} // verus!
