//! Animations of traces: every recorded read and write becomes frames in
//! which the images of the trace are laid side by side on one canvas.

use vstd::prelude::*;
use crate::image::{gray_to_rgb, GrayImage, ImageBuffer, RgbImage, Zero};
use crate::trace::{Action, ActiveRegion, Trace};

verus! {

/// The blue tint added to highlight a pixel of value `c`.
pub open spec fn tint_of(c: u8) -> u8 {
    ((255 - c) / 3) as u8
}

pub fn compute_tint(c: u8) -> (r: u8)
    ensures
        r == tint_of(c),
        c + r <= 255,
{
    (255 - c) / 3
}

/// `image` scaled up by `factor`: each pixel becomes a `factor` by
/// `factor` block.
pub fn upscale<T: Copy + Zero>(image: &ImageBuffer<T>, factor: u8) -> (r: ImageBuffer<T>)
    requires
        factor * image.spec_width() <= usize::MAX,
        factor * image.spec_height() <= usize::MAX,
        factor * image.spec_width() * (factor * image.spec_height()) <= usize::MAX,
    ensures
        r.spec_width() == factor * image.spec_width(),
        r.spec_height() == factor * image.spec_height(),
        forall|x: int, y: int|
            #![trigger r.pixel(x, y)]
            0 <= x < r.spec_width() && 0 <= y < r.spec_height() ==> r.pixel(x, y) == image.pixel(
                x / factor as int,
                y / factor as int,
            ),
{
    let f = factor as usize;
    let (w0, h0) = image.dimensions();
    let w = f * w0;
    let h = f * h0;
    let mut result: ImageBuffer<T> = ImageBuffer::new(w, h);
    let mut y: usize = 0;
    while y < h
        invariant
            f == factor,
            w == f * image.spec_width(),
            h == f * image.spec_height(),
            y <= h,
            result.spec_width() == w,
            result.spec_height() == h,
            result.spec_data().len() == w * h,
            forall|px: int, py: int|
                #![trigger result.pixel(px, py)]
                0 <= px < w && 0 <= py < y ==> result.pixel(px, py) == image.pixel(
                    px / factor as int,
                    py / factor as int,
                ),
        decreases h - y,
    {
        let mut x: usize = 0;
        while x < w
            invariant
                f == factor,
                w == f * image.spec_width(),
                h == f * image.spec_height(),
                y < h,
                x <= w,
                result.spec_width() == w,
                result.spec_height() == h,
                result.spec_data().len() == w * h,
                forall|px: int, py: int|
                    #![trigger result.pixel(px, py)]
                    0 <= px < w && 0 <= py < h && (py < y || (py == y && px < x)) ==> result.pixel(px, py)
                        == image.pixel(px / factor as int, py / factor as int),
            decreases w - x,
        {
            assert(f > 0) by (nonlinear_arith)
                requires
                    x < w,
                    w == f * image.spec_width(),
            ;
            proof {
                assert(x / f < image.spec_width() && y / f < image.spec_height()) by (nonlinear_arith)
                    requires
                        f > 0,
                        x < f * image.spec_width(),
                        y < f * image.spec_height(),
                ;
            }
            let v = image.get(x / f, y / f);
            let ghost before = result;
            proof {
                crate::image::lemma_offset_distinct(x as int, y as int, x as int, y as int, w as int, h as int);
            }
            result.set(x, y, v);
            proof {
                assert forall|px: int, py: int|
                    #![trigger result.pixel(px, py)]
                    0 <= px < w && 0 <= py < h && (py < y || (py == y && px < x + 1)) implies result.pixel(
                        px,
                        py,
                    ) == image.pixel(px / factor as int, py / factor as int) by {
                    crate::image::lemma_offset_distinct(px, py, x as int, y as int, w as int, h as int);
                    if !(px == x && py == y) {
                        assert(result.pixel(px, py) == before.pixel(px, py));
                    }
                }
            }
            x = x + 1;
        }
        y = y + 1;
    }
    result
}

/// The total width of the first `n` images.
pub open spec fn sum_widths(d: Seq<(usize, usize)>, n: int) -> int
    decreases n,
{
    if n <= 0 {
        0
    } else {
        sum_widths(d, n - 1) + d[n - 1].0
    }
}

/// The greatest height among the first `n` images.
pub open spec fn max_height(d: Seq<(usize, usize)>, n: int) -> int
    decreases n,
{
    if n <= 0 {
        0
    } else if max_height(d, n - 1) >= d[n - 1].1 {
        max_height(d, n - 1)
    } else {
        d[n - 1].1 as int
    }
}

proof fn lemma_sum_widths_monotone(d: Seq<(usize, usize)>, i: int, n: int)
    requires
        0 <= i <= n <= d.len(),
    ensures
        0 <= sum_widths(d, i) <= sum_widths(d, n),
        i < n ==> sum_widths(d, i) + d[i].0 <= sum_widths(d, n),
    decreases n - i,
{
    if i < n {
        lemma_sum_widths_monotone(d, i, n - 1);
        if i < n - 1 {
            lemma_sum_widths_monotone(d, i + 1, n - 1);
        }
    }
    lemma_sum_widths_nonneg(d, i);
}

proof fn lemma_sum_widths_nonneg(d: Seq<(usize, usize)>, n: int)
    ensures
        sum_widths(d, n) >= 0,
    decreases n,
{
    if n > 0 {
        lemma_sum_widths_nonneg(d, n - 1);
    }
}

proof fn lemma_max_height(d: Seq<(usize, usize)>, i: int, n: int)
    requires
        0 <= i < n <= d.len(),
    ensures
        d[i].1 <= max_height(d, n),
    decreases n,
{
    if i < n - 1 {
        lemma_max_height(d, i, n - 1);
    }
}

/// Where each image of a trace sits on the combined canvas.
#[derive(Debug)]
pub struct Layout {
    pub width: usize,
    pub height: usize,
    pub offsets: Vec<(usize, usize)>,
}

impl Layout {
    /// Image `i` of size `d[i]` lies inside the canvas at its offset.
    pub open spec fn holds(&self, d: Seq<(usize, usize)>) -> bool {
        &&& self.offsets@.len() == d.len()
        &&& forall|i: int|
            0 <= i < d.len() ==> (#[trigger] self.offsets@[i]).0 + d[i].0 <= self.width
                && self.offsets@[i].1 + d[i].1 <= self.height
    }
}

/// Whether the images of these sizes can be laid side by side with
/// `margin` pixels around each, with coordinates that fit in `usize`.
pub open spec fn layout_fits(d: Seq<(usize, usize)>, margin: int) -> bool {
    &&& d.len() > 0
    &&& sum_widths(d, d.len() as int) + (d.len() + 1) * margin <= usize::MAX
    &&& max_height(d, d.len() as int) + 2 * margin <= usize::MAX
}

/// Lays the images out left to right, `margin` pixels apart and from the
/// edges.
pub fn layout(dimensions: &[(usize, usize)], margin: usize) -> (r: Layout)
    requires
        layout_fits(dimensions@, margin as int),
    ensures
        r.holds(dimensions@),
        r.width == sum_widths(dimensions@, dimensions@.len() as int) + (dimensions@.len() + 1) * margin,
        r.height == max_height(dimensions@, dimensions@.len() as int) + 2 * margin,
        forall|i: int|
            0 <= i < dimensions@.len() ==> #[trigger] r.offsets@[i] == (
                ((i + 1) * margin + sum_widths(dimensions@, i)) as usize,
                margin,
            ),
{
    let ghost d = dimensions@;
    let ghost n = d.len() as int;
    let ghost total = sum_widths(d, n) + (n + 1) * margin;
    let mut sum: usize = 0;
    let mut max_h: usize = 0;
    let mut i: usize = 0;
    while i < dimensions.len()
        invariant
            d == dimensions@,
            n == d.len(),
            layout_fits(d, margin as int),
            total == sum_widths(d, n) + (n + 1) * margin,
            i <= n,
            sum == sum_widths(d, i as int),
            max_h == max_height(d, i as int),
        decreases n - i,
    {
        proof {
            lemma_sum_widths_monotone(d, i as int, n);
            assert((i + 1) * margin <= (n + 1) * margin) by (nonlinear_arith)
                requires
                    i < n,
            ;
            lemma_max_height(d, i as int, n);
            lemma_max_height_bound(d, i as int + 1, n);
        }
        sum = sum + dimensions[i].0;
        if dimensions[i].1 > max_h {
            max_h = dimensions[i].1;
        }
        i = i + 1;
    }
    proof {
        assert((n + 1) * margin == n * margin + margin) by (nonlinear_arith);
        lemma_sum_widths_nonneg(d, n);
    }
    let width = sum + dimensions.len() * margin + margin;
    let height = max_h + 2 * margin;
    let mut offsets: Vec<(usize, usize)> = Vec::new();
    offsets.push((margin, margin));
    proof {
        assert(sum_widths(d, 0) == 0);
        assert((0 + 1) * margin == margin) by (nonlinear_arith);
        assert(offsets@[0] == (((0 + 1) * margin + sum_widths(d, 0)) as usize, margin));
        lemma_sum_widths_monotone(d, 0, n);
        assert(2 * margin + d[0].0 <= total) by (nonlinear_arith)
            requires
                total == sum_widths(d, n) + (n + 1) * margin,
                sum_widths(d, 0) + d[0].0 <= sum_widths(d, n),
                sum_widths(d, 0) == 0,
                n >= 1,
                margin >= 0,
        ;
    }
    let mut left: usize = 2 * margin + dimensions[0].0;
    let mut k: usize = 1;
    while k < dimensions.len()
        invariant
            d == dimensions@,
            n == d.len(),
            1 <= k <= n,
            total == sum_widths(d, n) + (n + 1) * margin,
            width == total,
            left == (k + 1) * margin + sum_widths(d, k as int),
            offsets@.len() == k,
            forall|j: int| 0 <= j < k ==> #[trigger] offsets@[j] == (
                ((j + 1) * margin + sum_widths(d, j)) as usize,
                margin,
            ),
        decreases n - k,
    {
        offsets.push((left, margin));
        proof {
            lemma_sum_widths_monotone(d, k as int, n);
            assert((k + 2) * margin <= (n + 1) * margin) by (nonlinear_arith)
                requires
                    k < n,
            ;
            assert((k + 2) * margin == (k + 1) * margin + margin) by (nonlinear_arith);
        }
        left = left + dimensions[k].0 + margin;
        k = k + 1;
    }
    let r = Layout { width, height, offsets };
    proof {
        assert forall|i: int| 0 <= i < d.len() implies (#[trigger] r.offsets@[i]).0 + d[i].0 <= r.width
            && r.offsets@[i].1 + d[i].1 <= r.height by {
            lemma_sum_widths_monotone(d, i, n);
            lemma_max_height(d, i, n);
            assert((i + 1) * margin <= n * margin) by (nonlinear_arith)
                requires
                    i < n,
            ;
        }
    }
    r
}

proof fn lemma_max_height_bound(d: Seq<(usize, usize)>, i: int, n: int)
    requires
        0 <= i <= n <= d.len(),
    ensures
        0 <= max_height(d, i) <= max_height(d, n),
    decreases n - i,
{
    if i < n {
        lemma_max_height_bound(d, i, n - 1);
    } else {
        lemma_max_height_nonneg(d, i);
    }
}

proof fn lemma_max_height_nonneg(d: Seq<(usize, usize)>, n: int)
    ensures
        max_height(d, n) >= 0,
    decreases n,
{
    if n > 0 {
        lemma_max_height_nonneg(d, n - 1);
    }
}

/// The sizes of the images.
pub open spec fn sizes(images: Seq<GrayImage>) -> Seq<(usize, usize)> {
    images.map_values(|i: GrayImage| (i.spec_width() as usize, i.spec_height() as usize))
}

/// Pixel `(px, py)` of the canvas lies in image `n`'s region.
pub open spec fn in_region(layout: &Layout, images: Seq<RgbImage>, n: int, px: int, py: int) -> bool {
    let o = layout.offsets@[n];
    o.0 <= px < o.0 + images[n].spec_width() && o.1 <= py < o.1 + images[n].spec_height()
}

/// The grey of the canvas outside the images.
pub open spec fn background() -> [u8; 3] {
    [120u8, 120u8, 120u8]
}

/// A canvas of the layout's size, grey, with each image copied to its
/// offset; the images' regions lie left to right without overlapping.
fn combine(images: &Vec<RgbImage>, layout: &Layout) -> (r: RgbImage)
    requires
        layout.offsets@.len() == images@.len(),
        forall|n: int|
            0 <= n < images@.len() ==> (#[trigger] layout.offsets@[n]).0 + images@[n].spec_width()
                <= layout.width && layout.offsets@[n].1 + images@[n].spec_height() <= layout.height,
        forall|m: int, n: int|
            0 <= m < n < images@.len() ==> (#[trigger] layout.offsets@[m]).0 + images@[m].spec_width()
                <= (#[trigger] layout.offsets@[n]).0,
        layout.width * layout.height <= usize::MAX,
    ensures
        r.spec_width() == layout.width,
        r.spec_height() == layout.height,
        forall|n: int, x: int, y: int|
            0 <= n < images@.len() && #[trigger] images@[n].contains(x, y) ==> r.pixel(
                layout.offsets@[n].0 + x,
                layout.offsets@[n].1 + y,
            ) == images@[n].pixel(x, y),
        forall|px: int, py: int|
            #![trigger r.pixel(px, py)]
            r.contains(px, py) && (forall|n: int| 0 <= n < images@.len() ==> !in_region(layout, images@, n, px, py))
                ==> r.pixel(px, py) == background(),
{
    let (cw, ch) = (layout.width, layout.height);
    let mut result: RgbImage = ImageBuffer::new(cw, ch);
    let bg: [u8; 3] = [120, 120, 120];
    let mut y: usize = 0;
    while y < ch
        invariant
            result.spec_width() == cw,
            result.spec_height() == ch,
            result.spec_data().len() == cw * ch,
            bg == background(),
            forall|px: int, py: int| #![trigger result.pixel(px, py)] 0 <= px < cw && 0 <= py < y ==> result.pixel(px, py) == bg,
        decreases ch - y,
    {
        let mut x: usize = 0;
        while x < cw
            invariant
                y < ch,
                result.spec_width() == cw,
                result.spec_height() == ch,
                result.spec_data().len() == cw * ch,
                forall|px: int, py: int|
                    #![trigger result.pixel(px, py)]
                    0 <= px < cw && 0 <= py < ch && (py < y || (py == y && px < x)) ==> result.pixel(px, py) == bg,
            decreases cw - x,
        {
            let ghost before = result;
            proof {
                crate::image::lemma_offset_distinct(x as int, y as int, x as int, y as int, cw as int, ch as int);
            }
            result.set(x, y, bg);
            proof {
                assert forall|px: int, py: int|
                    #![trigger result.pixel(px, py)]
                    0 <= px < cw && 0 <= py < ch && (py < y || (py == y && px < x + 1)) implies result.pixel(px, py) == bg by {
                    crate::image::lemma_offset_distinct(px, py, x as int, y as int, cw as int, ch as int);
                    if !(px == x && py == y) {
                        assert(result.pixel(px, py) == before.pixel(px, py));
                    }
                }
            }
            x = x + 1;
        }
        y = y + 1;
    }
    let mut n: usize = 0;
    while n < images.len()
        invariant
            layout.offsets@.len() == images@.len(),
            forall|m: int|
                0 <= m < images@.len() ==> (#[trigger] layout.offsets@[m]).0 + images@[m].spec_width()
                    <= layout.width && layout.offsets@[m].1 + images@[m].spec_height() <= layout.height,
            forall|m: int, k: int|
                0 <= m < k < images@.len() ==> (#[trigger] layout.offsets@[m]).0 + images@[m].spec_width()
                    <= (#[trigger] layout.offsets@[k]).0,
            (cw, ch) == (layout.width, layout.height),
            n <= images@.len(),
            result.spec_width() == cw,
            result.spec_height() == ch,
            result.spec_data().len() == cw * ch,
            forall|m: int, x: int, y: int|
                0 <= m < n && #[trigger] images@[m].contains(x, y) ==> result.pixel(
                    layout.offsets@[m].0 + x,
                    layout.offsets@[m].1 + y,
                ) == images@[m].pixel(x, y),
            forall|px: int, py: int|
                #![trigger result.pixel(px, py)]
                0 <= px < cw && 0 <= py < ch && (forall|m: int| 0 <= m < n ==> !in_region(layout, images@, m, px, py))
                    ==> result.pixel(px, py) == background(),
        decreases images@.len() - n,
    {
        let image = &images[n];
        let offset = layout.offsets[n];
        assert(offset == layout.offsets@[n as int]);
        let mut y: usize = 0;
        while y < image.height()
            invariant
                layout.offsets@.len() == images@.len(),
                forall|m: int, k: int|
                    0 <= m < k < images@.len() ==> (#[trigger] layout.offsets@[m]).0 + images@[m].spec_width()
                        <= (#[trigger] layout.offsets@[k]).0,
                (cw, ch) == (layout.width, layout.height),
                forall|m: int|
                    0 <= m < images@.len() ==> (#[trigger] layout.offsets@[m]).0 + images@[m].spec_width()
                        <= layout.width && layout.offsets@[m].1 + images@[m].spec_height() <= layout.height,
                n < images@.len(),
                *image == images@[n as int],
                offset == layout.offsets@[n as int],
                offset.0 + image.spec_width() <= cw,
                offset.1 + image.spec_height() <= ch,
                y <= image.spec_height(),
                result.spec_width() == cw,
                result.spec_height() == ch,
                result.spec_data().len() == cw * ch,
                forall|m: int, x: int, yy: int|
                    0 <= m < n && #[trigger] images@[m].contains(x, yy) ==> result.pixel(
                        layout.offsets@[m].0 + x,
                        layout.offsets@[m].1 + yy,
                    ) == images@[m].pixel(x, yy),
                forall|x: int, yy: int|
                    #![trigger image.pixel(x, yy)]
                    image.contains(x, yy) && yy < y ==> result.pixel(offset.0 + x, offset.1 + yy) == image.pixel(x, yy),
                forall|px: int, py: int|
                    #![trigger result.pixel(px, py)]
                    0 <= px < cw && 0 <= py < ch && (forall|m: int| 0 <= m < n ==> !in_region(layout, images@, m, px, py))
                        && !(offset.0 <= px < offset.0 + image.spec_width() && offset.1 <= py < offset.1 + y)
                        ==> result.pixel(px, py) == background(),
            decreases image.spec_height() - y,
        {
            let mut x: usize = 0;
            while x < image.width()
                invariant
                    layout.offsets@.len() == images@.len(),
                    forall|m: int, k: int|
                        0 <= m < k < images@.len() ==> (#[trigger] layout.offsets@[m]).0 + images@[m].spec_width()
                            <= (#[trigger] layout.offsets@[k]).0,
                    (cw, ch) == (layout.width, layout.height),
                    forall|m: int|
                        0 <= m < images@.len() ==> (#[trigger] layout.offsets@[m]).0 + images@[m].spec_width()
                            <= layout.width && layout.offsets@[m].1 + images@[m].spec_height() <= layout.height,
                    n < images@.len(),
                    *image == images@[n as int],
                    offset == layout.offsets@[n as int],
                    offset.0 + image.spec_width() <= cw,
                    offset.1 + image.spec_height() <= ch,
                    y < image.spec_height(),
                    x <= image.spec_width(),
                    result.spec_width() == cw,
                    result.spec_height() == ch,
                    result.spec_data().len() == cw * ch,
                    forall|m: int, xx: int, yy: int|
                        0 <= m < n && #[trigger] images@[m].contains(xx, yy) ==> result.pixel(
                            layout.offsets@[m].0 + xx,
                            layout.offsets@[m].1 + yy,
                        ) == images@[m].pixel(xx, yy),
                    forall|xx: int, yy: int|
                        #![trigger image.pixel(xx, yy)]
                        image.contains(xx, yy) && (yy < y || (yy == y && xx < x)) ==> result.pixel(offset.0 + xx, offset.1 + yy)
                            == image.pixel(xx, yy),
                    forall|px: int, py: int|
                        #![trigger result.pixel(px, py)]
                        0 <= px < cw && 0 <= py < ch && (forall|m: int| 0 <= m < n ==> !in_region(layout, images@, m, px, py))
                            && !(offset.0 <= px < offset.0 + image.spec_width() && offset.1 <= py < offset.1 + y)
                            && !(py == offset.1 + y && offset.0 <= px < offset.0 + x) ==> result.pixel(px, py) == background(),
                decreases image.spec_width() - x,
            {
                let p = image.get(x, y);
                let (tx, ty) = (x + offset.0, y + offset.1);
                let ghost before = result;
                proof {
                    crate::image::lemma_offset_distinct(tx as int, ty as int, tx as int, ty as int, cw as int, ch as int);
                }
                result.set(tx, ty, p);
                proof {
                    assert forall|m: int, xx: int, yy: int|
                        0 <= m < n && #[trigger] images@[m].contains(xx, yy) implies result.pixel(
                            layout.offsets@[m].0 + xx,
                            layout.offsets@[m].1 + yy,
                        ) == images@[m].pixel(xx, yy) by {
                        let (qx, qy) = (layout.offsets@[m].0 + xx, layout.offsets@[m].1 + yy);
                        assert(layout.offsets@[m].0 + images@[m].spec_width() <= layout.offsets@[n as int].0);
                        crate::image::lemma_offset_distinct(qx, qy, tx as int, ty as int, cw as int, ch as int);
                        assert(result.pixel(qx, qy) == before.pixel(qx, qy));
                    }
                    assert forall|xx: int, yy: int|
                        #![trigger image.pixel(xx, yy)]
                        image.contains(xx, yy) && (yy < y || (yy == y && xx < x + 1)) implies result.pixel(
                            offset.0 + xx,
                            offset.1 + yy,
                        ) == image.pixel(xx, yy) by {
                        crate::image::lemma_offset_distinct(offset.0 + xx, offset.1 + yy, tx as int, ty as int, cw as int, ch as int);
                        if !(xx == x && yy == y) {
                            assert(result.pixel(offset.0 + xx, offset.1 + yy) == before.pixel(offset.0 + xx, offset.1 + yy));
                        }
                    }
                    assert forall|px: int, py: int|
                        #![trigger result.pixel(px, py)]
                        0 <= px < cw && 0 <= py < ch && (forall|m: int| 0 <= m < n ==> !in_region(layout, images@, m, px, py))
                            && !(offset.0 <= px < offset.0 + image.spec_width() && offset.1 <= py < offset.1 + y)
                            && !(py == offset.1 + y && offset.0 <= px < offset.0 + x + 1) implies result.pixel(px, py)
                            == background() by {
                        crate::image::lemma_offset_distinct(px, py, tx as int, ty as int, cw as int, ch as int);
                        assert(result.pixel(px, py) == before.pixel(px, py));
                    }
                }
                x = x + 1;
            }
            y = y + 1;
        }
        proof {
            assert forall|m: int, xx: int, yy: int|
                0 <= m < n + 1 && #[trigger] images@[m].contains(xx, yy) implies result.pixel(
                    layout.offsets@[m].0 + xx,
                    layout.offsets@[m].1 + yy,
                ) == images@[m].pixel(xx, yy) by {
                if m == n {
                    assert(image.pixel(xx, yy) == images@[m].pixel(xx, yy));
                }
            }
            assert forall|px: int, py: int|
                #![trigger result.pixel(px, py)]
                0 <= px < cw && 0 <= py < ch && (forall|m: int| 0 <= m < n + 1 ==> !in_region(layout, images@, m, px, py))
                    implies result.pixel(px, py) == background() by {
                assert(!in_region(layout, images@, n as int, px, py));
            }
        }
        n = n + 1;
    }
    result
}

/// The number of frames that a replay of `actions` shows after the first.
pub open spec fn frame_count(actions: Seq<Action>) -> int
    decreases actions.len(),
{
    if actions.len() == 0 {
        0
    } else {
        frame_count(actions.drop_last()) + match actions.last() {
            Action::Active(_, _) => 1int,
            _ => 2int,
        }
    }
}

/// Where image `n` of a trace starts on the replay canvas.
pub open spec fn replay_left(trace: Trace, n: int) -> int {
    n + 1 + sum_widths(sizes(trace.spec_initial_images()), n)
}

/// Pixel `(px, py)` of the replay canvas shows image `n` of the trace.
pub open spec fn in_replay_region(trace: Trace, n: int, px: int, py: int) -> bool {
    let img = trace.spec_initial_images()[n];
    replay_left(trace, n) <= px < replay_left(trace, n) + img.spec_width() && 1 <= py < 1 + img.spec_height()
}

proof fn lemma_dims_left_fits(d: Seq<(usize, usize)>, n: int, w: int)
    requires
        0 <= n < d.len(),
        w <= usize::MAX,
        d.len() + 1 + sum_widths(d, d.len() as int) <= w,
    ensures
        0 <= n + 1 + sum_widths(d, n) <= usize::MAX,
{
    lemma_sum_widths_monotone(d, n, d.len() as int);
}

/// Whether a trace can be replayed: it has images, and the canvas that
/// holds them side by side fits in memory.
pub open spec fn replayable(trace: Trace) -> bool {
    let d = sizes(trace.spec_initial_images());
    &&& trace.wf()
    &&& layout_fits(d, 1)
    &&& (sum_widths(d, d.len() as int) + d.len() + 1) * (max_height(d, d.len() as int) + 2) <= usize::MAX
}

/// The canvas being animated, and the tints that highlight active regions.
struct Tinter {
    current_image: RgbImage,
    layout: Layout,
    dimensions: Vec<(usize, usize)>,
    /// For each image, the tints currently applied, at canvas coordinates.
    /// Tinting is not invertible because of saturation, so they are kept
    /// to be undone when the region becomes inactive.
    active_tints: Vec<Vec<(usize, usize, u8)>>,
    /// For each image, its active region, if any.
    active_regions: Vec<Option<ActiveRegion>>,
}

impl Tinter {
    spec fn wf(&self) -> bool {
        &&& self.layout.holds(self.dimensions@)
        &&& self.current_image.spec_width() == self.layout.width
        &&& self.current_image.spec_height() == self.layout.height
        &&& self.active_tints@.len() == self.dimensions@.len()
        &&& self.active_regions@.len() == self.dimensions@.len()
        &&& forall|id: int, k: int|
            0 <= id < self.active_tints@.len() && 0 <= k < self.active_tints@[id]@.len() ==> {
                let t = #[trigger] self.active_tints@[id]@[k];
                t.0 < self.layout.width && t.1 < self.layout.height
            }
    }

    /// Whether `(x, y)` lies inside image `id`.
    spec fn inside(&self, id: usize, x: usize, y: usize) -> bool {
        id < self.dimensions@.len() && x < self.dimensions@[id as int].0 && y < self.dimensions@[id as int].1
    }

    fn apply_offset(&self, id: usize, x: usize, y: usize) -> (r: (usize, usize))
        requires
            self.wf(),
            self.inside(id, x, y),
        ensures
            r.0 == x + self.layout.offsets@[id as int].0,
            r.1 == y + self.layout.offsets@[id as int].1,
            r.0 < self.layout.width,
            r.1 < self.layout.height,
    {
        let o = self.layout.offsets[id];
        (x + o.0, y + o.1)
    }

    fn get(&self, id: usize, x: usize, y: usize) -> (r: [u8; 3])
        requires
            self.wf(),
            self.inside(id, x, y),
    {
        let (x, y) = self.apply_offset(id, x, y);
        self.current_image.get(x, y)
    }

    fn set_without_tint(&mut self, id: usize, x: usize, y: usize, c: [u8; 3])
        requires
            old(self).wf(),
            old(self).inside(id, x, y),
        ensures
            final(self).wf(),
            final(self).dimensions@ == old(self).dimensions@,
            final(self).layout.width == old(self).layout.width,
            final(self).layout.height == old(self).layout.height,
    {
        let (x, y) = self.apply_offset(id, x, y);
        self.current_image.set(x, y, c);
    }

    /// Shows `c` at `(x, y)` of image `id`, tinted if the pixel is in the
    /// image's active region.
    fn set_with_tint(&mut self, id: usize, x: usize, y: usize, c: [u8; 3])
        requires
            old(self).wf(),
            old(self).inside(id, x, y),
            c[0] == c[1] && c[1] == c[2],
        ensures
            final(self).wf(),
            final(self).dimensions@ == old(self).dimensions@,
            final(self).layout.width == old(self).layout.width,
            final(self).layout.height == old(self).layout.height,
    {
        let mut c = c;
        match self.active_regions[id] {
            Some(region) => {
                let x_active = x >= region.x && x - region.x <= region.width;
                let y_active = y >= region.y && y - region.y <= region.height;
                if x_active && y_active {
                    let (cx, cy) = self.apply_offset(id, x, y);
                    let tint = compute_tint(c[2]);
                    let mut tints: Vec<(usize, usize, u8)> = Vec::new();
                    std::mem::swap(&mut tints, &mut self.active_tints[id]);
                    let mut k: usize = 0;
                    let mut found = false;
                    while k < tints.len()
                        invariant
                            cx < self.layout.width,
                            cy < self.layout.height,
                            forall|j: int|
                                0 <= j < tints@.len() ==> (#[trigger] tints@[j]).0 < self.layout.width
                                    && tints@[j].1 < self.layout.height,
                        decreases tints@.len() - k,
                    {
                        if tints[k].0 == cx && tints[k].1 == cy {
                            tints.set(k, (cx, cy, tint));
                            found = true;
                        }
                        k = k + 1;
                    }
                    if !found {
                        tints.push((cx, cy, tint));
                    }
                    self.active_tints.set(id, tints);
                    c = [c[0], c[1], c[2] + tint];
                }
            },
            None => {},
        }
        self.set_without_tint(id, x, y, c);
    }

    /// Makes `region` the active region of image `id`: undoes the tints of
    /// the previous region and tints the new one (its part inside the
    /// image).
    fn activate(&mut self, id: usize, region: ActiveRegion)
        requires
            old(self).wf(),
            id < old(self).dimensions@.len(),
        ensures
            final(self).wf(),
            final(self).dimensions@ == old(self).dimensions@,
            final(self).layout.width == old(self).layout.width,
            final(self).layout.height == old(self).layout.height,
    {
        let mut old_tints: Vec<(usize, usize, u8)> = Vec::new();
        std::mem::swap(&mut old_tints, &mut self.active_tints[id]);
        let mut k: usize = 0;
        while k < old_tints.len()
            invariant
                self.wf(),
                self.dimensions@ == old(self).dimensions@,
                self.layout.width == old(self).layout.width,
                self.layout.height == old(self).layout.height,
                id < self.dimensions@.len(),
                forall|j: int|
                    0 <= j < old_tints@.len() ==> (#[trigger] old_tints@[j]).0 < self.layout.width
                        && old_tints@[j].1 < self.layout.height,
            decreases old_tints@.len() - k,
        {
            let (x, y, tint) = old_tints[k];
            let p = self.current_image.get(x, y);
            self.current_image.set(x, y, [p[0], p[1], p[2].wrapping_sub(tint)]);
            k = k + 1;
        }
        let (w, h) = self.dimensions[id];
        let mut tints: Vec<(usize, usize, u8)> = Vec::new();
        let mut y: usize = 0;
        while y < region.height
            invariant
                self.wf(),
                self.dimensions@ == old(self).dimensions@,
                self.layout.width == old(self).layout.width,
                self.layout.height == old(self).layout.height,
                id < self.dimensions@.len(),
                (w, h) == self.dimensions@[id as int],
                forall|j: int|
                    0 <= j < tints@.len() ==> (#[trigger] tints@[j]).0 < self.layout.width
                        && tints@[j].1 < self.layout.height,
            decreases region.height - y,
        {
            if region.y < h && y < h - region.y {
                let ya = y + region.y;
                let mut x: usize = 0;
                while x < region.width
                    invariant
                        self.wf(),
                        self.dimensions@ == old(self).dimensions@,
                        self.layout.width == old(self).layout.width,
                        self.layout.height == old(self).layout.height,
                        id < self.dimensions@.len(),
                        (w, h) == self.dimensions@[id as int],
                        ya < h,
                        forall|j: int|
                            0 <= j < tints@.len() ==> (#[trigger] tints@[j]).0 < self.layout.width
                                && tints@[j].1 < self.layout.height,
                    decreases region.width - x,
                {
                    if region.x < w && x < w - region.x {
                        let xa = x + region.x;
                        let (cx, cy) = self.apply_offset(id, xa, ya);
                        let p = self.current_image.get(cx, cy);
                        let tint = compute_tint(p[2]);
                        self.current_image.set(cx, cy, [p[0], p[1], p[2] + tint]);
                        tints.push((cx, cy, tint));
                    }
                    x = x + 1;
                }
            }
            y = y + 1;
        }
        self.active_tints.set(id, tints);
        self.active_regions.set(id, Some(region));
    }

    fn frame(&self) -> (r: RgbImage)
        requires
            self.wf(),
        ensures
            r.spec_width() == self.layout.width,
            r.spec_height() == self.layout.height,
    {
        self.current_image.duplicate()
    }
}

/// The frames of an animation of `trace`: the initial images side by side
/// on a grey canvas, then for each read the pixel flashed green and
/// restored, for each write the pixel flashed red and then shown with its
/// new value, for each clear the image flashed red and then black, and for
/// each change of active region the new region tinted blue.
pub fn replay(trace: &Trace) -> (frames: Vec<RgbImage>)
    requires
        replayable(*trace),
    ensures
        frames@.len() == 1 + frame_count(trace.spec_actions()),
        forall|i: int|
            0 <= i < frames@.len() ==> {
                let d = sizes(trace.spec_initial_images());
                &&& (#[trigger] frames@[i]).spec_width() == sum_widths(d, d.len() as int) + d.len() + 1
                &&& frames@[i].spec_height() == max_height(d, d.len() as int) + 2
            },
        forall|n: int, x: int, y: int|
            0 <= n < trace.spec_initial_images().len() && #[trigger] trace.spec_initial_images()[n].contains(x, y)
                ==> {
                let v = trace.spec_initial_images()[n].pixel(x, y);
                frames@[0].pixel(replay_left(*trace, n) + x, 1 + y) == [v, v, v]
            },
        forall|px: int, py: int|
            #![trigger frames@[0].pixel(px, py)]
            frames@[0].contains(px, py) && (forall|n: int|
                0 <= n < trace.spec_initial_images().len() ==> !in_replay_region(*trace, n, px, py))
                ==> frames@[0].pixel(px, py) == background(),
{
    let images = trace.initial_images();
    let ghost d = sizes(trace.spec_initial_images());
    // Determine how to embed the individual images into a single combined
    // image.
    let mut dimensions: Vec<(usize, usize)> = Vec::new();
    let mut rgb: Vec<RgbImage> = Vec::new();
    let mut i: usize = 0;
    while i < images.len()
        invariant
            images@ == trace.spec_initial_images(),
            d == sizes(trace.spec_initial_images()),
            i <= images@.len(),
            dimensions@ == d.take(i as int),
            rgb@.len() == i,
            forall|j: int|
                0 <= j < i ==> (#[trigger] rgb@[j]).spec_width() == d[j].0 && rgb@[j].spec_height()
                    == d[j].1,
            forall|j: int, x: int, y: int|
                0 <= j < i && #[trigger] images@[j].contains(x, y) ==> {
                    let v = images@[j].pixel(x, y);
                    rgb@[j].pixel(x, y) == [v, v, v]
                },
        decreases images@.len() - i,
    {
        proof {
            crate::image::lemma_dims_fit(images@[i as int]);
        }
        let dims = images[i].dimensions();
        dimensions.push(dims);
        let c = gray_to_rgb(&images[i]);
        proof {
            assert forall|x: int, y: int| #[trigger] images@[i as int].contains(x, y) implies c.pixel(x, y) == [
                images@[i as int].pixel(x, y),
                images@[i as int].pixel(x, y),
                images@[i as int].pixel(x, y),
            ] by {
                crate::image::lemma_offset_distinct(x, y, x, y, dims.0 as int, dims.1 as int);
            }
        }
        rgb.push(c);
        assert(dimensions@ =~= d.take(i + 1));
        i = i + 1;
    }
    assert(dimensions@ =~= d);
    let layout = layout(dimensions.as_slice(), 1);
    proof {
        let n = d.len() as int;
        assert forall|m: int, k: int|
            0 <= m < k < rgb@.len() implies (#[trigger] layout.offsets@[m]).0 + rgb@[m].spec_width()
                <= (#[trigger] layout.offsets@[k]).0 by {
            assert((m + 1) * 1 == m + 1 && (k + 1) * 1 == k + 1) by (nonlinear_arith);
            lemma_sum_widths_monotone(d, m + 1, k);
            assert(sum_widths(d, m + 1) == sum_widths(d, m) + d[m].0);
            assert(layout.offsets@[m].0 + rgb@[m].spec_width() <= layout.width);
            lemma_sum_widths_nonneg(d, m);
            lemma_sum_widths_nonneg(d, k);
            lemma_sum_widths_monotone(d, k, n);
            assert((k + 1) * 1 <= (n + 1) * 1) by (nonlinear_arith)
                requires
                    k < n,
            ;
        }
    }
    let current = combine(&rgb, &layout);
    proof {
        assert forall|n: int, x: int, y: int|
            0 <= n < images@.len() && #[trigger] images@[n].contains(x, y) implies {
                let v = images@[n].pixel(x, y);
                current.pixel(replay_left(*trace, n) + x, 1 + y) == [v, v, v]
            } by {
            assert((n + 1) * 1 == n + 1) by (nonlinear_arith);
            crate::image::lemma_dims_fit(images@[n]);
            assert(rgb@[n].contains(x, y));
            lemma_dims_left_fits(d, n, layout.width as int);
        }
        assert forall|px: int, py: int|
            #![trigger current.pixel(px, py)]
            current.contains(px, py) && (forall|n: int| 0 <= n < images@.len() ==> !in_replay_region(*trace, n, px, py))
                implies current.pixel(px, py) == background() by {
            assert forall|n: int| 0 <= n < rgb@.len() implies !in_region(&layout, rgb@, n, px, py) by {
                assert((n + 1) * 1 == n + 1) by (nonlinear_arith);
                crate::image::lemma_dims_fit(images@[n]);
                lemma_dims_left_fits(d, n, layout.width as int);
                assert(!in_replay_region(*trace, n, px, py));
            }
        }
    }
    let mut frames: Vec<RgbImage> = Vec::new();
    frames.push(current.duplicate());
    let ghost first = frames@[0];
    let ghost current_view = current;
    let red: [u8; 3] = [255, 0, 0];
    let green: [u8; 3] = [0, 255, 0];
    let black: [u8; 3] = [0, 0, 0];
    let n = images.len();
    let mut active_tints: Vec<Vec<(usize, usize, u8)>> = Vec::new();
    let mut active_regions: Vec<Option<ActiveRegion>> = Vec::new();
    let mut k: usize = 0;
    while k < n
        invariant
            k <= n,
            active_tints@.len() == k,
            active_regions@.len() == k,
            forall|id: int, j: int|
                0 <= id < active_tints@.len() && 0 <= j < active_tints@[id]@.len() ==> {
                    let t = #[trigger] active_tints@[id]@[j];
                    t.0 < 0 && t.1 < 0
                },
        decreases n - k,
    {
        active_tints.push(Vec::new());
        active_regions.push(None);
        k = k + 1;
    }
    let ghost cw = layout.width;
    let ghost ch = layout.height;
    assert((d.len() + 1) * 1 == d.len() + 1) by (nonlinear_arith);
    let mut tinter = Tinter { current_image: current, layout, dimensions, active_tints, active_regions };
    let actions = trace.actions();
    let mut a: usize = 0;
    while a < actions.len()
        invariant
            tinter.wf(),
            tinter.dimensions@ == d,
            tinter.layout.width == cw,
            tinter.layout.height == ch,
            frames@.len() >= 1,
            frames@[0] == first,
            forall|i: int| 0 <= i < frames@.len() ==> (#[trigger] frames@[i]).spec_width() == cw && frames@[i].spec_height() == ch,
            d == sizes(trace.spec_initial_images()),
            actions@ == trace.spec_actions(),
            trace.wf(),
            a <= actions@.len(),
            frames@.len() == 1 + frame_count(actions@.take(a as int)),
        decreases actions@.len() - a,
    {
        let action = actions[a];
        assert(crate::trace::action_fits(trace.spec_actions()[a as int], trace.spec_initial_images()));
        proof {
            let id = action.id().0 as int;
            crate::image::lemma_dims_fit(trace.spec_initial_images()[id]);
            assert(d[id] == (
                trace.spec_initial_images()[id].spec_width() as usize,
                trace.spec_initial_images()[id].spec_height() as usize,
            ));
        }
        match action {
            Action::Read(id, x, y) => {
                let id = id.0;
                let current = tinter.get(id, x, y);
                tinter.set_without_tint(id, x, y, green);
                frames.push(tinter.frame());
                tinter.set_without_tint(id, x, y, current);
                frames.push(tinter.frame());
            },
            Action::Write(id, x, y, c) => {
                let id = id.0;
                tinter.set_without_tint(id, x, y, red);
                frames.push(tinter.frame());
                tinter.set_with_tint(id, x, y, [c, c, c]);
                frames.push(tinter.frame());
            },
            Action::Clear(id) => {
                let id = id.0;
                let (w, h) = tinter.dimensions[id];
                let mut y: usize = 0;
                while y < h
                    invariant
                        tinter.wf(),
                        tinter.dimensions@ == d,
                        tinter.layout.width == cw,
                        tinter.layout.height == ch,
                        frames@.len() >= 1,
                        frames@[0] == first,
                        forall|i: int| 0 <= i < frames@.len() ==> (#[trigger] frames@[i]).spec_width() == cw && frames@[i].spec_height() == ch,
                tinter.layout.width == cw,
                tinter.layout.height == ch,
                frames@.len() >= 1,
                frames@[0] == first,
                forall|i: int| 0 <= i < frames@.len() ==> (#[trigger] frames@[i]).spec_width() == cw && frames@[i].spec_height() == ch,
                        id < d.len(),
                        (w, h) == d[id as int],
                    decreases h - y,
                {
                    let mut x: usize = 0;
                    while x < w
                        invariant
                            tinter.wf(),
                            tinter.dimensions@ == d,
                            tinter.layout.width == cw,
                            tinter.layout.height == ch,
                            frames@.len() >= 1,
                            frames@[0] == first,
                            forall|i: int| 0 <= i < frames@.len() ==> (#[trigger] frames@[i]).spec_width() == cw && frames@[i].spec_height() == ch,
                        tinter.layout.width == cw,
                        tinter.layout.height == ch,
                        frames@.len() >= 1,
                        frames@[0] == first,
                        forall|i: int| 0 <= i < frames@.len() ==> (#[trigger] frames@[i]).spec_width() == cw && frames@[i].spec_height() == ch,
                tinter.layout.width == cw,
                tinter.layout.height == ch,
                frames@.len() >= 1,
                frames@[0] == first,
                forall|i: int| 0 <= i < frames@.len() ==> (#[trigger] frames@[i]).spec_width() == cw && frames@[i].spec_height() == ch,
                            id < d.len(),
                            (w, h) == d[id as int],
                            y < h,
                        decreases w - x,
                    {
                        tinter.set_without_tint(id, x, y, red);
                        x = x + 1;
                    }
                    y = y + 1;
                }
                frames.push(tinter.frame());
                let mut y: usize = 0;
                while y < h
                    invariant
                        tinter.wf(),
                        tinter.dimensions@ == d,
                        tinter.layout.width == cw,
                        tinter.layout.height == ch,
                        frames@.len() >= 1,
                        frames@[0] == first,
                        forall|i: int| 0 <= i < frames@.len() ==> (#[trigger] frames@[i]).spec_width() == cw && frames@[i].spec_height() == ch,
                tinter.layout.width == cw,
                tinter.layout.height == ch,
                frames@.len() >= 1,
                frames@[0] == first,
                forall|i: int| 0 <= i < frames@.len() ==> (#[trigger] frames@[i]).spec_width() == cw && frames@[i].spec_height() == ch,
                        id < d.len(),
                        (w, h) == d[id as int],
                    decreases h - y,
                {
                    let mut x: usize = 0;
                    while x < w
                        invariant
                            tinter.wf(),
                            tinter.dimensions@ == d,
                            tinter.layout.width == cw,
                            tinter.layout.height == ch,
                            frames@.len() >= 1,
                            frames@[0] == first,
                            forall|i: int| 0 <= i < frames@.len() ==> (#[trigger] frames@[i]).spec_width() == cw && frames@[i].spec_height() == ch,
                        tinter.layout.width == cw,
                        tinter.layout.height == ch,
                        frames@.len() >= 1,
                        frames@[0] == first,
                        forall|i: int| 0 <= i < frames@.len() ==> (#[trigger] frames@[i]).spec_width() == cw && frames@[i].spec_height() == ch,
                tinter.layout.width == cw,
                tinter.layout.height == ch,
                frames@.len() >= 1,
                frames@[0] == first,
                forall|i: int| 0 <= i < frames@.len() ==> (#[trigger] frames@[i]).spec_width() == cw && frames@[i].spec_height() == ch,
                            id < d.len(),
                            (w, h) == d[id as int],
                            y < h,
                        decreases w - x,
                    {
                        tinter.set_without_tint(id, x, y, black);
                        x = x + 1;
                    }
                    y = y + 1;
                }
                frames.push(tinter.frame());
            },
            Action::Active(id, region) => {
                tinter.activate(id.0, region);
                frames.push(tinter.frame());
            },
        }
        assert(actions@.take(a + 1).drop_last() =~= actions@.take(a as int));
        a = a + 1;
    }
    assert(actions@.take(a as int) =~= actions@);
    proof {
        assert forall|px: int, py: int| #![trigger first.pixel(px, py)] first.contains(px, py) implies first.pixel(px, py)
            == current_view.pixel(px, py) by {}
    }
    frames
}

/// The colour with index `i` of the palette used for replay animations:
/// 126 even greys, their blue-tinted forms, then red, green, cyan and
/// yellow.
pub open spec fn palette_color(i: int) -> (u8, u8, u8) {
    if 0 <= i < 126 {
        ((2 * i) as u8, (2 * i) as u8, (2 * i) as u8)
    } else if 126 <= i < 252 {
        let g = (2 * (i - 126)) as u8;
        (g, g, (g + tint_of(g)) as u8)
    } else if i == 252 {
        (255u8, 0u8, 0u8)
    } else if i == 253 {
        (0u8, 255u8, 0u8)
    } else if i == 254 {
        (0u8, 255u8, 255u8)
    } else {
        (255u8, 255u8, 0u8)
    }
}

/// Channel `k` of palette colour `i`.
pub open spec fn palette_byte(i: int, k: int) -> u8 {
    if k == 0 {
        palette_color(i).0
    } else if k == 1 {
        palette_color(i).1
    } else {
        palette_color(i).2
    }
}

/// The index in the replay palette of a colour that replay frames contain,
/// or `None` for any other colour.
pub open spec fn spec_palette_index(p: [u8; 3]) -> Option<u8> {
    if p[0] == 255 && p[1] == 0 && p[2] == 0 {
        Some(252)
    } else if p[0] == 0 && p[1] == 255 && p[2] == 0 {
        Some(253)
    } else if p[0] == 0 && p[1] == 0 && p[2] == 255 {
        Some(254)
    } else if p[0] == 255 && p[1] == 255 && p[2] == 0 {
        Some(255)
    } else if p[0] == p[1] && p[1] == p[2] && p[0] <= 250 {
        Some((p[0] / 2) as u8)
    } else if p[0] == p[1] && p[2] == p[0] + tint_of(p[0]) && p[0] <= 250 {
        Some((p[0] / 2 + 126) as u8)
    } else {
        None
    }
}

/// A GIF colour table: 256 RGB triples, one after another.
#[derive(Debug)]
pub struct GifPalette {
    pub palette: Vec<u8>,
}

impl GifPalette {
    pub fn new(palette: &[u8]) -> (r: GifPalette)
        ensures
            r.palette@ == palette@,
    {
        let mut v: Vec<u8> = Vec::new();
        let mut i: usize = 0;
        while i < palette.len()
            invariant
                i <= palette@.len(),
                v@ == palette@.take(i as int),
            decreases palette@.len() - i,
        {
            v.push(palette[i]);
            assert(v@ =~= palette@.take(i + 1));
            i = i + 1;
        }
        assert(v@ =~= palette@);
        GifPalette { palette: v }
    }

    /// The index of a replay colour in the replay palette.
    pub fn index_of(&self, p: [u8; 3]) -> (r: Option<u8>)
        ensures
            r == spec_palette_index(p),
    {
        palette_index(p)
    }
}

/// The index of a replay colour in the replay palette, or `None` for a
/// colour that replay frames never contain.
pub fn palette_index(p: [u8; 3]) -> (r: Option<u8>)
    ensures
        r == spec_palette_index(p),
{
    if p[0] == 255 && p[1] == 0 && p[2] == 0 {
        Some(252)
    } else if p[0] == 0 && p[1] == 255 && p[2] == 0 {
        Some(253)
    } else if p[0] == 0 && p[1] == 0 && p[2] == 255 {
        Some(254)
    } else if p[0] == 255 && p[1] == 255 && p[2] == 0 {
        Some(255)
    } else if p[0] == p[1] && p[1] == p[2] && p[0] <= 250 {
        Some(p[0] / 2)
    } else if p[0] == p[1] && p[0] <= 250 {
        // A blue-tinted form of an accepted grey.
        let t = compute_tint(p[0]);
        if p[2] == p[0] + t {
            Some(p[0] / 2 + 126)
        } else {
            None
        }
    } else {
        None
    }
}

/// The palette for replay animations, where every colour that replay
/// frames contain has an entry (see `palette_index`).
pub fn create_gif_palette() -> (r: GifPalette)
    ensures
        r.palette@.len() == 768,
        forall|i: int, k: int|
            0 <= i < 256 && 0 <= k < 3 ==> #[trigger] r.palette@[3 * i + k] == palette_byte(i, k),
{
    let mut palette: Vec<u8> = Vec::new();
    let mut i: u8 = 0;
    while i < 252
        invariant
            i <= 252,
            palette@.len() == 3 * i,
            forall|j: int, k: int|
                0 <= j < i && 0 <= k < 3 ==> #[trigger] palette@[3 * j + k] == palette_byte(j, k),
        decreases 252 - i,
    {
        // Greys of even intensity no more than 250, then their
        // blue-tinted forms.
        let g: u8 = if i < 126 {
            2 * i
        } else {
            2 * (i - 126)
        };
        let b: u8 = if i < 126 {
            g
        } else {
            g + compute_tint(g)
        };
        palette.push(g);
        palette.push(g);
        palette.push(b);
        proof {
            assert forall|j: int, k: int|
                0 <= j < i + 1 && 0 <= k < 3 implies #[trigger] palette@[3 * j + k] == palette_byte(j, k) by {
                if j < i {
                    assert(3 * j + k < 3 * i) by (nonlinear_arith)
                        requires
                            j < i,
                            k < 3,
                    ;
                }
            }
        }
        i = i + 1;
    }
    let extra: [u8; 12] = [255, 0, 0, 0, 255, 0, 0, 255, 255, 255, 255, 0];
    let mut e: usize = 0;
    while e < 12
        invariant
            e <= 12,
            palette@.len() == 756 + e,
            forall|j: int, k: int|
                0 <= j < 252 && 0 <= k < 3 ==> #[trigger] palette@[3 * j + k] == palette_byte(j, k),
            forall|m: int| 0 <= m < e ==> #[trigger] palette@[756 + m] == extra@[m],
        decreases 12 - e,
    {
        palette.push(extra[e]);
        e = e + 1;
    }
    proof {
        assert forall|i: int, k: int|
            0 <= i < 256 && 0 <= k < 3 implies #[trigger] palette@[3 * i + k] == palette_byte(i, k) by {
            if i >= 252 {
                assert(palette@[756 + (3 * (i - 252) + k)] == extra@[3 * (i - 252) + k]);
            }
        }
    }
    GifPalette { palette }
}

} // verus!