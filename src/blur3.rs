//! Hand-written 3x3 box blurs, each computing the same image with a
//! different order of work and intermediate storage.

use vstd::prelude::*;
use crate::image::GrayImage;
use crate::trace::{TraceImage, TraceImageFactory};

verus! {

/// The mean of three pixel values, rounded down.
pub open spec fn spec_mean(a: u8, b: u8, c: u8) -> u8 {
    ((a + b + c) / 3) as u8
}

fn mean(a: u8, b: u8, c: u8) -> (r: u8)
    ensures
        r == spec_mean(a, b, c),
{
    ((a as u16 + b as u16 + c as u16) / 3) as u8
}

/// The horizontal blur of `img` at `(x, y)`; 0 in the first and last
/// column.
pub open spec fn blur_h(img: GrayImage, x: int, y: int) -> u8 {
    if 1 <= x && x + 1 < img.spec_width() {
        spec_mean(img.pixel(x - 1, y), img.pixel(x, y), img.pixel(x + 1, y))
    } else {
        0
    }
}

/// The 3x3 blur of `img` at `(x, y)`: the vertical mean of the horizontal
/// means; 0 on the border.
pub open spec fn blurred(img: GrayImage, x: int, y: int) -> u8 {
    if 1 <= x && x + 1 < img.spec_width() && 1 <= y && y + 1 < img.spec_height() {
        spec_mean(blur_h(img, x, y - 1), blur_h(img, x, y), blur_h(img, x, y + 1))
    } else {
        0
    }
}

/// `r` has the size of `img` and holds its 3x3 blur.
pub open spec fn is_blur_of(r: GrayImage, img: GrayImage) -> bool {
    &&& r.spec_width() == img.spec_width()
    &&& r.spec_height() == img.spec_height()
    &&& forall|x: int, y: int| #[trigger] r.contains(x, y) ==> r.pixel(x, y) == blurred(img, x, y)
}

/// A zero image of the size of `image`.
fn blank_like(image: &GrayImage) -> (r: GrayImage)
    ensures
        r.spec_width() == image.spec_width(),
        r.spec_height() == image.spec_height(),
        r.spec_data().len() == r.spec_width() * r.spec_height(),
        forall|x: int, y: int| #[trigger] r.contains(x, y) ==> r.pixel(x, y) == 0,
{
    let (w, h) = image.dimensions();
    let r: GrayImage = GrayImage::new(w, h);
    assert forall|x: int, y: int| #[trigger] r.contains(x, y) implies r.pixel(x, y) == 0 by {
        crate::image::lemma_offset_distinct(x, y, x, y, w as int, h as int);
    }
    r
}

/// 3x3 blur with no intermediate storage.
pub fn blur3_inline(image: &GrayImage) -> (r: GrayImage)
    requires
        image.spec_width() >= 1,
        image.spec_height() >= 1,
    ensures
        is_blur_of(r, *image),
{
    let (w, h) = image.dimensions();
    let mut result = blank_like(image);
    let mut y: usize = 1;
    while y < h - 1
        invariant
            w == image.spec_width(),
            h == image.spec_height(),
            w >= 1,
            1 <= y <= h - 1 || h == 1,
            result.spec_width() == w,
            result.spec_height() == h,
            result.spec_data().len() == w * h,
            forall|px: int, py: int| #[trigger]
                result.contains(px, py) ==> result.pixel(px, py) == if 1 <= py < y {
                    blurred(*image, px, py)
                } else {
                    0
                },
        decreases h - y,
    {
        let mut x: usize = 1;
        while x < w - 1
            invariant
                w == image.spec_width(),
                h == image.spec_height(),
                1 <= y < h - 1,
                1 <= x <= w - 1 || w == 1,
                result.spec_width() == w,
                result.spec_height() == h,
                result.spec_data().len() == w * h,
                forall|px: int, py: int| #[trigger]
                    result.contains(px, py) ==> result.pixel(px, py) == if 1 <= py < y || (py == y && 1
                        <= px < x) {
                        blurred(*image, px, py)
                    } else {
                        0
                    },
            decreases w - x,
        {
            let t = mean(image.get(x - 1, y - 1), image.get(x, y - 1), image.get(x + 1, y - 1));
            let m = mean(image.get(x - 1, y), image.get(x, y), image.get(x + 1, y));
            let b = mean(image.get(x - 1, y + 1), image.get(x, y + 1), image.get(x + 1, y + 1));
            let p = mean(t, m, b);
            let ghost before = result;
            proof {
                crate::image::lemma_offset_distinct(x as int, y as int, x as int, y as int, w as int, h as int);
            }
            result.set(x, y, p);
            proof {
                assert forall|px: int, py: int| #[trigger] result.contains(px, py) implies result.pixel(px, py)
                    == if 1 <= py < y || (py == y && 1 <= px < x + 1) {
                    blurred(*image, px, py)
                } else {
                    0
                } by {
                    crate::image::lemma_offset_distinct(px, py, x as int, y as int, w as int, h as int);
                    if !(px == x && py == y) {
                        assert(before.contains(px, py));
                    }
                }
            }
            x = x + 1;
        }
        proof {
            assert forall|px: int, py: int| #[trigger] result.contains(px, py) implies result.pixel(px, py)
                == if 1 <= py < y + 1 {
                blurred(*image, px, py)
            } else {
                0
            } by {
                assert(result.contains(px, py));
            }
        }
        y = y + 1;
    }
    proof {
        assert forall|px: int, py: int| #[trigger] result.contains(px, py) implies result.pixel(px, py)
            == blurred(*image, px, py) by {
            assert(result.contains(px, py));
        }
    }
    result
}

/// The horizontal blur of the whole image.
fn horizontal_pass(image: &GrayImage) -> (r: GrayImage)
    requires
        image.spec_width() >= 1,
    ensures
        r.spec_width() == image.spec_width(),
        r.spec_height() == image.spec_height(),
        r.spec_data().len() == r.spec_width() * r.spec_height(),
        forall|x: int, y: int| #[trigger] r.contains(x, y) ==> r.pixel(x, y) == blur_h(*image, x, y),
{
    let (w, h) = image.dimensions();
    let mut hb = blank_like(image);
    let mut y: usize = 0;
    while y < h
        invariant
            w == image.spec_width(),
            h == image.spec_height(),
            w >= 1,
            y <= h,
            hb.spec_width() == w,
            hb.spec_height() == h,
            hb.spec_data().len() == w * h,
            forall|px: int, py: int| #[trigger]
                hb.contains(px, py) ==> hb.pixel(px, py) == if py < y {
                    blur_h(*image, px, py)
                } else {
                    0
                },
        decreases h - y,
    {
        let mut x: usize = 1;
        while x < w - 1
            invariant
                w == image.spec_width(),
                h == image.spec_height(),
                y < h,
                1 <= x <= w - 1 || w == 1,
                hb.spec_width() == w,
                hb.spec_height() == h,
                hb.spec_data().len() == w * h,
                forall|px: int, py: int| #[trigger]
                    hb.contains(px, py) ==> hb.pixel(px, py) == if py < y || (py == y && 1 <= px < x) {
                        blur_h(*image, px, py)
                    } else {
                        0
                    },
            decreases w - x,
        {
            let p = mean(image.get(x - 1, y), image.get(x, y), image.get(x + 1, y));
            let ghost before = hb;
            proof {
                crate::image::lemma_offset_distinct(x as int, y as int, x as int, y as int, w as int, h as int);
            }
            hb.set(x, y, p);
            proof {
                assert forall|px: int, py: int| #[trigger] hb.contains(px, py) implies hb.pixel(px, py)
                    == if py < y || (py == y && 1 <= px < x + 1) {
                    blur_h(*image, px, py)
                } else {
                    0
                } by {
                    crate::image::lemma_offset_distinct(px, py, x as int, y as int, w as int, h as int);
                    if !(px == x && py == y) {
                        assert(before.contains(px, py));
                    }
                }
            }
            x = x + 1;
        }
        proof {
            assert forall|px: int, py: int| #[trigger] hb.contains(px, py) implies hb.pixel(px, py)
                == if py < y + 1 {
                blur_h(*image, px, py)
            } else {
                0
            } by {
                assert(hb.contains(px, py));
            }
        }
        y = y + 1;
    }
    proof {
        assert forall|px: int, py: int| #[trigger] hb.contains(px, py) implies hb.pixel(px, py)
            == blur_h(*image, px, py) by {
            assert(hb.contains(px, py));
        }
    }
    hb
}

/// 3x3 blur where the horizontal blur is computed and stored before
/// computing the vertical blur.
pub fn blur3_intermediate(image: &GrayImage) -> (r: GrayImage)
    requires
        image.spec_width() >= 1,
        image.spec_height() >= 1,
    ensures
        is_blur_of(r, *image),
{
    let (w, h) = image.dimensions();
    let hb = horizontal_pass(image);
    let mut v = blank_like(image);
    let mut y: usize = 1;
    while y < h - 1
        invariant
            w == image.spec_width(),
            h == image.spec_height(),
            w >= 1,
            1 <= y <= h - 1 || h == 1,
            hb.spec_width() == w,
            hb.spec_height() == h,
            forall|px: int, py: int| #[trigger] hb.contains(px, py) ==> hb.pixel(px, py) == blur_h(*image, px, py),
            v.spec_width() == w,
            v.spec_height() == h,
            v.spec_data().len() == w * h,
            forall|px: int, py: int| #[trigger]
                v.contains(px, py) ==> v.pixel(px, py) == if 1 <= py < y {
                    blurred(*image, px, py)
                } else {
                    0
                },
        decreases h - y,
    {
        let mut x: usize = 0;
        while x < w
            invariant
                w == image.spec_width(),
                h == image.spec_height(),
                1 <= y < h - 1,
                x <= w,
                hb.spec_width() == w,
                hb.spec_height() == h,
                forall|px: int, py: int| #[trigger] hb.contains(px, py) ==> hb.pixel(px, py) == blur_h(*image, px, py),
                v.spec_width() == w,
                v.spec_height() == h,
                v.spec_data().len() == w * h,
                forall|px: int, py: int| #[trigger]
                    v.contains(px, py) ==> v.pixel(px, py) == if 1 <= py < y || (py == y && px < x) {
                        blurred(*image, px, py)
                    } else {
                        0
                    },
            decreases w - x,
        {
            let a = hb.get(x, y - 1);
            let b = hb.get(x, y);
            let c = hb.get(x, y + 1);
            let p = mean(a, b, c);
            assert(hb.contains(x as int, y - 1) && hb.contains(x as int, y as int) && hb.contains(x as int, y + 1));
            assert(p == blurred(*image, x as int, y as int));
            let ghost before = v;
            proof {
                crate::image::lemma_offset_distinct(x as int, y as int, x as int, y as int, w as int, h as int);
            }
            v.set(x, y, p);
            proof {
                assert forall|px: int, py: int| #[trigger] v.contains(px, py) implies v.pixel(px, py)
                    == if 1 <= py < y || (py == y && px < x + 1) {
                    blurred(*image, px, py)
                } else {
                    0
                } by {
                    crate::image::lemma_offset_distinct(px, py, x as int, y as int, w as int, h as int);
                    if !(px == x && py == y) {
                        assert(before.contains(px, py));
                    }
                }
            }
            x = x + 1;
        }
        proof {
            assert forall|px: int, py: int| #[trigger] v.contains(px, py) implies v.pixel(px, py)
                == if 1 <= py < y + 1 {
                blurred(*image, px, py)
            } else {
                0
            } by {
                assert(v.contains(px, py));
            }
        }
        y = y + 1;
    }
    proof {
        assert forall|px: int, py: int| #[trigger] v.contains(px, py) implies v.pixel(px, py) == blurred(
            *image,
            px,
            py,
        ) by {
            assert(v.contains(px, py));
        }
    }
    v
}

/// 3x3 blur that stores the whole horizontal blur but consumes each row
/// of it as soon as the three rows it needs are there.
pub fn blur3_local_intermediate(image: &GrayImage) -> (r: GrayImage)
    requires
        image.spec_width() >= 1,
        image.spec_height() > 2,
    ensures
        is_blur_of(r, *image),
{
    let (w, h) = image.dimensions();
    let mut hb = blank_like(image);
    let mut v = blank_like(image);
    // The first three rows of the horizontal blur, and the first row of
    // the result.
    let mut x: usize = 1;
    while x < w - 1
        invariant
            w == image.spec_width(),
            h == image.spec_height(),
            h > 2,
            1 <= x <= w - 1 || w == 1,
            hb.spec_width() == w,
            hb.spec_height() == h,
            hb.spec_data().len() == w * h,
            v.spec_width() == w,
            v.spec_height() == h,
            v.spec_data().len() == w * h,
            forall|px: int, py: int| #[trigger]
                hb.contains(px, py) ==> hb.pixel(px, py) == if py < 3 && px < x {
                    blur_h(*image, px, py)
                } else {
                    0
                },
            forall|px: int, py: int| #[trigger]
                v.contains(px, py) ==> v.pixel(px, py) == if py == 1 && 1 <= px < x {
                    blurred(*image, px, py)
                } else {
                    0
                },
        decreases w - x,
    {
        let ghost hb0 = hb;
        let ghost v0 = v;
        let p0 = mean(image.get(x - 1, 0), image.get(x, 0), image.get(x + 1, 0));
        let p1 = mean(image.get(x - 1, 1), image.get(x, 1), image.get(x + 1, 1));
        let p2 = mean(image.get(x - 1, 2), image.get(x, 2), image.get(x + 1, 2));
        proof {
            crate::image::lemma_offset_distinct(x as int, 0, x as int, 0, w as int, h as int);
            crate::image::lemma_offset_distinct(x as int, 1, x as int, 1, w as int, h as int);
            crate::image::lemma_offset_distinct(x as int, 2, x as int, 2, w as int, h as int);
        }
        hb.set(x, 0, p0);
        let ghost hb1 = hb;
        hb.set(x, 1, p1);
        let ghost hb2 = hb;
        hb.set(x, 2, p2);
        let q = mean(hb.get(x, 0), hb.get(x, 1), hb.get(x, 2));
        proof {
            assert forall|px: int, py: int| #[trigger] hb.contains(px, py) implies hb.pixel(px, py)
                == if py < 3 && px < x + 1 {
                blur_h(*image, px, py)
            } else {
                0
            } by {
                crate::image::lemma_offset_distinct(px, py, x as int, 0, w as int, h as int);
                crate::image::lemma_offset_distinct(px, py, x as int, 1, w as int, h as int);
                crate::image::lemma_offset_distinct(px, py, x as int, 2, w as int, h as int);
                assert(hb0.contains(px, py));
                assert(hb1.contains(px, py));
                assert(hb2.contains(px, py));
            }
            assert(hb.contains(x as int, 0) && hb.contains(x as int, 1) && hb.contains(x as int, 2));
            crate::image::lemma_offset_distinct(x as int, 1, x as int, 1, w as int, h as int);
        }
        v.set(x, 1, q);
        proof {
            assert forall|px: int, py: int| #[trigger] v.contains(px, py) implies v.pixel(px, py)
                == if py == 1 && 1 <= px < x + 1 {
                blurred(*image, px, py)
            } else {
                0
            } by {
                crate::image::lemma_offset_distinct(px, py, x as int, 1, w as int, h as int);
                assert(v0.contains(px, py));
            }
        }
        x = x + 1;
    }
    proof {
        assert forall|px: int, py: int| #[trigger] hb.contains(px, py) implies hb.pixel(px, py)
            == if py < 3 { blur_h(*image, px, py) } else { 0 } by {
            assert(hb.contains(px, py));
        }
        assert forall|px: int, py: int| #[trigger] v.contains(px, py) implies v.pixel(px, py)
            == if 1 <= py < 2 { blurred(*image, px, py) } else { 0 } by {
            assert(v.contains(px, py));
        }
    }
    let mut y: usize = 3;
    while y < h
        invariant
            w == image.spec_width(),
            h == image.spec_height(),
            w >= 1,
            3 <= y <= h,
            hb.spec_width() == w,
            hb.spec_height() == h,
            hb.spec_data().len() == w * h,
            v.spec_width() == w,
            v.spec_height() == h,
            v.spec_data().len() == w * h,
            forall|px: int, py: int| #[trigger]
                hb.contains(px, py) ==> hb.pixel(px, py) == if py < y { blur_h(*image, px, py) } else { 0 },
            forall|px: int, py: int| #[trigger]
                v.contains(px, py) ==> v.pixel(px, py) == if 1 <= py < y - 1 {
                    blurred(*image, px, py)
                } else {
                    0
                },
        decreases h - y,
    {
        let mut x: usize = 1;
        while x < w - 1
            invariant
                w == image.spec_width(),
                h == image.spec_height(),
                3 <= y < h,
                1 <= x <= w - 1 || w == 1,
                hb.spec_width() == w,
                hb.spec_height() == h,
                hb.spec_data().len() == w * h,
                v.spec_width() == w,
                v.spec_height() == h,
                v.spec_data().len() == w * h,
                forall|px: int, py: int| #[trigger]
                    hb.contains(px, py) ==> hb.pixel(px, py) == if py < y || (py == y && px < x) {
                        blur_h(*image, px, py)
                    } else {
                        0
                    },
                forall|px: int, py: int| #[trigger]
                    v.contains(px, py) ==> v.pixel(px, py) == if 1 <= py < y - 1 || (py == y - 1 && 1 <= px
                        < x) {
                        blurred(*image, px, py)
                    } else {
                        0
                    },
            decreases w - x,
        {
            let ghost hb0 = hb;
            let ghost v0 = v;
            let p = mean(image.get(x - 1, y), image.get(x, y), image.get(x + 1, y));
            proof {
                crate::image::lemma_offset_distinct(x as int, y as int, x as int, y as int, w as int, h as int);
            }
            hb.set(x, y, p);
            let q = mean(hb.get(x, y - 2), hb.get(x, y - 1), hb.get(x, y));
            proof {
                assert forall|px: int, py: int| #[trigger] hb.contains(px, py) implies hb.pixel(px, py)
                    == if py < y || (py == y && px < x + 1) {
                    blur_h(*image, px, py)
                } else {
                    0
                } by {
                    crate::image::lemma_offset_distinct(px, py, x as int, y as int, w as int, h as int);
                    assert(hb0.contains(px, py));
                }
                assert(hb.contains(x as int, y - 2) && hb.contains(x as int, y - 1) && hb.contains(x as int, y as int));
                crate::image::lemma_offset_distinct(x as int, y - 1, x as int, y - 1, w as int, h as int);
            }
            v.set(x, y - 1, q);
            proof {
                assert forall|px: int, py: int| #[trigger] v.contains(px, py) implies v.pixel(px, py)
                    == if 1 <= py < y - 1 || (py == y - 1 && 1 <= px < x + 1) {
                    blurred(*image, px, py)
                } else {
                    0
                } by {
                    crate::image::lemma_offset_distinct(px, py, x as int, y - 1, w as int, h as int);
                    assert(v0.contains(px, py));
                }
            }
            x = x + 1;
        }
        proof {
            assert forall|px: int, py: int| #[trigger] hb.contains(px, py) implies hb.pixel(px, py)
                == if py < y + 1 { blur_h(*image, px, py) } else { 0 } by {
                assert(hb.contains(px, py));
            }
            assert forall|px: int, py: int| #[trigger] v.contains(px, py) implies v.pixel(px, py)
                == if 1 <= py < y { blurred(*image, px, py) } else { 0 } by {
                assert(v.contains(px, py));
            }
        }
        y = y + 1;
    }
    proof {
        assert forall|px: int, py: int| #[trigger] v.contains(px, py) implies v.pixel(px, py) == blurred(
            *image,
            px,
            py,
        ) by {
            assert(v.contains(px, py));
        }
    }
    v
}

/// What the strip holds for the strip that starts at image row `y_offset`
/// once its first `filled` rows are computed: row `yb` of the strip is the
/// horizontal blur of image row `y_offset + yb - 1`, where that row exists.
pub open spec fn strip_value(img: GrayImage, y_offset: int, filled: int, x: int, yb: int) -> u8 {
    if yb < filled && 1 <= yb + y_offset <= img.spec_height() {
        blur_h(img, x, yb + y_offset - 1)
    } else {
        0
    }
}

/// 3x3 blur where a strip of the horizontal blur, `strip_height` rows and
/// the row above and below, is computed and stored at a time.
pub fn blur3_split_y(image: &GrayImage, strip_height: usize) -> (r: GrayImage)
    requires
        strip_height > 0,
        image.spec_height() % (strip_height as nat) == 0,
        image.spec_width() >= 1,
        image.spec_height() >= 2,
        (strip_height + 2) * image.spec_width() <= usize::MAX,
        image.spec_height() + 2 <= usize::MAX,
    ensures
        is_blur_of(r, *image),
{
    let (w, h) = image.dimensions();
    let sh = strip_height;
    proof {
        assert(sh + 2 <= (sh + 2) * w) by (nonlinear_arith)
            requires
                w >= 1,
        ;
        assert(w * (sh + 2) == (sh + 2) * w) by (nonlinear_arith);
        assert(sh <= h) by (nonlinear_arith)
            requires
                h % sh == 0,
                h >= 2,
                sh > 0,
        ;
    }
    let mut strip: GrayImage = GrayImage::new(w, sh + 2);
    let mut v = blank_like(image);
    let n = h / sh;
    proof {
        assert(n * sh == h) by (nonlinear_arith)
            requires
                h % sh == 0,
                n == h / sh,
                sh > 0,
        ;
    }
    let mut y_outer: usize = 0;
    while y_outer < n
        invariant
            w == image.spec_width(),
            h == image.spec_height(),
            w >= 1,
            h >= 2,
            h + 2 <= usize::MAX,
            sh > 0,
            n * sh == h,
            y_outer <= n,
            strip.spec_width() == w,
            strip.spec_height() == sh + 2,
            strip.spec_data().len() == w * (sh + 2),
            v.spec_width() == w,
            v.spec_height() == h,
            v.spec_data().len() == w * h,
            forall|px: int, py: int| #[trigger]
                v.contains(px, py) ==> v.pixel(px, py) == if py < y_outer * sh {
                    blurred(*image, px, py)
                } else {
                    0
                },
        decreases n - y_outer,
    {
        proof {
            assert((y_outer + 1) * sh <= n * sh) by (nonlinear_arith)
                requires
                    y_outer < n,
            ;
            assert((y_outer + 1) * sh == y_outer * sh + sh) by (nonlinear_arith);
        }
        let y_offset = y_outer * sh;
        strip.clear();
        proof {
            assert forall|px: int, yb: int| #[trigger] strip.contains(px, yb) implies strip.pixel(px, yb) == 0 by {
                crate::image::lemma_offset_distinct(px, yb, px, yb, w as int, sh + 2);
            }
        }
        // Populate the strip with the horizontal blur.
        let mut y_buffer: usize = 0;
        while y_buffer < sh + 2
            invariant
                w == image.spec_width(),
                h == image.spec_height(),
                w >= 1,
                h + 2 <= usize::MAX,
                y_offset + sh <= h,
                y_buffer <= sh + 2,
                strip.spec_width() == w,
                strip.spec_height() == sh + 2,
                strip.spec_data().len() == w * (sh + 2),
                forall|px: int, yb: int| #[trigger]
                    strip.contains(px, yb) ==> strip.pixel(px, yb) == strip_value(
                        *image,
                        y_offset as int,
                        y_buffer as int,
                        px,
                        yb,
                    ),
            decreases sh + 2 - y_buffer,
        {
            if y_buffer + y_offset >= 1 && y_buffer + y_offset <= h {
                let y_image = y_buffer + y_offset - 1;
                let mut x: usize = 1;
                while x < w - 1
                    invariant
                        w == image.spec_width(),
                        h == image.spec_height(),
                        y_image < h,
                        y_image == y_buffer + y_offset - 1,
                        y_buffer < sh + 2,
                        1 <= x <= w - 1 || w == 1,
                        strip.spec_width() == w,
                        strip.spec_height() == sh + 2,
                        strip.spec_data().len() == w * (sh + 2),
                        forall|px: int, yb: int| #[trigger]
                            strip.contains(px, yb) ==> strip.pixel(px, yb) == if yb == y_buffer && px < x {
                                blur_h(*image, px, y_image as int)
                            } else {
                                strip_value(*image, y_offset as int, y_buffer as int, px, yb)
                            },
                    decreases w - x,
                {
                    let p = mean(image.get(x - 1, y_image), image.get(x, y_image), image.get(x + 1, y_image));
                    let ghost before = strip;
                    proof {
                        crate::image::lemma_offset_distinct(x as int, y_buffer as int, x as int, y_buffer as int, w as int, sh + 2);
                    }
                    strip.set(x, y_buffer, p);
                    proof {
                        assert forall|px: int, yb: int| #[trigger] strip.contains(px, yb) implies strip.pixel(px, yb)
                            == if yb == y_buffer && px < x + 1 {
                            blur_h(*image, px, y_image as int)
                        } else {
                            strip_value(*image, y_offset as int, y_buffer as int, px, yb)
                        } by {
                            crate::image::lemma_offset_distinct(px, yb, x as int, y_buffer as int, w as int, sh + 2);
                            assert(before.contains(px, yb));
                        }
                    }
                    x = x + 1;
                }
                proof {
                    assert forall|px: int, yb: int| #[trigger] strip.contains(px, yb) implies strip.pixel(px, yb)
                        == strip_value(*image, y_offset as int, y_buffer + 1, px, yb) by {
                        assert(strip.contains(px, yb));
                    }
                }
            } else {
                proof {
                    assert forall|px: int, yb: int| #[trigger] strip.contains(px, yb) implies strip.pixel(px, yb)
                        == strip_value(*image, y_offset as int, y_buffer + 1, px, yb) by {
                        assert(strip.contains(px, yb));
                    }
                }
            }
            y_buffer = y_buffer + 1;
        }
        // Compute the vertical blur from the strip.
        let mut y_inner: usize = 0;
        while y_inner < sh
            invariant
                w == image.spec_width(),
                h == image.spec_height(),
                h >= 2,
                y_offset == y_outer * sh,
                y_offset + sh <= h,
                y_inner <= sh,
                strip.spec_width() == w,
                strip.spec_height() == sh + 2,
                forall|px: int, yb: int| #[trigger]
                    strip.contains(px, yb) ==> strip.pixel(px, yb) == strip_value(
                        *image,
                        y_offset as int,
                        sh + 2,
                        px,
                        yb,
                    ),
                v.spec_width() == w,
                v.spec_height() == h,
                v.spec_data().len() == w * h,
                forall|px: int, py: int| #[trigger]
                    v.contains(px, py) ==> v.pixel(px, py) == if py < y_offset + y_inner {
                        blurred(*image, px, py)
                    } else {
                        0
                    },
            decreases sh - y_inner,
        {
            if y_inner + y_offset >= 1 && y_inner + y_offset <= h - 2 {
                let y_buffer = y_inner + 1;
                let y = y_inner + y_offset;
                let mut x: usize = 0;
                while x < w
                    invariant
                        w == image.spec_width(),
                        h == image.spec_height(),
                        1 <= y <= h - 2,
                        y == y_inner + y_offset,
                        y_buffer == y_inner + 1,
                        y_inner < sh,
                        x <= w,
                        strip.spec_width() == w,
                        strip.spec_height() == sh + 2,
                        forall|px: int, yb: int| #[trigger]
                            strip.contains(px, yb) ==> strip.pixel(px, yb) == strip_value(
                                *image,
                                y_offset as int,
                                sh + 2,
                                px,
                                yb,
                            ),
                        v.spec_width() == w,
                        v.spec_height() == h,
                        v.spec_data().len() == w * h,
                        forall|px: int, py: int| #[trigger]
                            v.contains(px, py) ==> v.pixel(px, py) == if py < y || (py == y && px < x) {
                                blurred(*image, px, py)
                            } else {
                                0
                            },
                    decreases w - x,
                {
                    let a = strip.get(x, y_buffer - 1);
                    let b = strip.get(x, y_buffer);
                    let c = strip.get(x, y_buffer + 1);
                    assert(strip.contains(x as int, y_buffer - 1) && strip.contains(x as int, y_buffer as int)
                        && strip.contains(x as int, y_buffer + 1));
                    let p = mean(a, b, c);
                    let ghost before = v;
                    proof {
                        crate::image::lemma_offset_distinct(x as int, y as int, x as int, y as int, w as int, h as int);
                    }
                    v.set(x, y, p);
                    proof {
                        assert forall|px: int, py: int| #[trigger] v.contains(px, py) implies v.pixel(px, py)
                            == if py < y || (py == y && px < x + 1) {
                            blurred(*image, px, py)
                        } else {
                            0
                        } by {
                            crate::image::lemma_offset_distinct(px, py, x as int, y as int, w as int, h as int);
                            assert(before.contains(px, py));
                        }
                    }
                    x = x + 1;
                }
                proof {
                    assert forall|px: int, py: int| #[trigger] v.contains(px, py) implies v.pixel(px, py)
                        == if py < y_offset + y_inner + 1 {
                        blurred(*image, px, py)
                    } else {
                        0
                    } by {
                        assert(v.contains(px, py));
                    }
                }
            } else {
                proof {
                    assert forall|px: int, py: int| #[trigger] v.contains(px, py) implies v.pixel(px, py)
                        == if py < y_offset + y_inner + 1 {
                        blurred(*image, px, py)
                    } else {
                        0
                    } by {
                        assert(v.contains(px, py));
                    }
                }
            }
            y_inner = y_inner + 1;
        }
        y_outer = y_outer + 1;
    }
    proof {
        assert forall|px: int, py: int| #[trigger] v.contains(px, py) implies v.pixel(px, py) == blurred(
            *image,
            px,
            py,
        ) by {
            assert(v.contains(px, py));
        }
    }
    v
}

/// What the tile at `(x_offset, y_offset)` holds once its first `filled`
/// rows are computed: row `yb` holds the horizontal blur of image row
/// `y_offset + yb - 1`, where that row exists.
pub open spec fn tile_value(img: GrayImage, x_offset: int, y_offset: int, filled: int, xb: int, yb: int) -> u8 {
    if yb < filled && 1 <= yb + y_offset <= img.spec_height() {
        blur_h(img, xb + x_offset, yb + y_offset - 1)
    } else {
        0
    }
}

/// Pixel `(px, py)` lies in a tile computed before the tile at
/// `(x_offset, y_offset)`, tiles being `tw` by `th` and covering the first
/// `cw` columns.
pub open spec fn tile_done(px: int, py: int, x_offset: int, y_offset: int, th: int, cw: int) -> bool {
    0 <= px < cw && (py < y_offset || (py < y_offset + th && px < x_offset))
}

/// 3x3 blur computed tile by tile: for each `tile_width` by `tile_height`
/// tile of the result, the horizontal blur of the rows it needs is
/// computed and stored first. Columns right of the last whole tile are
/// left 0.
pub fn blur3_tiled(image: &GrayImage, tile_width: usize, tile_height: usize) -> (r: GrayImage)
    requires
        tile_width > 0,
        tile_height > 0,
        image.spec_height() % (tile_width as nat) == 0,
        image.spec_height() % (tile_height as nat) == 0,
        image.spec_width() >= 2,
        image.spec_height() >= 2,
        image.spec_height() + 2 <= usize::MAX,
        tile_width * (tile_height + 2) <= usize::MAX,
    ensures
        r.spec_width() == image.spec_width(),
        r.spec_height() == image.spec_height(),
        forall|x: int, y: int| #[trigger]
            r.contains(x, y) ==> r.pixel(x, y) == if x < (image.spec_width() / (tile_width as nat))
                * tile_width {
                blurred(*image, x, y)
            } else {
                0
            },
{
    let (w, h) = image.dimensions();
    let (tw, th) = (tile_width, tile_height);
    proof {
        assert(th <= h) by (nonlinear_arith)
            requires
                h % th == 0,
                h >= 2,
                th > 0,
        ;
        assert(th + 2 <= tw * (th + 2)) by (nonlinear_arith)
            requires
                tw >= 1,
        ;
    }
    let mut tile: GrayImage = GrayImage::new(tw, th + 2);
    let mut result = blank_like(image);
    let ny = h / th;
    let nx = w / tw;
    proof {
        assert(nx * tw <= w) by (nonlinear_arith)
            requires
                nx == w / tw,
                tw > 0,
        ;
    }
    let cw = nx * tw;
    proof {
        assert(ny * th == h) by (nonlinear_arith)
            requires
                h % th == 0,
                ny == h / th,
                th > 0,
        ;
        assert(nx * tw <= w) by (nonlinear_arith)
            requires
                nx == w / tw,
                tw > 0,
        ;
    }
    let mut y_outer: usize = 0;
    while y_outer < ny
        invariant
            w == image.spec_width(),
            h == image.spec_height(),
            w >= 2,
            h >= 2,
            h + 2 <= usize::MAX,
            tw > 0,
            th > 0,
            ny * th == h,
            nx == w / tw,
            cw == nx * tw,
            cw <= w,
            y_outer <= ny,
            tile.spec_width() == tw,
            tile.spec_height() == th + 2,
            tile.spec_data().len() == tw * (th + 2),
            result.spec_width() == w,
            result.spec_height() == h,
            result.spec_data().len() == w * h,
            forall|px: int, py: int| #[trigger]
                result.contains(px, py) ==> result.pixel(px, py) == if tile_done(px, py, 0, y_outer * th, th as int, cw as int) {
                    blurred(*image, px, py)
                } else {
                    0
                },
        decreases ny - y_outer,
    {
        proof {
            assert((y_outer + 1) * th <= ny * th) by (nonlinear_arith)
                requires
                    y_outer < ny,
            ;
            assert((y_outer + 1) * th == y_outer * th + th) by (nonlinear_arith);
        }
        let y_offset = y_outer * th;
        let mut x_outer: usize = 0;
        while x_outer < nx
            invariant
                w == image.spec_width(),
                h == image.spec_height(),
                w >= 2,
                h >= 2,
                h + 2 <= usize::MAX,
                tw > 0,
                th > 0,
                y_offset == y_outer * th,
                y_offset + th <= h,
                cw == nx * tw,
                cw <= w,
                x_outer <= nx,
                tile.spec_width() == tw,
                tile.spec_height() == th + 2,
                tile.spec_data().len() == tw * (th + 2),
                result.spec_width() == w,
                result.spec_height() == h,
                result.spec_data().len() == w * h,
                forall|px: int, py: int| #[trigger]
                    result.contains(px, py) ==> result.pixel(px, py) == if tile_done(px, py, x_outer * tw, y_offset as int, th as int, cw as int) {
                        blurred(*image, px, py)
                    } else {
                        0
                    },
            decreases nx - x_outer,
        {
            proof {
                assert((x_outer + 1) * tw <= nx * tw) by (nonlinear_arith)
                    requires
                        x_outer < nx,
                ;
                assert((x_outer + 1) * tw == x_outer * tw + tw) by (nonlinear_arith);
            }
            let x_offset = x_outer * tw;
            tile.clear();
            proof {
                assert forall|px: int, yb: int| #[trigger] tile.contains(px, yb) implies tile.pixel(px, yb) == 0 by {
                    crate::image::lemma_offset_distinct(px, yb, px, yb, tw as int, th + 2);
                }
            }
            // Populate the tile with the horizontal blur.
            let mut y_buffer: usize = 0;
            while y_buffer < th + 2
                invariant
                    w == image.spec_width(),
                    h == image.spec_height(),
                    h + 2 <= usize::MAX,
                    x_offset + tw <= w,
                    y_offset + th <= h,
                    y_buffer <= th + 2,
                    tile.spec_width() == tw,
                    tile.spec_height() == th + 2,
                    tile.spec_data().len() == tw * (th + 2),
                    forall|px: int, yb: int| #[trigger]
                        tile.contains(px, yb) ==> tile.pixel(px, yb) == tile_value(*image, x_offset as int, y_offset as int, y_buffer as int, px, yb),
                decreases th + 2 - y_buffer,
            {
                if y_buffer + y_offset >= 1 && y_buffer + y_offset <= h {
                    let y_image = y_buffer + y_offset - 1;
                    let mut x_buffer: usize = 0;
                    while x_buffer < tw
                        invariant
                            w == image.spec_width(),
                            h == image.spec_height(),
                            x_offset + tw <= w,
                            y_image < h,
                            y_image == y_buffer + y_offset - 1,
                            y_buffer < th + 2,
                            x_buffer <= tw,
                            tile.spec_width() == tw,
                            tile.spec_height() == th + 2,
                            tile.spec_data().len() == tw * (th + 2),
                            forall|px: int, yb: int| #[trigger]
                                tile.contains(px, yb) ==> tile.pixel(px, yb) == if yb == y_buffer && px < x_buffer {
                                    blur_h(*image, px + x_offset, y_image as int)
                                } else {
                                    tile_value(*image, x_offset as int, y_offset as int, y_buffer as int, px, yb)
                                },
                        decreases tw - x_buffer,
                    {
                        let x_image = x_buffer + x_offset;
                        // The first and last columns have no horizontal
                        // blur; nothing reads them from the tile.
                        if x_image >= 1 && x_image + 1 < w {
                            let p = mean(
                                image.get(x_image - 1, y_image),
                                image.get(x_image, y_image),
                                image.get(x_image + 1, y_image),
                            );
                            let ghost before = tile;
                            proof {
                                crate::image::lemma_offset_distinct(x_buffer as int, y_buffer as int, x_buffer as int, y_buffer as int, tw as int, th + 2);
                            }
                            tile.set(x_buffer, y_buffer, p);
                            proof {
                                assert forall|px: int, yb: int| #[trigger] tile.contains(px, yb) implies tile.pixel(px, yb)
                                    == if yb == y_buffer && px < x_buffer + 1 {
                                    blur_h(*image, px + x_offset, y_image as int)
                                } else {
                                    tile_value(*image, x_offset as int, y_offset as int, y_buffer as int, px, yb)
                                } by {
                                    crate::image::lemma_offset_distinct(px, yb, x_buffer as int, y_buffer as int, tw as int, th + 2);
                                    assert(before.contains(px, yb));
                                }
                            }
                        } else {
                            proof {
                                assert forall|px: int, yb: int| #[trigger] tile.contains(px, yb) implies tile.pixel(px, yb)
                                    == if yb == y_buffer && px < x_buffer + 1 {
                                    blur_h(*image, px + x_offset, y_image as int)
                                } else {
                                    tile_value(*image, x_offset as int, y_offset as int, y_buffer as int, px, yb)
                                } by {
                                    assert(tile.contains(px, yb));
                                }
                            }
                        }
                        x_buffer = x_buffer + 1;
                    }
                    proof {
                        assert forall|px: int, yb: int| #[trigger] tile.contains(px, yb) implies tile.pixel(px, yb)
                            == tile_value(*image, x_offset as int, y_offset as int, y_buffer + 1, px, yb) by {
                            assert(tile.contains(px, yb));
                        }
                    }
                } else {
                    proof {
                        assert forall|px: int, yb: int| #[trigger] tile.contains(px, yb) implies tile.pixel(px, yb)
                            == tile_value(*image, x_offset as int, y_offset as int, y_buffer + 1, px, yb) by {
                            assert(tile.contains(px, yb));
                        }
                    }
                }
                y_buffer = y_buffer + 1;
            }
            // Compute the vertical blur of the tile.
            let mut y_inner: usize = 0;
            while y_inner < th
                invariant
                    w == image.spec_width(),
                    h == image.spec_height(),
                    w >= 2,
                    h >= 2,
                    y_offset + th <= h,
                    x_offset == x_outer * tw,
                    x_offset + tw <= cw,
                    cw <= w,
                    y_inner <= th,
                    tile.spec_width() == tw,
                    tile.spec_height() == th + 2,
                    forall|px: int, yb: int| #[trigger]
                        tile.contains(px, yb) ==> tile.pixel(px, yb) == tile_value(*image, x_offset as int, y_offset as int, th + 2, px, yb),
                    result.spec_width() == w,
                    result.spec_height() == h,
                    result.spec_data().len() == w * h,
                    forall|px: int, py: int| #[trigger]
                        result.contains(px, py) ==> result.pixel(px, py) == if tile_done(px, py, x_offset as int, y_offset as int, th as int, cw as int)
                            || (x_offset <= px < x_offset + tw && y_offset <= py < y_offset + y_inner) {
                            blurred(*image, px, py)
                        } else {
                            0
                        },
                decreases th - y_inner,
            {
                let y = y_inner + y_offset;
                let mut x_inner: usize = 0;
                while x_inner < tw
                    invariant
                        w == image.spec_width(),
                        h == image.spec_height(),
                        w >= 2,
                        h >= 2,
                        y_offset + th <= h,
                        y == y_inner + y_offset,
                        y_inner < th,
                        x_offset + tw <= cw,
                        cw <= w,
                        x_inner <= tw,
                        tile.spec_width() == tw,
                        tile.spec_height() == th + 2,
                        forall|px: int, yb: int| #[trigger]
                            tile.contains(px, yb) ==> tile.pixel(px, yb) == tile_value(*image, x_offset as int, y_offset as int, th + 2, px, yb),
                        result.spec_width() == w,
                        result.spec_height() == h,
                        result.spec_data().len() == w * h,
                        forall|px: int, py: int| #[trigger]
                            result.contains(px, py) ==> result.pixel(px, py) == if tile_done(px, py, x_offset as int, y_offset as int, th as int, cw as int)
                                || (x_offset <= px < x_offset + tw && y_offset <= py < y)
                                || (py == y && x_offset <= px < x_offset + x_inner) {
                                blurred(*image, px, py)
                            } else {
                                0
                            },
                    decreases tw - x_inner,
                {
                    let x = x_inner + x_offset;
                    if y >= 1 && y <= h - 2 && x >= 1 && x <= w - 2 {
                        let y_buffer = y_inner + 1;
                        let a = tile.get(x_inner, y_buffer - 1);
                        let b = tile.get(x_inner, y_buffer);
                        let c = tile.get(x_inner, y_buffer + 1);
                        assert(tile.contains(x_inner as int, y_buffer - 1) && tile.contains(x_inner as int, y_buffer as int)
                            && tile.contains(x_inner as int, y_buffer + 1));
                        let p = mean(a, b, c);
                        let ghost before = result;
                        proof {
                            crate::image::lemma_offset_distinct(x as int, y as int, x as int, y as int, w as int, h as int);
                        }
                        result.set(x, y, p);
                        proof {
                            assert forall|px: int, py: int| #[trigger] result.contains(px, py) implies result.pixel(px, py)
                                == if tile_done(px, py, x_offset as int, y_offset as int, th as int, cw as int)
                                || (x_offset <= px < x_offset + tw && y_offset <= py < y)
                                || (py == y && x_offset <= px < x_offset + x_inner + 1) {
                                blurred(*image, px, py)
                            } else {
                                0
                            } by {
                                crate::image::lemma_offset_distinct(px, py, x as int, y as int, w as int, h as int);
                                assert(before.contains(px, py));
                            }
                        }
                    } else {
                        proof {
                            assert forall|px: int, py: int| #[trigger] result.contains(px, py) implies result.pixel(px, py)
                                == if tile_done(px, py, x_offset as int, y_offset as int, th as int, cw as int)
                                || (x_offset <= px < x_offset + tw && y_offset <= py < y)
                                || (py == y && x_offset <= px < x_offset + x_inner + 1) {
                                blurred(*image, px, py)
                            } else {
                                0
                            } by {
                                assert(result.contains(px, py));
                            }
                        }
                    }
                    x_inner = x_inner + 1;
                }
                proof {
                    assert forall|px: int, py: int| #[trigger] result.contains(px, py) implies result.pixel(px, py)
                        == if tile_done(px, py, x_offset as int, y_offset as int, th as int, cw as int)
                        || (x_offset <= px < x_offset + tw && y_offset <= py < y_offset + y_inner + 1) {
                        blurred(*image, px, py)
                    } else {
                        0
                    } by {
                        assert(result.contains(px, py));
                    }
                }
                y_inner = y_inner + 1;
            }
            proof {
                assert forall|px: int, py: int| #[trigger] result.contains(px, py) implies result.pixel(px, py)
                    == if tile_done(px, py, (x_outer + 1) * tw, y_offset as int, th as int, cw as int) {
                    blurred(*image, px, py)
                } else {
                    0
                } by {
                    assert(result.contains(px, py));
                }
            }
            x_outer = x_outer + 1;
        }
        proof {
            assert(x_outer * tw == cw);
            assert forall|px: int, py: int| #[trigger] result.contains(px, py) implies result.pixel(px, py)
                == if tile_done(px, py, 0, (y_outer + 1) * th, th as int, cw as int) {
                blurred(*image, px, py)
            } else {
                0
            } by {
                assert(result.contains(px, py));
            }
        }
        y_outer = y_outer + 1;
    }
    proof {
        assert forall|px: int, py: int| #[trigger] result.contains(px, py) implies result.pixel(px, py)
            == if px < (w as nat / (tw as nat)) * tw { blurred(*image, px, py) } else { 0 } by {
            assert(result.contains(px, py));
        }
    }
    result
}

/// 3x3 blur with no intermediate storage, on traced images: every read of
/// `image`, every write of the result and each active pixel is recorded
/// in the factory's trace, so that the blur can be replayed.
pub fn blur3_inline_traced(factory: &mut TraceImageFactory, image: &TraceImage) -> (r: TraceImage)
    requires
        old(factory).trace.wf(),
        image.registered_in(old(factory).trace),
        image.spec_image().spec_width() >= 1,
        image.spec_image().spec_height() >= 1,
    ensures
        final(factory).trace.wf(),
        r.registered_in(final(factory).trace),
        image.registered_in(final(factory).trace),
        is_blur_of(r.spec_image(), image.spec_image()),
{
    let (w, h) = image.image().dimensions();
    let ghost src = image.spec_image();
    let mut result = factory.create_image(w, h);
    proof {
        let id = image.spec_id().0 as int;
        assert(factory.trace.spec_initial_images()[id] == old(factory).trace.spec_initial_images()[id]);
        assert forall|px: int, py: int| #[trigger] result.spec_image().contains(px, py) implies result.spec_image().pixel(px, py)
            == 0 by {
            crate::image::lemma_offset_distinct(px, py, px, py, w as int, h as int);
        }
    }
    let mut y: usize = 1;
    while y < h - 1
        invariant
            w == src.spec_width(),
            h == src.spec_height(),
            src == image.spec_image(),
            w >= 1,
            1 <= y <= h - 1 || h == 1,
            factory.trace.wf(),
            image.registered_in(factory.trace),
            result.registered_in(factory.trace),
            result.spec_image().spec_width() == w,
            result.spec_image().spec_height() == h,
            result.spec_image().spec_data().len() == w * h,
            forall|px: int, py: int| #[trigger]
                result.spec_image().contains(px, py) ==> result.spec_image().pixel(px, py) == if 1 <= py < y {
                    blurred(src, px, py)
                } else {
                    0
                },
        decreases h - y,
    {
        let mut x: usize = 1;
        while x < w - 1
            invariant
                w == src.spec_width(),
                h == src.spec_height(),
                src == image.spec_image(),
                1 <= y < h - 1,
                1 <= x <= w - 1 || w == 1,
                factory.trace.wf(),
                image.registered_in(factory.trace),
                result.registered_in(factory.trace),
                result.spec_image().spec_width() == w,
                result.spec_image().spec_height() == h,
                result.spec_image().spec_data().len() == w * h,
                forall|px: int, py: int| #[trigger]
                    result.spec_image().contains(px, py) ==> result.spec_image().pixel(px, py) == if 1 <= py < y
                        || (py == y && 1 <= px < x) {
                        blurred(src, px, py)
                    } else {
                        0
                    },
            decreases w - x,
        {
            result.active(&mut factory.trace, x, y, 1, 1);
            let t = mean(
                image.get(&mut factory.trace, x - 1, y - 1),
                image.get(&mut factory.trace, x, y - 1),
                image.get(&mut factory.trace, x + 1, y - 1),
            );
            let m = mean(
                image.get(&mut factory.trace, x - 1, y),
                image.get(&mut factory.trace, x, y),
                image.get(&mut factory.trace, x + 1, y),
            );
            let b = mean(
                image.get(&mut factory.trace, x - 1, y + 1),
                image.get(&mut factory.trace, x, y + 1),
                image.get(&mut factory.trace, x + 1, y + 1),
            );
            let p = mean(t, m, b);
            let ghost before = result.spec_image();
            proof {
                crate::image::lemma_offset_distinct(x as int, y as int, x as int, y as int, w as int, h as int);
            }
            result.set(&mut factory.trace, x, y, p);
            proof {
                assert forall|px: int, py: int| #[trigger] result.spec_image().contains(px, py) implies result.spec_image().pixel(px, py)
                    == if 1 <= py < y || (py == y && 1 <= px < x + 1) {
                    blurred(src, px, py)
                } else {
                    0
                } by {
                    crate::image::lemma_offset_distinct(px, py, x as int, y as int, w as int, h as int);
                    assert(before.contains(px, py));
                }
            }
            x = x + 1;
        }
        proof {
            assert forall|px: int, py: int| #[trigger] result.spec_image().contains(px, py) implies result.spec_image().pixel(px, py)
                == if 1 <= py < y + 1 {
                blurred(src, px, py)
            } else {
                0
            } by {
                assert(result.spec_image().contains(px, py));
            }
        }
        y = y + 1;
    }
    proof {
        assert forall|px: int, py: int| #[trigger] result.spec_image().contains(px, py) implies result.spec_image().pixel(px, py)
            == blurred(src, px, py) by {
            assert(result.spec_image().contains(px, py));
        }
    }
    result
}

} // verus!