//! Images stored as a row-major buffer of pixels.

use vstd::prelude::*;

verus! {

/// Any type with a "zero" value, used when initialising and clearing
/// images.
pub trait Zero: Sized {
    spec fn spec_zero() -> Self;

    fn zero() -> (r: Self)
        ensures
            r == Self::spec_zero(),
    ;
}

impl Zero for u8 {
    open spec fn spec_zero() -> u8 {
        0
    }

    fn zero() -> (r: u8) {
        0
    }
}

impl Zero for [u8; 3] {
    open spec fn spec_zero() -> [u8; 3] {
        [0u8, 0u8, 0u8]
    }

    fn zero() -> (r: [u8; 3]) {
        [0, 0, 0]
    }
}

/// A `width` by `height` image; the pixel at `(x, y)` is
/// `buffer[y * width + x]`. The buffer may be longer than the image.
#[derive(Debug)]
pub struct ImageBuffer<T> {
    width: usize,
    height: usize,
    buffer: Vec<T>,
}

pub type GrayImage = ImageBuffer<u8>;

pub type RgbImage = ImageBuffer<[u8; 3]>;

impl<T> ImageBuffer<T> {
    #[verifier::type_invariant]
    spec fn holds_all_pixels(self) -> bool {
        self.width * self.height <= self.buffer@.len()
    }

    pub closed spec fn spec_width(&self) -> nat {
        self.width as nat
    }

    pub closed spec fn spec_height(&self) -> nat {
        self.height as nat
    }

    /// The raw buffer.
    pub closed spec fn spec_data(&self) -> Seq<T> {
        self.buffer@
    }

    /// The pixel at `(x, y)`.
    pub open spec fn pixel(&self, x: int, y: int) -> T {
        self.spec_data()[y * self.spec_width() + x]
    }

    /// Whether `(x, y)` lies inside the image.
    pub open spec fn contains(&self, x: int, y: int) -> bool {
        0 <= x < self.spec_width() && 0 <= y < self.spec_height()
    }

    pub fn width(&self) -> (r: usize)
        ensures
            r == self.spec_width(),
    {
        self.width
    }

    pub fn height(&self) -> (r: usize)
        ensures
            r == self.spec_height(),
    {
        self.height
    }

    /// The width and height; the buffer holds at least their product of
    /// pixels.
    pub fn dimensions(&self) -> (r: (usize, usize))
        ensures
            r.0 == self.spec_width(),
            r.1 == self.spec_height(),
            r.0 * r.1 <= self.spec_data().len(),
            self.spec_data().len() <= usize::MAX,
    {
        let n = self.buffer.len();
        proof {
            use_type_invariant(self);
        }
        (self.width, self.height)
    }

    pub fn data(&self) -> (r: &[T])
        ensures
            r@ == self.spec_data(),
    {
        self.buffer.as_slice()
    }
}

/// The width and height of an image fit in `usize`.
pub proof fn lemma_dims_fit<T>(img: ImageBuffer<T>)
    ensures
        img.spec_width() <= usize::MAX,
        img.spec_height() <= usize::MAX,
{
}

/// Where the pixel at `(x, y)` of a `w`-wide image sits in its buffer.
proof fn lemma_offset(x: int, y: int, w: int, h: int)
    requires
        0 <= x < w,
        0 <= y < h,
    ensures
        0 <= y * w + x < w * h,
{
    assert(y * w <= (h - 1) * w) by (nonlinear_arith)
        requires
            0 <= y < h,
            0 <= w,
    ;
    assert((h - 1) * w + w == w * h) by (nonlinear_arith);
}

/// Distinct pixels of a `w` by `h` image sit at distinct offsets.
pub proof fn lemma_offset_distinct(x1: int, y1: int, x2: int, y2: int, w: int, h: int)
    requires
        0 <= x1 < w,
        0 <= y1 < h,
        0 <= x2 < w,
        0 <= y2 < h,
    ensures
        (y1 * w + x1 == y2 * w + x2) <==> (x1 == x2 && y1 == y2),
        0 <= y1 * w + x1 < w * h,
{
    lemma_offset(x1, y1, w, h);
    if y1 < y2 {
        assert(y1 * w + w <= y2 * w) by (nonlinear_arith)
            requires
                y1 < y2,
                0 <= w,
        ;
    } else if y2 < y1 {
        assert(y2 * w + w <= y1 * w) by (nonlinear_arith)
            requires
                y2 < y1,
                0 <= w,
        ;
    }
}

impl<T: Copy> ImageBuffer<T> {
    /// An image whose pixels are all `T::zero()`.
    pub fn new(width: usize, height: usize) -> (r: ImageBuffer<T>) where T: Zero
        requires
            width * height <= usize::MAX,
        ensures
            r.spec_width() == width,
            r.spec_height() == height,
            r.spec_data().len() == width * height,
            forall|i: int| 0 <= i < width * height ==> r.spec_data()[i] == T::spec_zero(),
    {
        let n = width * height;
        let mut buffer: Vec<T> = Vec::new();
        let z = T::zero();
        while buffer.len() < n
            invariant
                buffer@.len() <= n,
                forall|i: int| 0 <= i < buffer@.len() ==> buffer@[i] == z,
            decreases n - buffer@.len(),
        {
            buffer.push(z);
        }
        ImageBuffer { width, height, buffer }
    }

    /// The image held in `buffer`, which must have room for all its pixels.
    pub fn from_raw(width: usize, height: usize, buffer: Vec<T>) -> (r: ImageBuffer<T>)
        requires
            width * height <= buffer@.len(),
        ensures
            r.spec_width() == width,
            r.spec_height() == height,
            r.spec_data() == buffer@,
    {
        ImageBuffer { width, height, buffer }
    }

    pub fn get(&self, x: usize, y: usize) -> (r: T)
        requires
            self.contains(x as int, y as int),
        ensures
            r == self.pixel(x as int, y as int),
    {
        let n = self.buffer.len();
        proof {
            use_type_invariant(self);
            lemma_offset(x as int, y as int, self.width as int, self.height as int);
        }
        self.buffer[y * self.width + x]
    }

    pub fn set(&mut self, x: usize, y: usize, c: T)
        requires
            old(self).contains(x as int, y as int),
        ensures
            final(self).spec_width() == old(self).spec_width(),
            final(self).spec_height() == old(self).spec_height(),
            final(self).spec_data() == old(self).spec_data().update(
                y * old(self).spec_width() + x,
                c,
            ),
        no_unwind
    {
        let n = self.buffer.len();
        proof {
            use_type_invariant(&*self);
            lemma_offset(x as int, y as int, self.width as int, self.height as int);
        }
        let i = y * self.width + x;
        self.buffer[i] = c;
    }

    /// Sets every element of the buffer to `T::zero()`.
    pub fn clear(&mut self) where T: Zero
        ensures
            final(self).spec_width() == old(self).spec_width(),
            final(self).spec_height() == old(self).spec_height(),
            final(self).spec_data().len() == old(self).spec_data().len(),
            forall|i: int|
                0 <= i < final(self).spec_data().len() ==> final(self).spec_data()[i] == T::spec_zero(),
    {
        proof {
            use_type_invariant(&*self);
        }
        let z = T::zero();
        let mut buffer = Vec::new();
        let n = self.buffer.len();
        while buffer.len() < n
            invariant
                buffer@.len() <= n,
                forall|i: int| 0 <= i < buffer@.len() ==> buffer@[i] == z,
            decreases n - buffer@.len(),
        {
            buffer.push(z);
        }
        self.buffer = buffer;
    }

    /// An exact copy of the image.
    pub fn duplicate(&self) -> (r: ImageBuffer<T>)
        ensures
            r.spec_width() == self.spec_width(),
            r.spec_height() == self.spec_height(),
            r.spec_data() == self.spec_data(),
    {
        proof {
            use_type_invariant(self);
        }
        let mut buffer: Vec<T> = Vec::new();
        let n = self.buffer.len();
        while buffer.len() < n
            invariant
                n == self.buffer@.len(),
                buffer@.len() <= n,
                buffer@ == self.buffer@.take(buffer@.len() as int),
            decreases n - buffer@.len(),
        {
            let ghost k: int = buffer@.len() as int;
            buffer.push(self.buffer[buffer.len()]);
            assert(buffer@ =~= self.buffer@.take(k + 1));
        }
        assert(buffer@ =~= self.buffer@);
        ImageBuffer { width: self.width, height: self.height, buffer }
    }
}

/// Allocates plain grey images.
#[derive(Debug)]
pub struct BufferFactory {}

impl BufferFactory {
    pub fn new() -> (r: BufferFactory) {
        BufferFactory {}
    }

    /// A blank image of the given size.
    pub fn create_image(&mut self, width: usize, height: usize) -> (r: GrayImage)
        requires
            width * height <= usize::MAX,
        ensures
            r.spec_width() == width,
            r.spec_height() == height,
            r.spec_data().len() == width * height,
            forall|i: int| 0 <= i < width * height ==> r.spec_data()[i] == 0,
    {
        GrayImage::new(width, height)
    }
}

/// The grey image as an RGB image with three equal channels per pixel.
pub fn gray_to_rgb(image: &GrayImage) -> (r: RgbImage)
    ensures
        r.spec_width() == image.spec_width(),
        r.spec_height() == image.spec_height(),
        r.spec_data().len() == image.spec_data().len(),
        forall|i: int|
            0 <= i < r.spec_data().len() ==> #[trigger] r.spec_data()[i] == [
                image.spec_data()[i],
                image.spec_data()[i],
                image.spec_data()[i],
            ],
{
    let (w, h) = image.dimensions();
    let data = image.data();
    let mut rgb: Vec<[u8; 3]> = Vec::new();
    let mut i: usize = 0;
    while i < data.len()
        invariant
            data@ == image.spec_data(),
            i <= data@.len(),
            rgb@.len() == i,
            forall|j: int| 0 <= j < i ==> #[trigger] rgb@[j] == [data@[j], data@[j], data@[j]],
        decreases data@.len() - i,
    {
        let p = data[i];
        rgb.push([p, p, p]);
        i = i + 1;
    }
    ImageBuffer::from_raw(w, h, rgb)
}

/// The channels of the pixels, one after another.
pub fn flatten(buffer: &[[u8; 3]]) -> (r: Vec<u8>)
    requires
        3 * buffer@.len() <= usize::MAX,
    ensures
        r@.len() == 3 * buffer@.len(),
        forall|i: int, k: int| 0 <= i < buffer@.len() && 0 <= k < 3 ==> #[trigger] r@[3 * i + k] == buffer@[i][k],
{
    let mut flat: Vec<u8> = Vec::new();
    let mut i: usize = 0;
    while i < buffer.len()
        invariant
            i <= buffer@.len(),
            flat@.len() == 3 * i,
            forall|j: int, k: int| 0 <= j < i && 0 <= k < 3 ==> #[trigger] flat@[3 * j + k] == buffer@[j][k],
        decreases buffer@.len() - i,
    {
        let e = buffer[i];
        flat.push(e[0]);
        flat.push(e[1]);
        flat.push(e[2]);
        assert forall|j: int, k: int| 0 <= j < i + 1 && 0 <= k < 3 implies #[trigger] flat@[3 * j + k] == buffer@[j][k] by {
            if j == i {
                assert(3 * j + k == 3 * i + k);
            } else {
                assert(3 * j + k < 3 * i) by (nonlinear_arith)
                    requires
                        j < i,
                        k < 3,
                ;
            }
        }
        i = i + 1;
    }
    flat
}

} // verus!