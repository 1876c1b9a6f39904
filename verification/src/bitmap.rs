//! The bitmap that a maze is read from, and the classification of its cells.

use vstd::prelude::*;

verus! {

/// What a cell of the bitmap is.
#[derive(Clone, Copy, Debug, PartialEq, Eq, Structural)]
pub enum BlockState {
    /// A dark pixel.
    Wall,
    /// A light pixel.
    Open,
    /// No pixel: the coordinates lie outside the bitmap.
    OutOfBounds,
}

/// Intensity below which a pixel counts as a wall unless another threshold
/// is chosen.
pub const DEFAULT_THRESHOLD: u8 = 150;

/// The greatest width and height of a bitmap, so that every cell has a
/// position.
pub const MAX_SIDE: usize = 0xFFFF;

/// A bitmap as a mathematical value: luminance samples in row-major order
/// and the threshold that tells dark from light.
pub struct Raster {
    pub width: int,
    pub height: int,
    pub threshold: u8,
    pub pixels: Seq<u8>,
}

impl Raster {
    /// The sides are within bounds and there is one sample for each cell.
    pub open spec fn well_formed(self) -> bool {
        &&& 0 <= self.width <= MAX_SIDE
        &&& 0 <= self.height <= MAX_SIDE
        &&& self.pixels.len() == self.width * self.height
    }

    /// Whether `(x, y)` names a cell of the bitmap.
    pub open spec fn in_bounds(self, x: int, y: int) -> bool {
        0 <= x < self.width && 0 <= y < self.height
    }

    /// The luminance of the cell `(x, y)`.
    pub open spec fn sample(self, x: int, y: int) -> u8
        recommends
            self.in_bounds(x, y),
    {
        self.pixels[y * self.width + x]
    }

    /// What the cell `(x, y)` is.
    pub open spec fn block(self, x: int, y: int) -> BlockState {
        if !self.in_bounds(x, y) {
            BlockState::OutOfBounds
        } else if self.sample(x, y) < self.threshold {
            BlockState::Wall
        } else {
            BlockState::Open
        }
    }

    /// Whether the cell `(x, y)` exists and is open.
    pub open spec fn is_open(self, x: int, y: int) -> bool {
        self.block(x, y) == BlockState::Open
    }
}

/// The row-major index of a cell lies within the samples.
pub proof fn lemma_index_in_range(width: int, height: int, x: int, y: int)
    requires
        0 <= x < width,
        0 <= y < height,
    ensures
        0 <= y * width + x < width * height,
{
    assert(y * width + x < width * height) by (nonlinear_arith)
        requires
            0 <= x < width,
            0 <= y < height,
    {
        assert((y + 1) * width <= height * width);
    }
    assert(0 <= y * width) by (nonlinear_arith)
        requires
            0 <= y,
            0 < width,
    ;
}

/// A grayscale bitmap with the threshold that tells its walls from its open
/// cells.
pub struct Bitmap {
    width: usize,
    height: usize,
    threshold: u8,
    pixels: Vec<u8>,
}

impl View for Bitmap {
    type V = Raster;

    closed spec fn view(&self) -> Raster {
        Raster {
            width: self.width as int,
            height: self.height as int,
            threshold: self.threshold,
            pixels: self.pixels@,
        }
    }
}

impl Bitmap {
    #[verifier::type_invariant]
    closed spec fn valid(self) -> bool {
        self@.well_formed()
    }

    /// A bitmap of the given sides from its samples in row-major order.
    /// `None` if a side exceeds `MAX_SIDE` or the number of samples is not
    /// `width * height`.
    pub fn new(width: usize, height: usize, pixels: Vec<u8>, threshold: u8) -> (r: Option<Bitmap>)
        ensures
            r.is_some() <==> width <= MAX_SIDE && height <= MAX_SIDE && pixels@.len() == width
                * height,
            r matches Some(b) ==> b@ == (Raster {
                width: width as int,
                height: height as int,
                threshold,
                pixels: pixels@,
            }),
    {
        if width > MAX_SIDE || height > MAX_SIDE {
            return None;
        }
        assert(width * height <= 0xFFFF * 0xFFFF) by (nonlinear_arith)
            requires
                width <= 0xFFFF,
                height <= 0xFFFF,
        ;
        if pixels.len() != width * height {
            return None;
        }
        Some(Bitmap { width, height, threshold, pixels })
    }

    /// Number of columns.
    pub fn width(&self) -> (w: usize)
        ensures
            self@.well_formed(),
            w == self@.width,
    {
        proof {
            use_type_invariant(self);
        }
        self.width
    }

    /// Number of rows.
    pub fn height(&self) -> (h: usize)
        ensures
            self@.well_formed(),
            h == self@.height,
    {
        proof {
            use_type_invariant(self);
        }
        self.height
    }

    /// The threshold below which a sample is a wall.
    pub fn threshold(&self) -> (t: u8)
        ensures
            t == self@.threshold,
    {
        self.threshold
    }

    /// The luminance of the cell `(x, y)`.
    pub fn sample(&self, x: usize, y: usize) -> (v: u8)
        requires
            self@.in_bounds(x as int, y as int),
        ensures
            v == self@.sample(x as int, y as int),
    {
        proof {
            use_type_invariant(self);
            lemma_index_in_range(self.width as int, self.height as int, x as int, y as int);
            assert(y * self.width <= 0xFFFF * 0xFFFF) by (nonlinear_arith)
                requires
                    y <= 0xFFFF,
                    self.width <= 0xFFFF,
            ;
        }
        self.pixels[y * self.width + x]
    }
}

/// What the cell `(x, y)` of the bitmap is. Coordinates outside the bitmap,
/// negative ones among them, are `OutOfBounds`; a sample below the threshold
/// is a `Wall`; any other is `Open`.
pub fn classify(bitmap: &Bitmap, x: i64, y: i64) -> (state: BlockState)
    ensures
        bitmap@.well_formed(),
        state == bitmap@.block(x as int, y as int),
{
    let width: usize = bitmap.width();
    let height: usize = bitmap.height();
    if x < 0 || y < 0 || x >= width as i64 || y >= height as i64 {
        return BlockState::OutOfBounds;
    }
    if bitmap.sample(x as usize, y as usize) < bitmap.threshold() {
        BlockState::Wall
    } else {
        BlockState::Open
    }
}

} // verus!
