use vstd::prelude::*;

verus! {

/// Flat position of the pixel at column `x`, row `y` in a row-major grid of
/// the given width.
pub open spec fn pos(width: int, x: int, y: int) -> int {
    y * width + x
}

/// Mean channel intensity of a colour.
pub open spec fn intensity(c: [u8; 3]) -> int {
    (c[0] as int + c[1] as int + c[2] as int) / 3
}

/// The flat position of an in-bounds pixel indexes the grid.
pub proof fn lemma_pos_in_bounds(width: int, height: int, x: int, y: int)
    requires
        0 <= x < width,
        0 <= y < height,
    ensures
        0 <= pos(width, x, y) < width * height,
{
    assert(0 <= y * width) by (nonlinear_arith)
        requires 0 <= y, 0 <= width;
    assert(y * width + x < width * height) by (nonlinear_arith)
        requires 0 <= x < width, 0 <= y < height;
}

/// Distinct pixels of a row have distinct flat positions.
pub proof fn lemma_pos_injective(width: int, x1: int, y1: int, x2: int, y2: int)
    requires
        0 <= x1 < width,
        0 <= x2 < width,
        0 <= y1,
        0 <= y2,
        pos(width, x1, y1) == pos(width, x2, y2),
    ensures
        x1 == x2,
        y1 == y2,
{
    if y1 < y2 {
        assert(y1 * width + width <= y2 * width) by (nonlinear_arith)
            requires y1 < y2, 0 <= width;
    } else if y2 < y1 {
        assert(y2 * width + width <= y1 * width) by (nonlinear_arith)
            requires y2 < y1, 0 <= width;
    }
}

/// Every flat position of a grid is the position of some pixel.
pub proof fn lemma_pos_cover(width: int, height: int, k: int)
    requires
        0 <= width,
        0 <= height,
        0 <= k < width * height,
    ensures
        0 <= k % width < width,
        0 <= k / width < height,
        pos(width, k % width, k / width) == k,
{
    if width == 0 {
        assert(width * height == 0);
    }
    assert(k == (k / width) * width + k % width && 0 <= k % width < width) by (nonlinear_arith)
        requires width > 0;
    assert(0 <= k / width) by (nonlinear_arith)
        requires width > 0, k >= 0;
    assert(k / width < height) by (nonlinear_arith)
        requires width > 0, 0 <= k < width * height, k == (k / width) * width + k % width, k % width >= 0;
}

/// A width × height grid of RGB pixels, stored row-major.
pub struct Raster {
    pub width: u32,
    pub height: u32,
    pub pixels: Vec<[u8; 3]>,
}

impl Raster {
    pub open spec fn wf(&self) -> bool {
        self.pixels@.len() == self.width as int * self.height as int
    }

    pub open spec fn in_bounds(&self, x: int, y: int) -> bool {
        0 <= x < self.width && 0 <= y < self.height
    }

    pub open spec fn pixel(&self, x: int, y: int) -> [u8; 3] {
        self.pixels@[pos(self.width as int, x, y)]
    }

    /// A raster of the given size with every pixel set to `fill`; `None` when
    /// the pixel count does not fit in memory indices.
    pub fn new(width: u32, height: u32, fill: [u8; 3]) -> (r: Option<Raster>)
        ensures
            r is None <==> width as int * height as int > usize::MAX,
            r matches Some(img) ==> {
                &&& img.wf()
                &&& img.width == width
                &&& img.height == height
                &&& forall|k: int| 0 <= k < img.pixels@.len() ==> img.pixels@[k] == fill
            },
    {
        let n = match (width as usize).checked_mul(height as usize) {
            Some(n) => n,
            None => return None,
        };
        let mut pixels: Vec<[u8; 3]> = Vec::new();
        let mut k: usize = 0;
        while k < n
            invariant
                k <= n,
                pixels@.len() == k,
                forall|j: int| 0 <= j < k ==> pixels@[j] == fill,
            decreases n - k,
        {
            pixels.push(fill);
            k = k + 1;
        }
        Some(Raster { width, height, pixels })
    }

    /// A raster over the given row-major pixels; `None` unless their count is
    /// `width * height`.
    pub fn from_pixels(width: u32, height: u32, pixels: Vec<[u8; 3]>) -> (r: Option<Raster>)
        ensures
            r is Some <==> pixels@.len() == width as int * height as int,
            r matches Some(img) ==> img.wf() && img.width == width && img.height == height
                && img.pixels@ == pixels@,
    {
        let len = pixels.len();
        match (width as usize).checked_mul(height as usize) {
            Some(n) => {
                if len == n {
                    Some(Raster { width, height, pixels })
                } else {
                    None
                }
            },
            None => None,
        }
    }

    pub fn width(&self) -> (r: u32)
        ensures
            r == self.width,
    {
        self.width
    }

    pub fn height(&self) -> (r: u32)
        ensures
            r == self.height,
    {
        self.height
    }

    fn index_of(&self, x: u32, y: u32) -> (k: usize)
        requires
            self.wf(),
            self.in_bounds(x as int, y as int),
        ensures
            k as int == pos(self.width as int, x as int, y as int),
            k < self.pixels@.len(),
    {
        let len = self.pixels.len();
        proof {
            lemma_pos_in_bounds(self.width as int, self.height as int, x as int, y as int);
            assert(y as int * self.width as int <= pos(self.width as int, x as int, y as int));
        }
        y as usize * self.width as usize + x as usize
    }

    pub fn get_pixel(&self, x: u32, y: u32) -> (r: [u8; 3])
        requires
            self.wf(),
            self.in_bounds(x as int, y as int),
        ensures
            r == self.pixel(x as int, y as int),
    {
        let k = self.index_of(x, y);
        self.pixels[k]
    }

    pub fn put_pixel(&mut self, x: u32, y: u32, c: [u8; 3])
        requires
            old(self).wf(),
            old(self).in_bounds(x as int, y as int),
        ensures
            final(self).wf(),
            final(self).width == old(self).width,
            final(self).height == old(self).height,
            final(self).pixels@ == old(self).pixels@.update(
                pos(old(self).width as int, x as int, y as int),
                c,
            ),
    {
        let k = self.index_of(x, y);
        self.pixels.set(k, c);
    }
}

/// Mean channel intensity of a colour.
pub fn pixel_value(c: [u8; 3]) -> (r: u8)
    ensures
        r as int == intensity(c),
{
    ((c[0] as u32 + c[1] as u32 + c[2] as u32) / 3) as u8
}

} // verus!
