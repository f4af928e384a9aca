use vstd::prelude::*;
use crate::raster::{Raster, pos, intensity, pixel_value, lemma_pos_in_bounds};
use crate::grapheme::{AnalyzedImage, Grapheme, assigned_before, cell, distinct_places, neighbour, flat_index, reached_from, lemma_reached_same, row_major_before, linked};

verus! {

/// Thresholds that decide which pixels are background.
#[derive(Clone, Copy)]
pub struct ImageAnalyzer {
    pub off_white_threshold: u8,
    pub lightness_threshold: u8,
    pub lightness_distance: u32,
    /// Whether diagonal neighbours join a grapheme (8-connectivity) besides
    /// the orthogonal ones (4-connectivity).
    pub diagonal_connectivity: bool,
}

impl Default for ImageAnalyzer {
    fn default() -> (r: Self)
        ensures
            r.off_white_threshold == 240,
            r.lightness_threshold == 100,
            r.lightness_distance == 1,
            !r.diagonal_connectivity,
    {
        ImageAnalyzer {
            off_white_threshold: 240,
            lightness_threshold: 100,
            lightness_distance: 1,
            diagonal_connectivity: false,
        }
    }
}

/// Why an image cannot be analyzed.
#[derive(Clone, Copy, Debug, PartialEq, Eq)]
pub enum AnalyzeError {
    /// The image has no pixels: its width or its height is zero.
    EmptyImage,
}

/// Whether (qx, qy) is an in-bounds pixel of the square window of half-width
/// `d` around (x, y).
pub open spec fn in_window(img: &Raster, x: int, y: int, d: int, qx: int, qy: int) -> bool {
    &&& img.in_bounds(qx, qy)
    &&& x - d <= qx <= x + d
    &&& y - d <= qy <= y + d
}

/// Whether every pixel in the window of half-width `d` around (x, y) has an
/// intensity of at least `t`.
pub open spec fn window_at_least(img: &Raster, x: int, y: int, d: int, t: int) -> bool {
    forall|qx: int, qy: int|
        #[trigger] in_window(img, x, y, d, qx, qy) ==> intensity(img.pixel(qx, qy)) >= t
}

impl ImageAnalyzer {
    /// How many directions of `neighbour` connect pixels: 4, or 8 with
    /// diagonals.
    pub open spec fn directions(&self) -> int {
        if self.diagonal_connectivity {
            8
        } else {
            4
        }
    }

    /// The background rule: an off-white pixel, or a light pixel with no pixel
    /// darker than the lightness threshold nearby.
    pub open spec fn is_background(&self, img: &Raster, x: int, y: int) -> bool {
        let v = intensity(img.pixel(x, y));
        ||| v >= self.off_white_threshold
        ||| (v >= self.lightness_threshold && window_at_least(
            img,
            x,
            y,
            self.lightness_distance as int,
            self.lightness_threshold as int,
        ))
    }

    /// Splits `image` into background and graphemes: the maximal groups of
    /// connected ink pixels, found in row-major order of their first pixel.
    pub fn analyze(&self, image: &Raster) -> (r: Result<AnalyzedImage, AnalyzeError>)
        requires
            image.wf(),
        ensures
            r is Err <==> image.width == 0 || image.height == 0,
            r matches Ok(a) ==> {
                &&& a.wf()
                &&& a.width == image.width
                &&& a.height == image.height
                &&& forall|x: int, y: int|
                    #![trigger a.grapheme_at(x, y)]
                    a.in_bounds(x, y) ==> (a.grapheme_at(x, y) is None <==> self.is_background(
                        image,
                        x,
                        y,
                    ))
                &&& forall|x: int, y: int, d: int|
                    #![trigger a.grapheme_at(x, y), neighbour(x, y, d)]
                    a.in_bounds(x, y) && 0 <= d < self.directions() && a.in_bounds(
                        neighbour(x, y, d).0,
                        neighbour(x, y, d).1,
                    ) && !self.is_background(image, x, y) && !self.is_background(
                        image,
                        neighbour(x, y, d).0,
                        neighbour(x, y, d).1,
                    ) ==> a.grapheme_at(x, y) == a.grapheme_at(
                        neighbour(x, y, d).0,
                        neighbour(x, y, d).1,
                    )
                &&& forall|i: int, j: int|
                    #![trigger a.graphemes@[i].pixels@[j]]
                    0 <= i < a.graphemes@.len() && 0 <= j < a.graphemes@[i].pixels@.len()
                        ==> a.graphemes@[i].pixels@[j].2 == image.pixel(
                        a.graphemes@[i].pixels@[j].0 as int,
                        a.graphemes@[i].pixels@[j].1 as int,
                    )
                &&& forall|i: int|
                    0 <= i < a.graphemes@.len() ==> (#[trigger] a.graphemes@[i]).manual_override is None
                &&& forall|x: int, y: int|
                    #![trigger a.grapheme_at(x, y)]
                    a.in_bounds(x, y) && a.grapheme_at(x, y) is Some ==> a.reaches(
                        self.directions(),
                        a.grapheme_at(x, y).unwrap() as int,
                        x,
                        y,
                    )
                &&& forall|i: int, j: int|
                    #![trigger a.graphemes@[i].pixels@[j]]
                    0 <= i < a.graphemes@.len() && 0 <= j < a.graphemes@[i].pixels@.len()
                        ==> !row_major_before(
                        a.graphemes@[i].pixels@[j].0 as int,
                        a.graphemes@[i].pixels@[j].1 as int,
                        a.start(i).0,
                        a.start(i).1,
                    )
                &&& forall|i1: int, i2: int|
                    0 <= i1 < i2 < a.graphemes@.len() ==> row_major_before(
                        #[trigger] a.start(i1).0,
                        a.start(i1).1,
                        #[trigger] a.start(i2).0,
                        a.start(i2).1,
                    )
            },
    {
        if image.width == 0 || image.height == 0 {
            return Err(AnalyzeError::EmptyImage);
        }
        let dirs: u32 = if self.diagonal_connectivity { 8 } else { 4 };
        let ghost k = dirs as int;
        let mask = self.background_mask(image);
        let mut analyzed = AnalyzedImage::new(image);
        let ghost w = image.width as int;
        let w = image.width;
        let h = image.height;
        proof {
            assert forall|a: int, b: int| image.in_bounds(a, b) implies
                #[trigger] cell(analyzed.map@, w as int, a, b) is None by {
                lemma_pos_in_bounds(w as int, h as int, a, b);
            }
        }
        let mut y: u32 = 0;
        while y < h
            invariant
                image.wf(),
                k == dirs as int,
                dirs == 4 || dirs == 8,
                k == self.directions(),
                w == image.width,
                h == image.height,
                w as int == w,
                y <= h,
                mask@.len() == image.pixels@.len(),
                forall|a: int, b: int|
                    image.in_bounds(a, b) ==> #[trigger] cell(mask@, w as int, a, b)
                        == self.is_background(image, a, b),
                analyzed.width == w,
                analyzed.height == h,
                analyzed.map@.len() == image.pixels@.len(),
                assigned_before(image, mask@, analyzed.map@, k, analyzed.graphemes@.len() as int),
                forall|a: int, b: int|
                    #![trigger cell(analyzed.map@, w as int, a, b)]
                    image.in_bounds(a, b) && cell(analyzed.map@, w as int, a, b) is Some
                        ==> analyzed.graphemes@[cell(analyzed.map@, w as int, a, b).unwrap() as int].contains(a, b),
                forall|a: int, b: int|
                    #![trigger cell(analyzed.map@, w as int, a, b)]
                    image.in_bounds(a, b) && b < y && !cell(mask@, w as int, a, b)
                        ==> cell(analyzed.map@, w as int, a, b) is Some,
                forall|i: int|
                    #![trigger analyzed.graphemes@[i]]
                    0 <= i < analyzed.graphemes@.len() ==> analyzed.graphemes@[i].box_tight()
                        && distinct_places(analyzed.graphemes@[i].pixels@)
                        && analyzed.graphemes@[i].manual_override is None,
                forall|i: int, j: int|
                    #![trigger analyzed.graphemes@[i].pixels@[j]]
                    0 <= i < analyzed.graphemes@.len() && 0 <= j < analyzed.graphemes@[i].pixels@.len() ==> {
                        let p = analyzed.graphemes@[i].pixels@[j];
                        &&& image.in_bounds(p.0 as int, p.1 as int)
                        &&& cell(analyzed.map@, w as int, p.0 as int, p.1 as int) == Some(i as usize)
                        &&& p.2 == image.pixel(p.0 as int, p.1 as int)
                    },
                forall|i: int|
                    #![trigger analyzed.graphemes@[i]]
                    0 <= i < analyzed.graphemes@.len() ==> reached_from(
                        image,
                        analyzed.map@, k,
                        i,
                        analyzed.graphemes@[i].pixels@[0].0 as int,
                        analyzed.graphemes@[i].pixels@[0].1 as int,
                    ) && row_major_before(
                        analyzed.graphemes@[i].pixels@[0].0 as int,
                        analyzed.graphemes@[i].pixels@[0].1 as int,
                        0, y as int,
                    ),
                forall|i1: int, i2: int|
                    0 <= i1 < i2 < analyzed.graphemes@.len() ==> row_major_before(
                        (#[trigger] analyzed.graphemes@[i1]).pixels@[0].0 as int,
                        analyzed.graphemes@[i1].pixels@[0].1 as int,
                        (#[trigger] analyzed.graphemes@[i2]).pixels@[0].0 as int,
                        analyzed.graphemes@[i2].pixels@[0].1 as int,
                    ),
                forall|i: int, j: int|
                    #![trigger analyzed.graphemes@[i].pixels@[j]]
                    0 <= i < analyzed.graphemes@.len() && 0 <= j < analyzed.graphemes@[i].pixels@.len()
                        ==> !row_major_before(
                        analyzed.graphemes@[i].pixels@[j].0 as int,
                        analyzed.graphemes@[i].pixels@[j].1 as int,
                        analyzed.graphemes@[i].pixels@[0].0 as int,
                        analyzed.graphemes@[i].pixels@[0].1 as int,
                    ),
            decreases h - y,
        {
            let mut x: u32 = 0;
            while x < w
                invariant
                    image.wf(),
                    k == dirs as int,
                    dirs == 4 || dirs == 8,
                    k == self.directions(),
                    w == image.width,
                    h == image.height,
                    y < h,
                    x <= w,
                    mask@.len() == image.pixels@.len(),
                    forall|a: int, b: int|
                        image.in_bounds(a, b) ==> #[trigger] cell(mask@, w as int, a, b)
                            == self.is_background(image, a, b),
                    analyzed.width == w,
                    analyzed.height == h,
                    analyzed.map@.len() == image.pixels@.len(),
                    assigned_before(image, mask@, analyzed.map@, k, analyzed.graphemes@.len() as int),
                    forall|a: int, b: int|
                        #![trigger cell(analyzed.map@, w as int, a, b)]
                        image.in_bounds(a, b) && cell(analyzed.map@, w as int, a, b) is Some
                            ==> analyzed.graphemes@[cell(analyzed.map@, w as int, a, b).unwrap() as int].contains(a, b),
                    forall|a: int, b: int|
                        #![trigger cell(analyzed.map@, w as int, a, b)]
                        image.in_bounds(a, b) && (b < y || (b == y && a < x)) && !cell(mask@, w as int, a, b)
                            ==> cell(analyzed.map@, w as int, a, b) is Some,
                    forall|i: int|
                        #![trigger analyzed.graphemes@[i]]
                        0 <= i < analyzed.graphemes@.len() ==> analyzed.graphemes@[i].box_tight()
                            && distinct_places(analyzed.graphemes@[i].pixels@)
                            && analyzed.graphemes@[i].manual_override is None,
                    forall|i: int, j: int|
                        #![trigger analyzed.graphemes@[i].pixels@[j]]
                        0 <= i < analyzed.graphemes@.len() && 0 <= j < analyzed.graphemes@[i].pixels@.len() ==> {
                            let p = analyzed.graphemes@[i].pixels@[j];
                            &&& image.in_bounds(p.0 as int, p.1 as int)
                            &&& cell(analyzed.map@, w as int, p.0 as int, p.1 as int) == Some(i as usize)
                            &&& p.2 == image.pixel(p.0 as int, p.1 as int)
                        },
                forall|i: int|
                    #![trigger analyzed.graphemes@[i]]
                    0 <= i < analyzed.graphemes@.len() ==> reached_from(
                        image,
                        analyzed.map@, k,
                        i,
                        analyzed.graphemes@[i].pixels@[0].0 as int,
                        analyzed.graphemes@[i].pixels@[0].1 as int,
                    ) && row_major_before(
                        analyzed.graphemes@[i].pixels@[0].0 as int,
                        analyzed.graphemes@[i].pixels@[0].1 as int,
                        x as int, y as int,
                    ),
                forall|i1: int, i2: int|
                    0 <= i1 < i2 < analyzed.graphemes@.len() ==> row_major_before(
                        (#[trigger] analyzed.graphemes@[i1]).pixels@[0].0 as int,
                        analyzed.graphemes@[i1].pixels@[0].1 as int,
                        (#[trigger] analyzed.graphemes@[i2]).pixels@[0].0 as int,
                        analyzed.graphemes@[i2].pixels@[0].1 as int,
                    ),
                forall|i: int, j: int|
                    #![trigger analyzed.graphemes@[i].pixels@[j]]
                    0 <= i < analyzed.graphemes@.len() && 0 <= j < analyzed.graphemes@[i].pixels@.len()
                        ==> !row_major_before(
                        analyzed.graphemes@[i].pixels@[j].0 as int,
                        analyzed.graphemes@[i].pixels@[j].1 as int,
                        analyzed.graphemes@[i].pixels@[0].0 as int,
                        analyzed.graphemes@[i].pixels@[0].1 as int,
                    ),
                decreases w - x,
            {
                let idx = flat_index(image, x, y);
                if !mask[idx] && analyzed.map[idx].is_none() {
                    let g = analyzed.graphemes.len();
                    let ghost m0 = analyzed.map@;
                    let ghost gs0 = analyzed.graphemes@;
                    let gr = Grapheme::detect(x, y, image, &mask, &mut analyzed.map, g, dirs);
                    analyzed.graphemes.push(gr);
                    proof {
                        let gs = analyzed.graphemes@;
                        assert(gs[g as int] == gr);
                        assert forall|i: int| 0 <= i < g implies #[trigger] gs[i] == gs0[i] by {}
                        assert forall|a: int, b: int|
                            image.in_bounds(a, b) && #[trigger] cell(analyzed.map@, w as int, a, b) is Some
                            implies gs[cell(analyzed.map@, w as int, a, b).unwrap() as int].contains(a, b) by {
                            if cell(m0, w as int, a, b) is Some {
                                assert(gs[cell(m0, w as int, a, b).unwrap() as int]
                                    == gs0[cell(m0, w as int, a, b).unwrap() as int]);
                            }
                        }
                        assert forall|i: int, j: int|
                            0 <= i < gs.len() && 0 <= j < gs[i].pixels@.len() implies {
                                let p = #[trigger] gs[i].pixels@[j];
                                &&& image.in_bounds(p.0 as int, p.1 as int)
                                &&& cell(analyzed.map@, w as int, p.0 as int, p.1 as int) == Some(i as usize)
                                &&& p.2 == image.pixel(p.0 as int, p.1 as int)
                            } by {
                            if i < g {
                                assert(gs[i] == gs0[i]);
                                let p = gs0[i].pixels@[j];
                                assert(cell(m0, w as int, p.0 as int, p.1 as int) == Some(i as usize));
                            }
                        }
                        assert forall|i: int| 0 <= i < g implies reached_from(
                            image,
                            analyzed.map@, k,
                            i,
                            (#[trigger] gs[i]).pixels@[0].0 as int,
                            gs[i].pixels@[0].1 as int,
                        ) by {
                            assert(gs[i] == gs0[i]);
                            assert(reached_from(image, m0, k, i, gs0[i].pixels@[0].0 as int, gs0[i].pixels@[0].1 as int));
                            assert forall|a: int, b: int| image.in_bounds(a, b) implies
                                ((cell(m0, w as int, a, b) is Some && cell(m0, w as int, a, b).unwrap() == i)
                                <==> (#[trigger] cell(analyzed.map@, w as int, a, b) is Some
                                && cell(analyzed.map@, w as int, a, b).unwrap() == i)) by {}
                            lemma_reached_same(image, m0, analyzed.map@, k, i, gs0[i].pixels@[0].0 as int, gs0[i].pixels@[0].1 as int);
                        }
                        assert forall|a: int, b: int|
                            image.in_bounds(a, b) && (b < y || (b == y && a <= x)) && !cell(mask@, w as int, a, b)
                            implies #[trigger] cell(analyzed.map@, w as int, a, b) is Some by {
                            if a != x || b != y {
                                assert(cell(m0, w as int, a, b) is Some);
                            }
                        }
                    }
                }
                x = x + 1;
            }
            y = y + 1;
        }
        let count = analyzed.graphemes.len();
        proof {
            let a = analyzed;
            assert(a.graphemes@.len() == count);
            assert forall|x: int, y: int| a.in_bounds(x, y) implies
                (#[trigger] a.grapheme_at(x, y) is None <==> self.is_background(image, x, y)) by {
                assert(cell(mask@, w as int, x, y) == self.is_background(image, x, y));
                assert(cell(a.map@, w as int, x, y) == a.grapheme_at(x, y));
            }
            assert forall|x: int, y: int, d: int|
                a.in_bounds(x, y) && 0 <= d < k && a.in_bounds(neighbour(x, y, d).0, neighbour(x, y, d).1)
                    && !self.is_background(image, x, y) && !self.is_background(image, neighbour(x, y, d).0,
                    neighbour(x, y, d).1) implies #[trigger] a.grapheme_at(x, y) == a.grapheme_at(
                    #[trigger] neighbour(x, y, d).0, neighbour(x, y, d).1) by {
                let (nx, ny) = neighbour(x, y, d);
                assert(cell(mask@, w as int, x, y) == self.is_background(image, x, y));
                assert(cell(mask@, w as int, nx, ny) == self.is_background(image, nx, ny));
                assert(cell(a.map@, w as int, x, y) is Some);
                assert(cell(a.map@, w as int, nx, ny) is Some);
            }
            assert forall|x: int, y: int|
                a.in_bounds(x, y) && #[trigger] a.grapheme_at(x, y) is Some implies {
                    &&& a.grapheme_at(x, y).unwrap() < a.graphemes@.len()
                    &&& a.graphemes@[a.grapheme_at(x, y).unwrap() as int].contains(x, y)
                } by {
                assert(cell(a.map@, w as int, x, y) == a.grapheme_at(x, y));
            }
            assert(a.wf());
            assert forall|x: int, y: int| a.in_bounds(x, y) && #[trigger] a.grapheme_at(x, y) is Some implies a.reaches(
                k, a.grapheme_at(x, y).unwrap() as int, x, y) by {
                let i = a.grapheme_at(x, y).unwrap() as int;
                assert(cell(a.map@, w as int, x, y) == a.grapheme_at(x, y));
                let (sx, sy) = (a.graphemes@[i].pixels@[0].0 as int, a.graphemes@[i].pixels@[0].1 as int);
                assert(reached_from(image, a.map@, k, i, sx, sy));
                assert(cell(a.map@, image.width as int, x, y) is Some);
                let n = choose|n: nat| linked(image.width as int, image.height as int, a.map@, k, i, sx, sy, x, y, n);
                assert(a.start(i) == (sx, sy));
                assert(linked(a.width as int, a.height as int, a.map@, k, i, a.start(i).0, a.start(i).1, x, y, n));
            }
        }
        Ok(analyzed)
    }

    fn background_at(&self, x: u32, y: u32, image: &Raster) -> (r: bool)
        requires
            image.wf(),
            image.in_bounds(x as int, y as int),
        ensures
            r == self.is_background(image, x as int, y as int),
    {
        let value = pixel_value(image.get_pixel(x, y));
        let offwhite = value >= self.off_white_threshold;
        let too_light_and_distant = value >= self.lightness_threshold
            && darkest_pixel_within(x, y, self.lightness_distance, image)
            >= self.lightness_threshold;
        offwhite || too_light_and_distant
    }

    /// The background mask of `image`, row-major.
    fn background_mask(&self, image: &Raster) -> (mask: Vec<bool>)
        requires
            image.wf(),
        ensures
            mask@.len() == image.pixels@.len(),
            forall|x: int, y: int|
                image.in_bounds(x, y) ==> #[trigger] mask@[pos(image.width as int, x, y)]
                    == self.is_background(image, x, y),
    {
        let w = image.width;
        let h = image.height;
        let mut mask: Vec<bool> = Vec::new();
        let mut y: u32 = 0;
        while y < h
            invariant
                image.wf(),
                w == image.width,
                h == image.height,
                y <= h,
                mask@.len() == y as int * w as int,
                forall|xx: int, yy: int|
                    0 <= xx < w && 0 <= yy < y ==> #[trigger] mask@[pos(w as int, xx, yy)]
                        == self.is_background(image, xx, yy),
            decreases h - y,
        {
            let mut x: u32 = 0;
            while x < w
                invariant
                    image.wf(),
                    w == image.width,
                    h == image.height,
                    y < h,
                    x <= w,
                    mask@.len() == y as int * w as int + x,
                    forall|xx: int, yy: int|
                        0 <= xx < w && 0 <= yy <= y && (yy < y || xx < x)
                            ==> #[trigger] mask@[pos(w as int, xx, yy)]
                            == self.is_background(image, xx, yy),
                decreases w - x,
            {
                let b = self.background_at(x, y, image);
                let ghost prev = mask@;
                mask.push(b);
                proof {
                    assert forall|xx: int, yy: int|
                        0 <= xx < w && 0 <= yy <= y && (yy < y || xx <= x) implies
                        #[trigger] mask@[pos(w as int, xx, yy)] == self.is_background(image, xx, yy)
                    by {
                        if yy < y || xx < x {
                            if yy < y {
                                lemma_pos_in_bounds(w as int, y as int, xx, yy);
                                assert(w as int * y as int == y as int * w as int)
                                    by (nonlinear_arith);
                            }
                            assert(pos(w as int, xx, yy) < prev.len());
                        }
                    }
                }
                x = x + 1;
            }
            proof {
                assert(y as int * w as int + w as int == (y as int + 1) * w as int)
                    by (nonlinear_arith);
            }
            y = y + 1;
        }
        proof {
            assert(h as int * w as int == w as int * h as int) by (nonlinear_arith);
        }
        mask
    }
}

/// The lowest intensity in the window of half-width `distance` around (x, y),
/// clamped to the image.
fn darkest_pixel_within(x: u32, y: u32, distance: u32, image: &Raster) -> (r: u8)
    requires
        image.wf(),
        image.in_bounds(x as int, y as int),
    ensures
        forall|qx: int, qy: int|
            #[trigger] in_window(image, x as int, y as int, distance as int, qx, qy)
                ==> r <= intensity(image.pixel(qx, qy)),
        exists|qx: int, qy: int|
            #[trigger] in_window(image, x as int, y as int, distance as int, qx, qy)
                && r == intensity(image.pixel(qx, qy)),
{
    let d = distance;
    let y0: u32 = if y >= d { y - d } else { 0 };
    let y1: u32 = if d <= image.height - 1 - y { y + d } else { image.height - 1 };
    let x0: u32 = if x >= d { x - d } else { 0 };
    let x1: u32 = if d <= image.width - 1 - x { x + d } else { image.width - 1 };
    let mut darkest: u8 = pixel_value(image.get_pixel(x, y));
    let ghost mut wx: int = x as int;
    let ghost mut wy: int = y as int;
    let mut yy: u32 = y0;
    while yy <= y1
        invariant
            image.wf(),
            image.in_bounds(x as int, y as int),
            y0 <= yy <= y1 + 1,
            y1 < image.height,
            x1 < image.width,
            y0 as int == if y >= d { y - d } else { 0 },
            y1 as int == if y + d < image.height { y + d } else { image.height - 1 },
            x0 as int == if x >= d { x - d } else { 0 },
            x1 as int == if x + d < image.width { x + d } else { image.width - 1 },
            in_window(image, x as int, y as int, d as int, wx, wy),
            darkest == intensity(image.pixel(wx, wy)),
            forall|qx: int, qy: int|
                #[trigger] in_window(image, x as int, y as int, d as int, qx, qy) && qy < yy
                    ==> darkest <= intensity(image.pixel(qx, qy)),
        decreases y1 + 1 - yy,
    {
        let mut xx: u32 = x0;
        while xx <= x1
            invariant
                image.wf(),
                image.in_bounds(x as int, y as int),
                y0 <= yy <= y1,
                y1 < image.height,
                x1 < image.width,
                x0 <= xx <= x1 + 1,
                y0 as int == if y >= d { y - d } else { 0 },
                y1 as int == if y + d < image.height { y + d } else { image.height - 1 },
                x0 as int == if x >= d { x - d } else { 0 },
                x1 as int == if x + d < image.width { x + d } else { image.width - 1 },
                in_window(image, x as int, y as int, d as int, wx, wy),
                darkest == intensity(image.pixel(wx, wy)),
                forall|qx: int, qy: int|
                    #[trigger] in_window(image, x as int, y as int, d as int, qx, qy) && (qy < yy
                        || (qy == yy && qx < xx)) ==> darkest <= intensity(image.pixel(qx, qy)),
            decreases x1 + 1 - xx,
        {
            let value = pixel_value(image.get_pixel(xx, yy));
            if value < darkest {
                darkest = value;
                proof {
                    wx = xx as int;
                    wy = yy as int;
                }
            }
            xx = xx + 1;
        }
        yy = yy + 1;
    }
    darkest
}

} // verus!
