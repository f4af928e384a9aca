use vstd::prelude::*;
use crate::raster::{Raster, intensity, pixel_value, lemma_pos_in_bounds};
use crate::grapheme::{AnalyzedImage, Grapheme, cell, distinct_places, lemma_cell_update};

verus! {

/// Rules and colours for removing specks from an analyzed image.
#[derive(Clone, Copy)]
pub struct ImageCleaner {
    pub speck_size_threshold: usize,
    /// Horizontal and vertical margin bands, in pixels from each edge.
    pub page_margins: (u32, u32),
    pub isolation_distance_threshold: u32,
    pub isolation_size_threshold: u32,
    /// When set, a grapheme whose mean intensity exceeds it is removed.
    pub speck_lightness_threshold: Option<u8>,
    pub speck_fill_color: [u8; 3],
    pub background_fill_color: [u8; 3],
}

impl Default for ImageCleaner {
    fn default() -> (r: Self)
        ensures
            r.speck_size_threshold == 15,
            r.page_margins == (50u32, 50u32),
            r.isolation_distance_threshold == 50,
            r.isolation_size_threshold == 80,
            r.speck_lightness_threshold is None,
            r.speck_fill_color == [255u8, 255u8, 255u8],
            r.background_fill_color == [255u8, 255u8, 255u8],
    {
        ImageCleaner {
            speck_size_threshold: 15,
            page_margins: (50, 50),
            isolation_distance_threshold: 50,
            isolation_size_threshold: 80,
            speck_lightness_threshold: None,
            speck_fill_color: [255, 255, 255],
            background_fill_color: [255, 255, 255],
        }
    }
}

/// Sum of the intensities of `pixels`.
pub open spec fn intensity_sum(pixels: Seq<(u32, u32, [u8; 3])>) -> int
    decreases pixels.len(),
{
    if pixels.len() == 0 {
        0
    } else {
        intensity_sum(pixels.drop_last()) + intensity(pixels.last().2)
    }
}

impl Grapheme {
    /// Mean intensity of the member pixels, rounded down.
    pub open spec fn mean_intensity(&self) -> int {
        intensity_sum(self.pixels@) / self.size()
    }

    /// Mean intensity of the member pixels, rounded down.
    pub fn average_value(&self) -> (r: u8)
        requires
            self.pixels@.len() > 0,
        ensures
            r as int == self.mean_intensity(),
    {
        let mut total: u128 = 0;
        let mut j: usize = 0;
        while j < self.pixels.len()
            invariant
                j <= self.pixels@.len(),
                total as int == intensity_sum(self.pixels@.take(j as int)),
                total <= 255 * j,
            decreases self.pixels@.len() - j,
        {
            let v = pixel_value(self.pixels[j].2);
            proof {
                let s = self.pixels@.take(j as int + 1);
                assert(s.drop_last() =~= self.pixels@.take(j as int));
                assert(s.last() == self.pixels@[j as int]);
            }
            total = total + v as u128;
            j = j + 1;
        }
        proof {
            assert(self.pixels@.take(j as int) =~= self.pixels@);
            let (t, n) = (total as int, j as int);
            assert(t / n <= 255) by (nonlinear_arith)
                requires t <= 255 * n, n > 0, t >= 0;
        }
        (total / j as u128) as u8
    }
}

pub open spec fn abs_diff(a: int, b: int) -> int {
    if a >= b {
        a - b
    } else {
        b - a
    }
}

/// The grapheme visited at step `s` of the search around `index` in a list of
/// `n`: offsets +1, -1, +2, -2, ... taken circularly.
pub open spec fn scan_index(index: int, n: int, s: int) -> int {
    let o = if s % 2 == 1 { -(1 + s / 2) } else { 1 + s / 2 };
    let k = index + o;
    if k < 0 {
        k + n
    } else if k >= n {
        k - n
    } else {
        k
    }
}

impl ImageCleaner {
    /// Edge-alignment proximity of two bounding boxes.
    pub open spec fn near(&self, g: Grapheme, o: Grapheme) -> bool {
        let t = self.isolation_distance_threshold as int;
        &&& (abs_diff(g.top as int, o.top as int) < t || abs_diff(g.bottom as int, o.bottom as int) < t)
        &&& (abs_diff(g.left as int, o.left as int) < t || abs_diff(g.right as int, o.right as int) < t)
    }

    /// A grapheme big enough to keep nearby small ones.
    pub open spec fn is_anchor(&self, g: Grapheme) -> bool {
        g.size() >= self.isolation_size_threshold
    }

    /// Grapheme `i` is below the anchor size and no other anchor is near it.
    pub open spec fn isolated(&self, gs: Seq<Grapheme>, i: int) -> bool {
        &&& !self.is_anchor(gs[i])
        &&& !exists|j: int|
            0 <= j < gs.len() && j != i && #[trigger] self.is_anchor(gs[j]) && self.near(gs[i], gs[j])
    }

    pub open spec fn too_small(&self, g: Grapheme) -> bool {
        g.size() <= self.speck_size_threshold
    }

    /// The grapheme is lighter on average than the lightness threshold, when
    /// one is set.
    pub open spec fn too_light(&self, g: Grapheme) -> bool {
        match self.speck_lightness_threshold {
            Some(t) => g.mean_intensity() > t,
            None => false,
        }
    }

    /// The box touches or crosses a margin band of a width × height page.
    pub open spec fn inside_margins(&self, g: Grapheme, width: int, height: int) -> bool {
        let (mh, mv) = (self.page_margins.0 as int, self.page_margins.1 as int);
        ||| g.top < mv
        ||| g.bottom + mv >= height
        ||| g.left < mh
        ||| g.right + mh >= width
    }

    /// Whether grapheme `i` of `a` is erased: its manual decision if it has
    /// one, else the size, margin and isolation rules.
    pub open spec fn removed(&self, a: AnalyzedImage, i: int) -> bool {
        let g = a.graphemes@[i];
        match g.manual_override {
            Some(keep) => !keep,
            None => self.too_small(g) || self.inside_margins(g, a.width as int, a.height as int)
                || self.too_light(g) || self.isolated(a.graphemes@, i),
        }
    }

    /// The colour that cleaning gives pixel (x, y) of `a`.
    pub open spec fn expected_pixel(&self, a: AnalyzedImage, x: int, y: int) -> [u8; 3] {
        match a.grapheme_at(x, y) {
            None => self.background_fill_color,
            Some(i) => if self.removed(a, i as int) {
                self.speck_fill_color
            } else {
                let p = a.graphemes@[i as int].pixels@;
                p[choose|j: int| 0 <= j < p.len() && p[j].0 == x && p[j].1 == y].2
            },
        }
    }

    /// `out` is the cleaned rendering of `a`.
    pub open spec fn renders(&self, a: AnalyzedImage, out: Raster) -> bool {
        &&& out.wf()
        &&& out.width == a.width
        &&& out.height == a.height
        &&& forall|x: int, y: int|
            #![trigger out.pixel(x, y)]
            a.in_bounds(x, y) ==> out.pixel(x, y) == self.expected_pixel(a, x, y)
    }
}

pub fn positive_difference(a: u32, b: u32) -> (r: u32)
    ensures
        r as int == abs_diff(a as int, b as int),
{
    if a >= b {
        a - b
    } else {
        b - a
    }
}

/// Every other grapheme is visited by one of the first `n - 1` steps of the
/// circular search.
pub proof fn lemma_scan_covers(index: int, n: int, j: int)
    requires
        0 <= index < n,
        0 <= j < n,
        j != index,
    ensures
        exists|s: int| 0 <= s < n - 1 && #[trigger] scan_index(index, n, s) == j,
{
    let d = if j > index { j - index } else { j + n - index };
    if 2 * d <= n {
        let s = 2 * (d - 1);
        assert(s % 2 == 0 && s / 2 == d - 1);
        assert(scan_index(index, n, s) == j);
    } else {
        let e = n - d;
        let s = 2 * e - 1;
        assert(s % 2 == 1 && s / 2 == e - 1);
        assert(scan_index(index, n, s) == j);
    }
}

impl ImageCleaner {
    fn near_exec(&self, g: &Grapheme, o: &Grapheme) -> (r: bool)
        ensures
            r == self.near(*g, *o),
    {
        let t = self.isolation_distance_threshold;
        (positive_difference(g.top, o.top) < t || positive_difference(g.bottom, o.bottom) < t)
            && (positive_difference(g.left, o.left) < t || positive_difference(g.right, o.right) < t)
    }

    /// Whether grapheme `grapheme_index` is isolated, searching outward from
    /// it in list order and stopping at the first near anchor.
    pub fn is_isolated(&self, grapheme_index: usize, graphemes: &Vec<Grapheme>) -> (r: bool)
        requires
            grapheme_index < graphemes@.len(),
        ensures
            r == self.isolated(graphemes@, grapheme_index as int),
    {
        let grapheme = &graphemes[grapheme_index];
        if grapheme.pixels.len() >= self.isolation_size_threshold as usize {
            return false;
        }
        let n = graphemes.len();
        let ghost gs = graphemes@;
        let ghost gi = grapheme_index as int;
        let mut i: usize = 0;
        while i < n - 1
            invariant
                gs == graphemes@,
                n == gs.len(),
                0 <= gi < n,
                gi == grapheme_index,
                *grapheme == gs[gi],
                i <= n - 1,
                forall|s: int|
                    0 <= s < i ==> !(#[trigger] self.is_anchor(gs[scan_index(gi, n as int, s)])
                        && self.near(gs[gi], gs[scan_index(gi, n as int, s)])),
            decreases n - 1 - i,
        {
            let o = 1 + i / 2;
            let index = if i % 2 == 1 {
                if o <= grapheme_index {
                    grapheme_index - o
                } else {
                    n - (o - grapheme_index)
                }
            } else {
                if o < n - grapheme_index {
                    grapheme_index + o
                } else {
                    o - (n - grapheme_index)
                }
            };
            assert(index as int == scan_index(gi, n as int, i as int));
            let other = &graphemes[index];
            if other.pixels.len() >= self.isolation_size_threshold as usize {
                if self.near_exec(grapheme, other) {
                    proof {
                        assert(index as int != gi);
                        assert(self.is_anchor(gs[index as int]));
                    }
                    return false;
                }
            }
            i = i + 1;
        }
        proof {
            assert forall|j: int| 0 <= j < gs.len() && j != gi && #[trigger] self.is_anchor(gs[j])
                implies !self.near(gs[gi], gs[j]) by {
                lemma_scan_covers(gi, n as int, j);
                let s = choose|s: int| 0 <= s < n - 1 && #[trigger] scan_index(gi, n as int, s) == j;
                assert(self.is_anchor(gs[scan_index(gi, n as int, s)]));
            }
        }
        true
    }
}

impl ImageCleaner {
    /// Whether grapheme `i` of `analyzed_image` is erased.
    pub fn is_removed(&self, analyzed_image: &AnalyzedImage, i: usize) -> (r: bool)
        requires
            i < analyzed_image.graphemes@.len(),
            analyzed_image.graphemes@[i as int].pixels@.len() > 0,
        ensures
            r == self.removed(*analyzed_image, i as int),
    {
        let grapheme = &analyzed_image.graphemes[i];
        if let Some(keep) = grapheme.manual_override {
            return !keep;
        }
        let too_small = grapheme.pixels.len() <= self.speck_size_threshold;
        let (mh, mv) = self.page_margins;
        let inside_margins = grapheme.top < mv
            || grapheme.bottom as u64 + mv as u64 >= analyzed_image.height as u64
            || grapheme.left < mh
            || grapheme.right as u64 + mh as u64 >= analyzed_image.width as u64;
        let too_light = match self.speck_lightness_threshold {
            Some(t) => grapheme.average_value() > t,
            None => false,
        };
        too_small || inside_margins || too_light || self.is_isolated(i, &analyzed_image.graphemes)
    }

    /// Renders `analyzed_image`: background pixels in the background colour,
    /// removed graphemes in the speck colour, kept graphemes in their own
    /// colours.
    pub fn clean(&self, analyzed_image: &AnalyzedImage) -> (r: Raster)
        requires
            analyzed_image.wf(),
        ensures
            self.renders(*analyzed_image, r),
            forall|i: int, j: int|
                #![trigger analyzed_image.graphemes@[i].pixels@[j]]
                0 <= i < analyzed_image.graphemes@.len() && 0 <= j
                    < analyzed_image.graphemes@[i].pixels@.len() ==> r.pixel(
                    analyzed_image.graphemes@[i].pixels@[j].0 as int,
                    analyzed_image.graphemes@[i].pixels@[j].1 as int,
                ) == if self.removed(*analyzed_image, i) {
                    self.speck_fill_color
                } else {
                    analyzed_image.graphemes@[i].pixels@[j].2
                },
    {
        let ghost a = *analyzed_image;
        let ghost gs = analyzed_image.graphemes@;
        let ghost w = a.width as int;
        let len = analyzed_image.map.len();
        let mut image = match Raster::new(analyzed_image.width, analyzed_image.height, self.background_fill_color) {
            Some(img) => img,
            None => {
                proof {
                    assert(false);
                }
                return Raster { width: 0, height: 0, pixels: Vec::new() };
            },
        };
        proof {
            assert forall|x: int, y: int| a.in_bounds(x, y) implies
                #[trigger] image.pixel(x, y) == self.background_fill_color by {
                lemma_pos_in_bounds(w, a.height as int, x, y);
            }
        }
        let mut i: usize = 0;
        while i < analyzed_image.graphemes.len()
            invariant
                a == *analyzed_image,
                gs == a.graphemes@,
                a.wf(),
                w == a.width,
                i <= gs.len(),
                image.wf(),
                image.width == a.width,
                image.height == a.height,
                forall|x: int, y: int|
                    a.in_bounds(x, y) && #[trigger] a.grapheme_at(x, y) is None ==> image.pixel(x, y)
                        == self.background_fill_color,
                forall|i2: int, j: int|
                    #![trigger gs[i2].pixels@[j]]
                    0 <= i2 < i && 0 <= j < gs[i2].pixels@.len() ==> image.pixel(
                        gs[i2].pixels@[j].0 as int,
                        gs[i2].pixels@[j].1 as int,
                    ) == if self.removed(a, i2) {
                        self.speck_fill_color
                    } else {
                        gs[i2].pixels@[j].2
                    },
            decreases gs.len() - i,
        {
            proof {
                assert(gs[i as int].box_tight());
            }
            let removed = self.is_removed(analyzed_image, i);
            let grapheme = &analyzed_image.graphemes[i];
            let ghost before = image;
            proof {
                assert(gs[i as int].box_tight() && distinct_places(gs[i as int].pixels@));
                assert forall|j: int| 0 <= j < grapheme.pixels@.len() implies image.in_bounds(
                    (#[trigger] grapheme.pixels@[j]).0 as int, grapheme.pixels@[j].1 as int) by {
                    assert(gs[i as int].pixels@[j] == grapheme.pixels@[j]);
                }
            }
            if removed {
                grapheme.fill(&mut image, self.speck_fill_color);
            } else {
                grapheme.draw(&mut image);
            }
            proof {
                let g = gs[i as int];
                assert forall|x: int, y: int|
                    a.in_bounds(x, y) && #[trigger] a.grapheme_at(x, y) is None implies image.pixel(x, y)
                        == self.background_fill_color by {
                    if g.contains(x, y) {
                        let j = choose|j: int| 0 <= j < g.pixels@.len() && g.pixels@[j].0 == x && g.pixels@[j].1 == y;
                        assert(a.grapheme_at(g.pixels@[j].0 as int, g.pixels@[j].1 as int) == Some(i));
                    }
                }
                assert forall|i2: int, j: int|
                    0 <= i2 < i + 1 && 0 <= j < gs[i2].pixels@.len() implies image.pixel(
                        #[trigger] gs[i2].pixels@[j].0 as int,
                        gs[i2].pixels@[j].1 as int,
                    ) == if self.removed(a, i2) {
                        self.speck_fill_color
                    } else {
                        gs[i2].pixels@[j].2
                    } by {
                    let (x, y) = (gs[i2].pixels@[j].0 as int, gs[i2].pixels@[j].1 as int);
                    if i2 < i {
                        assert(a.grapheme_at(x, y) == Some(i2 as usize));
                        if g.contains(x, y) {
                            let k = choose|k: int| 0 <= k < g.pixels@.len() && g.pixels@[k].0 == x && g.pixels@[k].1 == y;
                            assert(a.grapheme_at(g.pixels@[k].0 as int, g.pixels@[k].1 as int) == Some(i));
                        }
                    }
                }
            }
            i = i + 1;
        }
        proof {
            assert forall|x: int, y: int| a.in_bounds(x, y) implies #[trigger] image.pixel(x, y)
                == self.expected_pixel(a, x, y) by {
                if a.grapheme_at(x, y) is Some {
                    let i2 = a.grapheme_at(x, y).unwrap() as int;
                    let p = gs[i2].pixels@;
                    assert(gs[i2].contains(x, y));
                    let j = choose|j: int| 0 <= j < p.len() && p[j].0 == x && p[j].1 == y;
                    assert(p[j] == gs[i2].pixels@[j]);
                }
            }
        }
        image
    }
}

impl Grapheme {
    /// Paints every member pixel with `color`.
    pub fn fill(&self, image: &mut Raster, color: [u8; 3])
        requires
            old(image).wf(),
            forall|j: int|
                0 <= j < self.pixels@.len() ==> old(image).in_bounds(
                    (#[trigger] self.pixels@[j]).0 as int,
                    self.pixels@[j].1 as int,
                ),
            distinct_places(self.pixels@),
        ensures
            final(image).wf(),
            final(image).width == old(image).width,
            final(image).height == old(image).height,
            forall|j: int|
                0 <= j < self.pixels@.len() ==> final(image).pixel(
                    (#[trigger] self.pixels@[j]).0 as int,
                    self.pixels@[j].1 as int,
                ) == color,
            forall|x: int, y: int|
                old(image).in_bounds(x, y) && !self.contains(x, y) ==> #[trigger] final(image).pixel(x, y)
                    == old(image).pixel(x, y),
    {
        self.paint(image, Some(color));
    }

    /// Paints every member pixel with its own colour.
    pub fn draw(&self, image: &mut Raster)
        requires
            old(image).wf(),
            forall|j: int|
                0 <= j < self.pixels@.len() ==> old(image).in_bounds(
                    (#[trigger] self.pixels@[j]).0 as int,
                    self.pixels@[j].1 as int,
                ),
            distinct_places(self.pixels@),
        ensures
            final(image).wf(),
            final(image).width == old(image).width,
            final(image).height == old(image).height,
            forall|j: int|
                0 <= j < self.pixels@.len() ==> final(image).pixel(
                    (#[trigger] self.pixels@[j]).0 as int,
                    self.pixels@[j].1 as int,
                ) == self.pixels@[j].2,
            forall|x: int, y: int|
                old(image).in_bounds(x, y) && !self.contains(x, y) ==> #[trigger] final(image).pixel(x, y)
                    == old(image).pixel(x, y),
    {
        self.paint(image, None);
    }

    /// Paints every member pixel with `color`, or with its own colour for
    /// `None`.
    fn paint(&self, image: &mut Raster, color: Option<[u8; 3]>)
        requires
            old(image).wf(),
            forall|j: int|
                0 <= j < self.pixels@.len() ==> old(image).in_bounds(
                    (#[trigger] self.pixels@[j]).0 as int,
                    self.pixels@[j].1 as int,
                ),
            distinct_places(self.pixels@),
        ensures
            final(image).wf(),
            final(image).width == old(image).width,
            final(image).height == old(image).height,
            forall|j: int|
                0 <= j < self.pixels@.len() ==> final(image).pixel(
                    (#[trigger] self.pixels@[j]).0 as int,
                    self.pixels@[j].1 as int,
                ) == match color {
                    Some(c) => c,
                    None => self.pixels@[j].2,
                },
            forall|x: int, y: int|
                old(image).in_bounds(x, y) && !self.contains(x, y) ==> #[trigger] final(image).pixel(x, y)
                    == old(image).pixel(x, y),
    {
        let ghost start = *image;
        let ghost p = self.pixels@;
        let mut j: usize = 0;
        while j < self.pixels.len()
            invariant
                start == *old(image),
                p == self.pixels@,
                image.wf(),
                image.width == start.width,
                image.height == start.height,
                j <= p.len(),
                forall|k: int| 0 <= k < p.len() ==> start.in_bounds((#[trigger] p[k]).0 as int, p[k].1 as int),
                distinct_places(p),
                forall|k: int|
                    0 <= k < j ==> image.pixel((#[trigger] p[k]).0 as int, p[k].1 as int) == match color {
                        Some(c) => c,
                        None => p[k].2,
                    },
                forall|x: int, y: int|
                    start.in_bounds(x, y) && !(exists|k: int| 0 <= k < j && p[k].0 == x && p[k].1 == y)
                        ==> #[trigger] image.pixel(x, y) == start.pixel(x, y),
            decreases p.len() - j,
        {
            let (x, y, c) = self.pixels[j];
            let ghost before = *image;
            match color {
                Some(fill) => image.put_pixel(x, y, fill),
                None => image.put_pixel(x, y, c),
            }
            proof {
                lemma_cell_update(before.pixels@, &before, x as int, y as int, match color {
                    Some(fill) => fill,
                    None => c,
                });
                assert forall|a: int, b: int| before.in_bounds(a, b) implies #[trigger] image.pixel(a, b)
                    == if a == x && b == y {
                        match color {
                            Some(fill) => fill,
                            None => c,
                        }
                    } else {
                        before.pixel(a, b)
                    } by {
                    assert(cell(image.pixels@, before.width as int, a, b) == image.pixel(a, b));
                    assert(cell(before.pixels@, before.width as int, a, b) == before.pixel(a, b));
                }
                assert forall|k: int| 0 <= k < j + 1 implies image.pixel((#[trigger] p[k]).0 as int, p[k].1 as int)
                    == match color {
                        Some(c) => c,
                        None => p[k].2,
                    } by {
                    if k < j {
                        assert(p[k].0 != x || p[k].1 != y);
                    }
                }
                assert forall|a: int, b: int|
                    start.in_bounds(a, b) && !(exists|k: int| 0 <= k < j + 1 && p[k].0 == a && p[k].1 == b)
                    implies #[trigger] image.pixel(a, b) == start.pixel(a, b) by {
                    assert(p[j as int].0 == x && p[j as int].1 == y);
                    assert(!(exists|k: int| 0 <= k < j && p[k].0 == a && p[k].1 == b));
                    assert(before.pixel(a, b) == start.pixel(a, b));
                }
            }
            j = j + 1;
        }
    }
}

} // verus!
