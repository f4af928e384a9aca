use vstd::prelude::*;
use crate::raster::{Raster, pos, lemma_pos_in_bounds, lemma_pos_injective};
use vstd::set_lib::{set_int_range, lemma_int_range, lemma_len_subset};

verus! {

/// The pixel reached from (x, y) by one step in direction `d`: right, down,
/// left, up for 0 to 3, then down-right, down-left, up-left, up-right for 4
/// to 7. The first 4 directions give 4-connectivity, all 8 give
/// 8-connectivity.
pub open spec fn neighbour(x: int, y: int, d: int) -> (int, int) {
    if d == 0 {
        (x + 1, y)
    } else if d == 1 {
        (x, y + 1)
    } else if d == 2 {
        (x - 1, y)
    } else if d == 3 {
        (x, y - 1)
    } else if d == 4 {
        (x + 1, y + 1)
    } else if d == 5 {
        (x - 1, y + 1)
    } else if d == 6 {
        (x - 1, y - 1)
    } else {
        (x + 1, y - 1)
    }
}

/// The direction that undoes a step in direction `d`.
pub open spec fn opposite(d: int) -> int {
    if d < 4 {
        (d + 2) % 4
    } else {
        4 + (d - 2) % 4
    }
}

/// The entry of a row-major grid for (x, y).
pub open spec fn cell<T>(grid: Seq<T>, width: int, x: int, y: int) -> T {
    grid[pos(width, x, y)]
}

/// Whether some entry of `pixels` lies at (x, y).
pub open spec fn lists(pixels: Seq<(u32, u32, [u8; 3])>, x: int, y: int) -> bool {
    exists|j: int| 0 <= j < pixels.len() && pixels[j].0 == x && pixels[j].1 == y
}

pub(crate) open spec fn stacked(stack: Seq<(u32, u32)>, x: int, y: int) -> bool {
    exists|j: int| 0 <= j < stack.len() && stack[j].0 == x && stack[j].1 == y
}

/// No two entries of `pixels` lie at the same place.
pub open spec fn distinct_places(pixels: Seq<(u32, u32, [u8; 3])>) -> bool {
    forall|j1: int, j2: int|
        0 <= j1 < pixels.len() && 0 <= j2 < pixels.len() && j1 != j2 ==> (#[trigger] pixels[j1]).0
            != (#[trigger] pixels[j2]).0 || pixels[j1].1 != pixels[j2].1
}

/// One connected cluster of ink pixels with its bounding box.
pub struct Grapheme {
    /// Member pixels as (x, y, colour), in discovery order.
    pub pixels: Vec<(u32, u32, [u8; 3])>,
    pub top: u32,
    pub bottom: u32,
    pub left: u32,
    pub right: u32,
    /// `Some(true)`: always kept; `Some(false)`: always removed; `None`: decided
    /// by the cleaner's rules.
    pub manual_override: Option<bool>,
}

impl Grapheme {
    pub open spec fn size(&self) -> int {
        self.pixels@.len() as int
    }

    pub open spec fn contains(&self, x: int, y: int) -> bool {
        lists(self.pixels@, x, y)
    }

    /// The box is the smallest rectangle that holds every member pixel.
    pub open spec fn box_tight(&self) -> bool {
        let p = self.pixels@;
        &&& p.len() > 0
        &&& self.top <= self.bottom
        &&& self.left <= self.right
        &&& forall|j: int|
            0 <= j < p.len() ==> self.left <= (#[trigger] p[j]).0 <= self.right && self.top
                <= p[j].1 <= self.bottom
        &&& exists|j: int| 0 <= j < p.len() && (#[trigger] p[j]).0 == self.left
        &&& exists|j: int| 0 <= j < p.len() && (#[trigger] p[j]).0 == self.right
        &&& exists|j: int| 0 <= j < p.len() && (#[trigger] p[j]).1 == self.top
        &&& exists|j: int| 0 <= j < p.len() && (#[trigger] p[j]).1 == self.bottom
    }
}

/// The graphemes of an image and, for each pixel, the index of the grapheme
/// that holds it (`None` for background), row-major.
pub struct AnalyzedImage {
    pub graphemes: Vec<Grapheme>,
    pub map: Vec<Option<usize>>,
    pub width: u32,
    pub height: u32,
}

impl AnalyzedImage {
    pub open spec fn in_bounds(&self, x: int, y: int) -> bool {
        0 <= x < self.width && 0 <= y < self.height
    }

    /// The grapheme that holds (x, y), or `None` for background.
    pub open spec fn grapheme_at(&self, x: int, y: int) -> Option<usize> {
        cell(self.map@, self.width as int, x, y)
    }

    /// The first pixel found of grapheme `i`.
    pub open spec fn start(&self, i: int) -> (int, int) {
        (self.graphemes@[i].pixels@[0].0 as int, self.graphemes@[i].pixels@[0].1 as int)
    }

    /// (x, y) is reached from the first pixel of grapheme `i` by steps in the
    /// first `k` directions of `neighbour`, within the grapheme.
    pub open spec fn reaches(&self, k: int, i: int, x: int, y: int) -> bool {
        exists|n: nat|
            linked(
                self.width as int,
                self.height as int,
                self.map@, k,
                i,
                self.start(i).0,
                self.start(i).1,
                x,
                y,
                n,
            )
    }

    /// Every pixel is background or listed by exactly the grapheme the map
    /// names; each grapheme lists distinct in-bounds pixels and has a tight box.
    pub open spec fn wf(&self) -> bool {
        let gs = self.graphemes@;
        &&& self.map@.len() == self.width as int * self.height as int
        &&& gs.len() <= usize::MAX
        &&& forall|x: int, y: int|
            #![trigger self.grapheme_at(x, y)]
            self.in_bounds(x, y) && self.grapheme_at(x, y) is Some ==> {
                &&& self.grapheme_at(x, y).unwrap() < gs.len()
                &&& gs[self.grapheme_at(x, y).unwrap() as int].contains(x, y)
            }
        &&& forall|i: int|
            #![trigger gs[i]]
            0 <= i < gs.len() ==> gs[i].box_tight() && distinct_places(gs[i].pixels@)
        &&& forall|i: int, j: int|
            #![trigger gs[i].pixels@[j]]
            0 <= i < gs.len() && 0 <= j < gs[i].pixels@.len() ==> {
                &&& self.in_bounds(gs[i].pixels@[j].0 as int, gs[i].pixels@[j].1 as int)
                &&& self.grapheme_at(gs[i].pixels@[j].0 as int, gs[i].pixels@[j].1 as int) == Some(
                    i as usize,
                )
            }
    }

    /// An analysis of `image` with no graphemes yet.
    pub(crate) fn new(image: &Raster) -> (r: AnalyzedImage)
        requires
            image.wf(),
        ensures
            r.width == image.width,
            r.height == image.height,
            r.graphemes@.len() == 0,
            r.map@.len() == image.pixels@.len(),
            forall|k: int| 0 <= k < r.map@.len() ==> r.map@[k] is None,
    {
        let n = image.pixels.len();
        let mut map: Vec<Option<usize>> = Vec::new();
        let mut k: usize = 0;
        while k < n
            invariant
                k <= n,
                map@.len() == k,
                forall|j: int| 0 <= j < k ==> map@[j] is None,
            decreases n - k,
        {
            map.push(None);
            k = k + 1;
        }
        AnalyzedImage { graphemes: Vec::new(), map, width: image.width, height: image.height }
    }

    /// The grapheme that holds (x, y), or `None` where it is background.
    pub fn get_grapheme_at(&self, x: u32, y: u32) -> (r: Option<&Grapheme>)
        requires
            self.wf(),
            self.in_bounds(x as int, y as int),
        ensures
            r is None <==> self.grapheme_at(x as int, y as int) is None,
            r matches Some(gr) ==> *gr == self.graphemes@[self.grapheme_at(x as int, y as int).unwrap() as int],
    {
        let len = self.map.len();
        proof {
            lemma_pos_in_bounds(self.width as int, self.height as int, x as int, y as int);
            assert(y as int * self.width as int <= pos(self.width as int, x as int, y as int));
        }
        let k = y as usize * self.width as usize + x as usize;
        match self.map[k] {
            None => None,
            Some(i) => Some(&self.graphemes[i]),
        }
    }

    /// Sets the manual decision of grapheme `index`.
    pub fn set_manual_override(&mut self, index: usize, decision: Option<bool>)
        requires
            old(self).wf(),
            index < old(self).graphemes@.len(),
        ensures
            final(self).wf(),
            final(self).width == old(self).width,
            final(self).height == old(self).height,
            final(self).map@ == old(self).map@,
            final(self).graphemes@.len() == old(self).graphemes@.len(),
            forall|i: int|
                0 <= i < old(self).graphemes@.len() && i != index ==> final(self).graphemes@[i]
                    == old(self).graphemes@[i],
            final(self).graphemes@[index as int].pixels@ == old(self).graphemes@[index as int].pixels@,
            final(self).graphemes@[index as int].top == old(self).graphemes@[index as int].top,
            final(self).graphemes@[index as int].bottom == old(self).graphemes@[index as int].bottom,
            final(self).graphemes@[index as int].left == old(self).graphemes@[index as int].left,
            final(self).graphemes@[index as int].right == old(self).graphemes@[index as int].right,
            final(self).graphemes@[index as int].manual_override == decision,
    {
        let ghost before = self.graphemes@;
        let ghost s0 = *self;
        let mut gr = self.graphemes.remove(index);
        let ghost old_gr = gr;
        gr.manual_override = decision;
        self.graphemes.insert(index, gr);
        proof {
            assert(self.graphemes@ =~= before.update(index as int, gr));
            assert(gr.pixels@ == old_gr.pixels@);
            assert(gr.box_tight() == old_gr.box_tight());
            assert forall|a: int, b: int| gr.contains(a, b) == old_gr.contains(a, b) by {}
            assert forall|i: int| 0 <= i < self.graphemes@.len() implies
                (#[trigger] self.graphemes@[i]).pixels@ == before[i].pixels@
                && self.graphemes@[i].box_tight() == before[i].box_tight() by {}
            let gs = self.graphemes@;
            assert forall|x: int, y: int|
                self.in_bounds(x, y) && #[trigger] self.grapheme_at(x, y) is Some implies {
                    &&& self.grapheme_at(x, y).unwrap() < gs.len()
                    &&& gs[self.grapheme_at(x, y).unwrap() as int].contains(x, y)
                } by {
                let i = self.grapheme_at(x, y).unwrap() as int;
                assert(s0.grapheme_at(x, y) == self.grapheme_at(x, y));
                assert(before[i].contains(x, y));
                assert(gs[i].pixels@ == before[i].pixels@);
            }
            assert forall|i: int| 0 <= i < gs.len() implies #[trigger] gs[i].box_tight()
                && distinct_places(gs[i].pixels@) by {
                assert(before[i].box_tight() && distinct_places(before[i].pixels@));
                assert(gs[i].pixels@ == before[i].pixels@);
            }
            assert forall|i: int, j: int| 0 <= i < gs.len() && 0 <= j < gs[i].pixels@.len() implies {
                &&& self.in_bounds(#[trigger] gs[i].pixels@[j].0 as int, gs[i].pixels@[j].1 as int)
                &&& self.grapheme_at(gs[i].pixels@[j].0 as int, gs[i].pixels@[j].1 as int) == Some(
                    i as usize,
                )
            } by {
                assert(gs[i].pixels@ == before[i].pixels@);
                assert(before[i].pixels@[j] == gs[i].pixels@[j]);
            }
        }
    }
}

/// (x, y) is reached from (sx, sy) by `n` steps in the first `k` directions,
/// each step landing on a cell that `map` gives to grapheme `g`.
#[verifier::opaque]
pub open spec fn linked(
    width: int,
    height: int,
    map: Seq<Option<usize>>,
    k: int,
    g: int,
    sx: int,
    sy: int,
    x: int,
    y: int,
    n: nat,
) -> bool
    decreases n,
{
    if n == 0 {
        x == sx && y == sy
    } else {
        exists|d: int|
            0 <= d < k && {
                let (nx, ny) = #[trigger] neighbour(x, y, d);
                &&& 0 <= nx < width
                &&& 0 <= ny < height
                &&& cell(map, width, nx, ny) is Some
                &&& cell(map, width, nx, ny).unwrap() == g
                &&& linked(width, height, map, k, g, sx, sy, nx, ny, (n - 1) as nat)
            }
    }
}

/// Every cell of grapheme `g` is reached from (sx, sy).
pub(crate) open spec fn reached_from(img: &Raster, map: Seq<Option<usize>>, k: int, g: int, sx: int, sy: int) -> bool {
    forall|a: int, b: int|
        #![trigger cell(map, img.width as int, a, b)]
        img.in_bounds(a, b) && cell(map, img.width as int, a, b) is Some && cell(
            map,
            img.width as int,
            a,
            b,
        ).unwrap() == g ==> exists|n: nat|
            linked(img.width as int, img.height as int, map, k, g, sx, sy, a, b, n)
}

/// A path stays a path when the grapheme only gains cells.
pub(crate) proof fn lemma_linked_grow(
    width: int,
    height: int,
    m1: Seq<Option<usize>>,
    m2: Seq<Option<usize>>,
    k: int,
    g: int,
    sx: int,
    sy: int,
    x: int,
    y: int,
    n: nat,
)
    requires
        linked(width, height, m1, k, g, sx, sy, x, y, n),
        forall|a: int, b: int|
            #![trigger cell(m2, width, a, b)]
            0 <= a < width && 0 <= b < height && cell(m1, width, a, b) is Some && cell(m1, width, a, b).unwrap()
                == g ==> cell(m2, width, a, b) is Some && cell(m2, width, a, b).unwrap() == g,
    ensures
        linked(width, height, m2, k, g, sx, sy, x, y, n),
    decreases n,
{
    reveal(linked);
    if n > 0 {
        let d = choose|d: int|
            0 <= d < k && {
                let (nx, ny) = #[trigger] neighbour(x, y, d);
                &&& 0 <= nx < width
                &&& 0 <= ny < height
                &&& cell(m1, width, nx, ny) is Some
                &&& cell(m1, width, nx, ny).unwrap() == g
                &&& linked(width, height, m1, k, g, sx, sy, nx, ny, (n - 1) as nat)
            };
        let (nx, ny) = neighbour(x, y, d);
        lemma_linked_grow(width, height, m1, m2, k, g, sx, sy, nx, ny, (n - 1) as nat);
        assert(cell(m2, width, nx, ny) is Some);
    }
}

/// Giving grapheme `g` the neighbour (nx, ny) of its cell (px, py) keeps
/// every cell of `g` reached from (sx, sy).
proof fn lemma_reach_after_add(
    img: &Raster,
    m1: Seq<Option<usize>>,
    m2: Seq<Option<usize>>,
    k: int,
    g: int,
    sx: int,
    sy: int,
    px: int,
    py: int,
    nx: int,
    ny: int,
    d: int,
)
    requires
        img.wf(),
        m1.len() == img.pixels@.len(),
        img.in_bounds(px, py),
        img.in_bounds(nx, ny),
        k == 4 || k == 8,
        0 <= d < k,
        neighbour(px, py, d) == (nx, ny),
        cell(m1, img.width as int, px, py) is Some,
        cell(m1, img.width as int, px, py).unwrap() == g,
        reached_from(img, m1, k, g, sx, sy),
        m2 == m1.update(pos(img.width as int, nx, ny), Some(g as usize)),
        0 <= g <= usize::MAX,
    ensures
        reached_from(img, m2, k, g, sx, sy),
{
    let w = img.width as int;
    let hh = img.height as int;
    lemma_cell_update(m1, img, nx, ny, Some(g as usize));
    assert forall|a: int, b: int|
        #![trigger cell(m2, w, a, b)]
        0 <= a < w && 0 <= b < hh && cell(m1, w, a, b) is Some && cell(m1, w, a, b).unwrap() == g
        implies cell(m2, w, a, b) is Some && cell(m2, w, a, b).unwrap() == g by {
        assert(img.in_bounds(a, b));
    }
    assert forall|a: int, b: int|
        img.in_bounds(a, b) && #[trigger] cell(m2, w, a, b) is Some
        && cell(m2, w, a, b).unwrap() == g implies exists|n: nat|
        linked(w, hh, m2, k, g, sx, sy, a, b, n) by {
        if a == nx && b == ny {
            let m = choose|m: nat| linked(w, hh, m1, k, g, sx, sy, px, py, m);
            lemma_linked_grow(w, hh, m1, m2, k, g, sx, sy, px, py, m);
            let od = opposite(d);
            assert(neighbour(a, b, od) == (px, py));
            assert(cell(m2, w, px, py) == cell(m1, w, px, py));
            reveal(linked);
            assert(linked(w, hh, m2, k, g, sx, sy, a, b, m + 1));
        } else {
            assert(cell(m1, w, a, b) == cell(m2, w, a, b));
            let m = choose|m: nat| linked(w, hh, m1, k, g, sx, sy, a, b, m);
            lemma_linked_grow(w, hh, m1, m2, k, g, sx, sy, a, b, m);
        }
    }
}

/// A grapheme whose cells are the same in two maps is reached in both.
pub(crate) proof fn lemma_reached_same(
    img: &Raster,
    m1: Seq<Option<usize>>,
    m2: Seq<Option<usize>>,
    k: int,
    g: int,
    sx: int,
    sy: int,
)
    requires
        reached_from(img, m1, k, g, sx, sy),
        forall|a: int, b: int|
            #![trigger cell(m2, img.width as int, a, b)]
            img.in_bounds(a, b) ==> ((cell(m1, img.width as int, a, b) is Some && cell(m1, img.width as int, a, b).unwrap() == g)
                <==> (cell(m2, img.width as int, a, b) is Some && cell(m2, img.width as int, a, b).unwrap() == g)),
    ensures
        reached_from(img, m2, k, g, sx, sy),
{
    let w = img.width as int;
    let hh = img.height as int;
    assert forall|a: int, b: int|
        #![trigger cell(m2, w, a, b)]
        0 <= a < w && 0 <= b < hh && cell(m1, w, a, b) is Some && cell(m1, w, a, b).unwrap() == g
        implies cell(m2, w, a, b) is Some && cell(m2, w, a, b).unwrap() == g by {
        assert(img.in_bounds(a, b));
    }
    assert forall|a: int, b: int|
        img.in_bounds(a, b) && #[trigger] cell(m2, w, a, b) is Some
        && cell(m2, w, a, b).unwrap() == g implies exists|n: nat|
        linked(w, hh, m2, k, g, sx, sy, a, b, n) by {
        assert(cell(m1, w, a, b) is Some && cell(m1, w, a, b).unwrap() == g);
        let m = choose|m: nat| linked(w, hh, m1, k, g, sx, sy, a, b, m);
        lemma_linked_grow(w, hh, m1, m2, k, g, sx, sy, a, b, m);
    }
}

/// (a, b) comes before (x, y) in row-major order.
pub open spec fn row_major_before(a: int, b: int, x: int, y: int) -> bool {
    b < y || (b == y && a < x)
}

/// Facts of a flood fill in progress for grapheme `g`: `map0` is the map
/// before the fill, `pixels` the members found so far and `stack` those
/// still to expand.
pub(crate) open spec fn fill_inv(
    img: &Raster,
    mask: Seq<bool>,
    map0: Seq<Option<usize>>,
    map: Seq<Option<usize>>,
    k: int,
    g: int,
    pixels: Seq<(u32, u32, [u8; 3])>,
    stack: Seq<(u32, u32)>,
) -> bool {
    let w = img.width as int;
    &&& img.wf()
    &&& mask.len() == img.pixels@.len()
    &&& map.len() == img.pixels@.len()
    &&& map0.len() == img.pixels@.len()
    &&& forall|x: int, y: int|
        #![trigger cell(map, w, x, y)]
        img.in_bounds(x, y) ==> {
            &&& cell(map0, w, x, y) is Some ==> cell(map, w, x, y) == cell(map0, w, x, y)
            &&& cell(map0, w, x, y) is None ==> (cell(map, w, x, y) is None || cell(map, w, x, y)
                == Some(g as usize))
            &&& cell(map, w, x, y) == Some(g as usize) ==> !cell(mask, w, x, y) && (lists(
                pixels,
                x,
                y,
            ) || stacked(stack, x, y))
            &&& cell(map, w, x, y) matches Some(i) ==> i <= g
        }
    &&& forall|j: int|
        #![trigger pixels[j]]
        0 <= j < pixels.len() ==> {
            &&& img.in_bounds(pixels[j].0 as int, pixels[j].1 as int)
            &&& cell(map, w, pixels[j].0 as int, pixels[j].1 as int) == Some(g as usize)
            &&& pixels[j].2 == img.pixel(pixels[j].0 as int, pixels[j].1 as int)
        }
    &&& forall|j: int|
        #![trigger stack[j]]
        0 <= j < stack.len() ==> {
            &&& img.in_bounds(stack[j].0 as int, stack[j].1 as int)
            &&& cell(map, w, stack[j].0 as int, stack[j].1 as int) == Some(g as usize)
        }
    &&& distinct_places(pixels)
    &&& forall|j1: int, j2: int|
        0 <= j1 < stack.len() && 0 <= j2 < stack.len() && j1 != j2 ==> (#[trigger] stack[j1])
            != (#[trigger] stack[j2])
    &&& forall|j1: int, j2: int|
        0 <= j1 < pixels.len() && 0 <= j2 < stack.len() ==> (#[trigger] pixels[j1]).0
            != (#[trigger] stack[j2]).0 || pixels[j1].1 != stack[j2].1
    &&& forall|x: int, y: int, d: int|
        #![trigger cell(map, w, x, y), neighbour(x, y, d)]
        img.in_bounds(x, y) && 0 <= d < k && img.in_bounds(neighbour(x, y, d).0, neighbour(x, y, d).1)
            && cell(map, w, x, y) is Some && cell(map, w, x, y).unwrap() < g ==> {
            ||| cell(mask, w, neighbour(x, y, d).0, neighbour(x, y, d).1)
            ||| cell(map, w, neighbour(x, y, d).0, neighbour(x, y, d).1) == cell(map, w, x, y)
        }
}

/// Every in-bounds neighbour of (x, y) in direction `d` is background or in
/// grapheme `g`.
pub(crate) open spec fn closed_at(
    img: &Raster,
    mask: Seq<bool>,
    map: Seq<Option<usize>>,
    g: int,
    x: int,
    y: int,
    d: int,
) -> bool {
    let (nx, ny) = neighbour(x, y, d);
    img.in_bounds(nx, ny) ==> cell(mask, img.width as int, nx, ny) || cell(
        map,
        img.width as int,
        nx,
        ny,
    ) == Some(g as usize)
}

/// After `map.set` at (qx, qy), only that cell differs.
pub(crate) proof fn lemma_cell_update<T>(map: Seq<T>, img: &Raster, qx: int, qy: int, v: T)
    requires
        img.wf(),
        map.len() == img.pixels@.len(),
        img.in_bounds(qx, qy),
    ensures
        forall|x: int, y: int|
            #![trigger cell(map.update(pos(img.width as int, qx, qy), v), img.width as int, x, y)]
            img.in_bounds(x, y) ==> cell(
                map.update(pos(img.width as int, qx, qy), v),
                img.width as int,
                x,
                y,
            ) == if x == qx && y == qy {
                v
            } else {
                cell(map, img.width as int, x, y)
            },
{
    let w = img.width as int;
    assert forall|x: int, y: int| img.in_bounds(x, y) implies cell(
        map.update(pos(w, qx, qy), v),
        w,
        x,
        y,
    ) == if x == qx && y == qy {
        v
    } else {
        cell(map, w, x, y)
    } by {
        lemma_pos_in_bounds(w, img.height as int, x, y);
        lemma_pos_in_bounds(w, img.height as int, qx, qy);
        if pos(w, x, y) == pos(w, qx, qy) {
            lemma_pos_injective(w, x, y, qx, qy);
        }
    }
}

/// Distinct in-bounds places, in the members and on the stack together, are
/// no more than the image has pixels.
proof fn lemma_fill_count(img: &Raster, pixels: Seq<(u32, u32, [u8; 3])>, stack: Seq<(u32, u32)>)
    requires
        img.wf(),
        forall|j: int| 0 <= j < pixels.len() ==> img.in_bounds((#[trigger] pixels[j]).0 as int, pixels[j].1 as int),
        forall|j: int| 0 <= j < stack.len() ==> img.in_bounds((#[trigger] stack[j]).0 as int, stack[j].1 as int),
        distinct_places(pixels),
        forall|j1: int, j2: int|
            0 <= j1 < stack.len() && 0 <= j2 < stack.len() && j1 != j2 ==> (#[trigger] stack[j1])
                != (#[trigger] stack[j2]),
        forall|j1: int, j2: int|
            0 <= j1 < pixels.len() && 0 <= j2 < stack.len() ==> (#[trigger] pixels[j1]).0
                != (#[trigger] stack[j2]).0 || pixels[j1].1 != stack[j2].1,
    ensures
        pixels.len() + stack.len() <= img.pixels@.len(),
{
    let w = img.width as int;
    let h = img.height as int;
    let np = pixels.len() as int;
    let q = Seq::new((pixels.len() + stack.len()) as nat, |j: int|
        if j < np { pos(w, pixels[j].0 as int, pixels[j].1 as int) }
        else { pos(w, stack[j - np].0 as int, stack[j - np].1 as int) });
    assert forall|i: int, j: int| 0 <= i < q.len() && 0 <= j < q.len() && i != j implies q[i] != q[j] by {
        let (xi, yi) = if i < np { (pixels[i].0 as int, pixels[i].1 as int) }
            else { (stack[i - np].0 as int, stack[i - np].1 as int) };
        let (xj, yj) = if j < np { (pixels[j].0 as int, pixels[j].1 as int) }
            else { (stack[j - np].0 as int, stack[j - np].1 as int) };
        if q[i] == q[j] {
            lemma_pos_injective(w, xi, yi, xj, yj);
            if i >= np && j >= np {
                assert(stack[i - np] != stack[j - np]);
            }
        }
    }
    assert(q.no_duplicates());
    q.unique_seq_to_set();
    assert forall|k: int| q.to_set().contains(k) implies set_int_range(0, w * h).contains(k) by {
        let j = choose|j: int| 0 <= j < q.len() && q[j] == k;
        if j < np {
            lemma_pos_in_bounds(w, h, pixels[j].0 as int, pixels[j].1 as int);
        } else {
            lemma_pos_in_bounds(w, h, stack[j - np].0 as int, stack[j - np].1 as int);
        }
    }
    assert(0 <= w * h) by (nonlinear_arith)
        requires 0 <= w, 0 <= h;
    lemma_int_range(0, w * h);
    lemma_len_subset(q.to_set(), set_int_range(0, w * h));
}

/// Row-major index of an in-bounds pixel.
pub(crate) fn flat_index(img: &Raster, x: u32, y: u32) -> (k: usize)
    requires
        img.wf(),
        img.in_bounds(x as int, y as int),
    ensures
        k as int == pos(img.width as int, x as int, y as int),
        k < img.pixels@.len(),
{
    let len = img.pixels.len();
    proof {
        lemma_pos_in_bounds(img.width as int, img.height as int, x as int, y as int);
        assert(y as int * img.width as int <= pos(img.width as int, x as int, y as int));
    }
    y as usize * img.width as usize + x as usize
}

/// The in-bounds neighbour of (x, y) in direction `d`, if any.
fn step(img: &Raster, x: u32, y: u32, d: u32) -> (r: Option<(u32, u32)>)
    requires
        img.in_bounds(x as int, y as int),
        d < 8,
    ensures
        r is Some <==> img.in_bounds(neighbour(x as int, y as int, d as int).0, neighbour(x as int, y as int, d as int).1),
        r matches Some(q) ==> q.0 as int == neighbour(x as int, y as int, d as int).0 && q.1 as int
            == neighbour(x as int, y as int, d as int).1,
{
    if d == 0 {
        if x + 1 < img.width { Some((x + 1, y)) } else { None }
    } else if d == 1 {
        if y + 1 < img.height { Some((x, y + 1)) } else { None }
    } else if d == 2 {
        if x > 0 { Some((x - 1, y)) } else { None }
    } else if d == 3 {
        if y > 0 { Some((x, y - 1)) } else { None }
    } else if d == 4 {
        if x + 1 < img.width && y + 1 < img.height { Some((x + 1, y + 1)) } else { None }
    } else if d == 5 {
        if x > 0 && y + 1 < img.height { Some((x - 1, y + 1)) } else { None }
    } else if d == 6 {
        if x > 0 && y > 0 { Some((x - 1, y - 1)) } else { None }
    } else {
        if x + 1 < img.width && y > 0 { Some((x + 1, y - 1)) } else { None }
    }
}

/// Expands the fill from member (px, py) in direction `d`: an unvisited ink
/// neighbour joins grapheme `g` and the stack.
fn visit(
    img: &Raster,
    mask: &Vec<bool>,
    map: &mut Vec<Option<usize>>,
    stack: &mut Vec<(u32, u32)>,
    g: usize,
    px: u32,
    py: u32,
    dirs: u32,
    d: u32,
    Ghost(map0): Ghost<Seq<Option<usize>>>,
    Ghost(pixels): Ghost<Seq<(u32, u32, [u8; 3])>>,
    Ghost(sx): Ghost<int>,
    Ghost(sy): Ghost<int>,
)
    requires
        fill_inv(img, mask@, map0, old(map)@, dirs as int, g as int, pixels, old(stack)@),
        img.in_bounds(px as int, py as int),
        cell(old(map)@, img.width as int, px as int, py as int) == Some(g),
        dirs == 4 || dirs == 8,
        d < dirs,
        reached_from(img, old(map)@, dirs as int, g as int, sx, sy),
    ensures
        fill_inv(img, mask@, map0, final(map)@, dirs as int, g as int, pixels, final(stack)@),
        reached_from(img, final(map)@, dirs as int, g as int, sx, sy),
        closed_at(img, mask@, final(map)@, g as int, px as int, py as int, d as int),
        forall|x: int, y: int|
            #![trigger cell(final(map)@, img.width as int, x, y)]
            img.in_bounds(x, y) && cell(old(map)@, img.width as int, x, y) is Some ==> cell(
                final(map)@,
                img.width as int,
                x,
                y,
            ) == cell(old(map)@, img.width as int, x, y),
{
    let ghost w = img.width as int;
    let ghost k = dirs as int;
    if let Some((nx, ny)) = step(img, px, py, d) {
        let idx = flat_index(img, nx, ny);
        if !mask[idx] {
            match map[idx] {
                None => {
                    let ghost m1 = map@;
                    let ghost prev_stack = stack@;
                    map.set(idx, Some(g));
                    stack.push((nx, ny));
                    proof {
                        lemma_cell_update(m1, img, nx as int, ny as int, Some(g));
                        assert(map@ == m1.update(pos(w, nx as int, ny as int), Some(g)));
                        lemma_reach_after_add(img, m1, map@, k, g as int, sx, sy, px as int, py as int,
                            nx as int, ny as int, d as int);
                        assert(stack@[prev_stack.len() as int] == (nx, ny));
                        assert forall|x: int, y: int|
                            img.in_bounds(x, y) && stacked(prev_stack, x, y) implies stacked(stack@, x, y) by {
                            let j = choose|j: int| 0 <= j < prev_stack.len() && prev_stack[j].0 == x && prev_stack[j].1 == y;
                            assert(stack@[j] == prev_stack[j]);
                        }
                        assert(stacked(stack@, nx as int, ny as int));
                        assert forall|j: int| 0 <= j < pixels.len() implies
                            cell(map@, w, pixels[j].0 as int, pixels[j].1 as int) == Some(g)
                        by {
                            assert(cell(m1, w, pixels[j].0 as int, pixels[j].1 as int) == Some(g));
                        }
                        assert forall|j: int| 0 <= j < stack@.len() implies
                            img.in_bounds(stack@[j].0 as int, stack@[j].1 as int)
                            && cell(map@, w, stack@[j].0 as int, stack@[j].1 as int) == Some(g)
                        by {
                            if j < prev_stack.len() {
                                assert(stack@[j] == prev_stack[j]);
                                assert(cell(m1, w, prev_stack[j].0 as int, prev_stack[j].1 as int) == Some(g));
                            }
                        }
                        assert forall|j1: int, j2: int|
                            0 <= j1 < stack@.len() && 0 <= j2 < stack@.len() && j1 != j2 implies
                            stack@[j1] != stack@[j2]
                        by {
                            if j1 < prev_stack.len() {
                                assert(cell(m1, w, prev_stack[j1].0 as int, prev_stack[j1].1 as int) == Some(g));
                            }
                            if j2 < prev_stack.len() {
                                assert(cell(m1, w, prev_stack[j2].0 as int, prev_stack[j2].1 as int) == Some(g));
                            }
                        }
                        assert forall|x: int, y: int| img.in_bounds(x, y) implies {
                            &&& cell(map0, w, x, y) is Some ==> cell(map@, w, x, y) == cell(map0, w, x, y)
                            &&& cell(map0, w, x, y) is None ==> (cell(map@, w, x, y) is None
                                || cell(map@, w, x, y) == Some(g))
                            &&& cell(map@, w, x, y) == Some(g) ==> !cell(mask@, w, x, y) && (lists(
                                pixels, x, y) || stacked(stack@, x, y))
                            &&& cell(map@, w, x, y) matches Some(i) ==> i <= g
                        } by {
                            assert(cell(m1, w, x, y) == cell(m1, w, x, y));
                        }
                        assert forall|x: int, y: int, dd: int|
                            img.in_bounds(x, y) && 0 <= dd < k && img.in_bounds(neighbour(x, y, dd).0,
                                neighbour(x, y, dd).1) && cell(map@, w, x, y) is Some
                                && cell(map@, w, x, y).unwrap() < g implies {
                            ||| cell(mask@, w, neighbour(x, y, dd).0, neighbour(x, y, dd).1)
                            ||| cell(map@, w, neighbour(x, y, dd).0, neighbour(x, y, dd).1)
                                == cell(map@, w, x, y)
                        } by {
                            assert(cell(m1, w, x, y) == cell(m1, w, x, y));
                            let (ax, ay) = neighbour(x, y, dd);
                            assert(cell(m1, w, ax, ay) == cell(m1, w, ax, ay));
                        }
                        assert forall|j1: int, j2: int|
                            0 <= j1 < pixels.len() && 0 <= j2 < stack@.len() implies
                            pixels[j1].0 != stack@[j2].0 || pixels[j1].1 != stack@[j2].1
                        by {
                            assert(cell(m1, w, pixels[j1].0 as int, pixels[j1].1 as int) == Some(g));
                            if j2 < prev_stack.len() {
                                assert(stack@[j2] == prev_stack[j2]);
                            }
                        }
                    }
                },
                Some(i) => {
                    proof {
                        if i != g {
                            let od = opposite(d as int);
                            assert(neighbour(nx as int, ny as int, od) == (px as int, py as int));
                            assert(cell(map@, w, nx as int, ny as int) == Some(i));
                            assert(cell(map@, w, px as int, py as int) == Some(g));
                        }
                    }
                },
            }
        }
    }
}

/// The facts that a map holds of graphemes `0 .. g` while graphemes are
/// being found: only ink pixels are assigned, and a neighbour of an assigned
/// pixel is background or in the same grapheme.
pub(crate) open spec fn assigned_before(
    img: &Raster,
    mask: Seq<bool>,
    map: Seq<Option<usize>>,
    k: int,
    g: int,
) -> bool {
    let w = img.width as int;
    &&& forall|x: int, y: int|
        #![trigger cell(map, w, x, y)]
        img.in_bounds(x, y) && cell(map, w, x, y) is Some ==> !cell(mask, w, x, y) && cell(
            map,
            w,
            x,
            y,
        ).unwrap() < g
    &&& forall|x: int, y: int, d: int|
        #![trigger cell(map, w, x, y), neighbour(x, y, d)]
        img.in_bounds(x, y) && 0 <= d < k && img.in_bounds(neighbour(x, y, d).0, neighbour(x, y, d).1)
            && cell(map, w, x, y) is Some ==> {
            ||| cell(mask, w, neighbour(x, y, d).0, neighbour(x, y, d).1)
            ||| cell(map, w, neighbour(x, y, d).0, neighbour(x, y, d).1) == cell(map, w, x, y)
        }
}

impl Grapheme {
    /// Flood-fills the grapheme `g` that holds the unassigned ink pixel (x, y),
    /// over 4-neighbours, with an explicit stack.
    pub(crate) fn detect(
        x: u32,
        y: u32,
        image: &Raster,
        mask: &Vec<bool>,
        map: &mut Vec<Option<usize>>,
        g: usize,
        dirs: u32,
    ) -> (gr: Grapheme)
        requires
            dirs == 4 || dirs == 8,
            image.wf(),
            mask@.len() == image.pixels@.len(),
            old(map)@.len() == image.pixels@.len(),
            image.in_bounds(x as int, y as int),
            !cell(mask@, image.width as int, x as int, y as int),
            cell(old(map)@, image.width as int, x as int, y as int) is None,
            assigned_before(image, mask@, old(map)@, dirs as int, g as int),
        ensures
            final(map)@.len() == image.pixels@.len(),
            assigned_before(image, mask@, final(map)@, dirs as int, g + 1),
            forall|a: int, b: int|
                #![trigger cell(final(map)@, image.width as int, a, b)]
                image.in_bounds(a, b) ==> {
                    &&& cell(old(map)@, image.width as int, a, b) is Some ==> cell(
                        final(map)@,
                        image.width as int,
                        a,
                        b,
                    ) == cell(old(map)@, image.width as int, a, b)
                    &&& cell(old(map)@, image.width as int, a, b) is None ==> (cell(
                        final(map)@,
                        image.width as int,
                        a,
                        b,
                    ) is None || cell(final(map)@, image.width as int, a, b) == Some(g))
                    &&& cell(final(map)@, image.width as int, a, b) == Some(g) ==> gr.contains(a, b)
                },
            cell(final(map)@, image.width as int, x as int, y as int) == Some(g),
            forall|j: int|
                #![trigger gr.pixels@[j]]
                0 <= j < gr.pixels@.len() ==> {
                    &&& image.in_bounds(gr.pixels@[j].0 as int, gr.pixels@[j].1 as int)
                    &&& cell(final(map)@, image.width as int, gr.pixels@[j].0 as int, gr.pixels@[j].1 as int)
                        == Some(g)
                    &&& gr.pixels@[j].2 == image.pixel(gr.pixels@[j].0 as int, gr.pixels@[j].1 as int)
                },
            distinct_places(gr.pixels@),
            gr.box_tight(),
            gr.manual_override is None,
            gr.pixels@[0].0 == x && gr.pixels@[0].1 == y,
            reached_from(image, final(map)@, dirs as int, g as int, x as int, y as int),
    {
        let ghost w = image.width as int;
        let ghost k = dirs as int;
        let ghost map0 = map@;
        let start = flat_index(image, x, y);
        map.set(start, Some(g));
        let mut stack: Vec<(u32, u32)> = Vec::new();
        stack.push((x, y));
        let mut pixels: Vec<(u32, u32, [u8; 3])> = Vec::new();
        let mut top = y;
        let mut bottom = y;
        let mut left = x;
        let mut right = x;
        proof {
            lemma_cell_update(map0, image, x as int, y as int, Some(g));
            assert(stack@[0] == (x, y));
            assert(stacked(stack@, x as int, y as int));
            assert forall|a: int, b: int|
                image.in_bounds(a, b) && #[trigger] cell(map@, w, a, b) is Some
                && cell(map@, w, a, b).unwrap() == g implies exists|n: nat|
                linked(w, image.height as int, map@, k, g as int, x as int, y as int, a, b, n) by {
                assert(cell(map0, w, a, b) == cell(map0, w, a, b));
                reveal(linked);
                assert(linked(w, image.height as int, map@, k, g as int, x as int, y as int, a, b, 0));
            }
            assert forall|a: int, b: int, dd: int|
                image.in_bounds(a, b) && 0 <= dd < k && image.in_bounds(neighbour(a, b, dd).0,
                    neighbour(a, b, dd).1) && cell(map@, w, a, b) is Some
                    && cell(map@, w, a, b).unwrap() < g implies {
                ||| cell(mask@, w, neighbour(a, b, dd).0, neighbour(a, b, dd).1)
                ||| cell(map@, w, neighbour(a, b, dd).0, neighbour(a, b, dd).1) == cell(map@, w, a, b)
            } by {
                assert(cell(map0, w, a, b) == cell(map0, w, a, b));
                let (ax, ay) = neighbour(a, b, dd);
                assert(cell(map0, w, ax, ay) == cell(map0, w, ax, ay));
            }
        }
        while stack.len() > 0
            invariant
                fill_inv(image, mask@, map0, map@, k, g as int, pixels@, stack@),
                image.in_bounds(x as int, y as int),
                cell(map@, w, x as int, y as int) == Some(g),
                w == image.width,
                k == dirs as int,
                dirs == 4 || dirs == 8,
                reached_from(image, map@, k, g as int, x as int, y as int),
                pixels@.len() > 0 ==> pixels@[0].0 == x && pixels@[0].1 == y,
                forall|j: int, dd: int|
                    0 <= j < pixels@.len() && 0 <= dd < k ==> #[trigger] closed_at(
                        image,
                        mask@,
                        map@,
                        g as int,
                        pixels@[j].0 as int,
                        pixels@[j].1 as int,
                        dd,
                    ),
                forall|j: int|
                    0 <= j < pixels@.len() ==> left <= (#[trigger] pixels@[j]).0 <= right && top
                        <= pixels@[j].1 <= bottom,
                pixels@.len() > 0 ==> {
                    &&& exists|j: int| 0 <= j < pixels@.len() && (#[trigger] pixels@[j]).0 == left
                    &&& exists|j: int| 0 <= j < pixels@.len() && (#[trigger] pixels@[j]).0 == right
                    &&& exists|j: int| 0 <= j < pixels@.len() && (#[trigger] pixels@[j]).1 == top
                    &&& exists|j: int| 0 <= j < pixels@.len() && (#[trigger] pixels@[j]).1 == bottom
                },
                pixels@.len() == 0 ==> stack@ == seq![(x, y)] && left == x && right == x && top == y
                    && bottom == y,
            decreases image.pixels@.len() - pixels@.len(),
        {
            let ghost prev_pixels = pixels@;
            let ghost prev_stack = stack@;
            proof {
                lemma_fill_count(image, prev_pixels, prev_stack);
            }
            let (px, py) = stack.pop().unwrap();
            let color = image.get_pixel(px, py);
            pixels.push((px, py, color));
            proof {
                assert(prev_stack[prev_stack.len() - 1] == (px, py));
                assert(stack@ == prev_stack.drop_last());
                assert(pixels@ == prev_pixels.push((px, py, color)));
                assert forall|a: int, b: int|
                    image.in_bounds(a, b) && (lists(prev_pixels, a, b) || stacked(prev_stack, a, b)) implies (lists(pixels@, a, b)
                    || stacked(stack@, a, b)) by {
                    if lists(prev_pixels, a, b) {
                        let j = choose|j: int| 0 <= j < prev_pixels.len() && prev_pixels[j].0 == a && prev_pixels[j].1 == b;
                        assert(pixels@[j] == prev_pixels[j]);
                    } else {
                        let j = choose|j: int| 0 <= j < prev_stack.len() && prev_stack[j].0 == a && prev_stack[j].1 == b;
                        if j == prev_stack.len() - 1 {
                            assert(pixels@[prev_pixels.len() as int] == (px, py, color));
                        } else {
                            assert(stack@[j] == prev_stack[j]);
                        }
                    }
                }
                assert forall|j: int| 0 <= j < pixels@.len() implies {
                    &&& image.in_bounds(pixels@[j].0 as int, pixels@[j].1 as int)
                    &&& cell(map@, w, pixels@[j].0 as int, pixels@[j].1 as int) == Some(g)
                    &&& pixels@[j].2 == image.pixel(pixels@[j].0 as int, pixels@[j].1 as int)
                } by {
                    if j < prev_pixels.len() {
                        assert(pixels@[j] == prev_pixels[j]);
                    } else {
                        assert(prev_stack[prev_stack.len() - 1] == (px, py));
                    }
                }
                assert forall|j1: int, j2: int|
                    0 <= j1 < pixels@.len() && 0 <= j2 < pixels@.len() && j1 != j2 implies
                    pixels@[j1].0 != pixels@[j2].0 || pixels@[j1].1 != pixels@[j2].1 by {
                    if j1 < prev_pixels.len() && j2 < prev_pixels.len() {
                        assert(pixels@[j1] == prev_pixels[j1] && pixels@[j2] == prev_pixels[j2]);
                    } else if j1 < prev_pixels.len() {
                        assert(pixels@[j1] == prev_pixels[j1]);
                        assert(prev_stack[prev_stack.len() - 1] == (px, py));
                    } else {
                        assert(pixels@[j2] == prev_pixels[j2]);
                        assert(prev_stack[prev_stack.len() - 1] == (px, py));
                    }
                }
                assert forall|j1: int, j2: int|
                    0 <= j1 < pixels@.len() && 0 <= j2 < stack@.len() implies
                    pixels@[j1].0 != stack@[j2].0 || pixels@[j1].1 != stack@[j2].1 by {
                    assert(stack@[j2] == prev_stack[j2]);
                    if j1 < prev_pixels.len() {
                        assert(pixels@[j1] == prev_pixels[j1]);
                    } else {
                        assert(prev_stack[prev_stack.len() - 1] != prev_stack[j2]);
                    }
                }
                assert forall|j: int| 0 <= j < stack@.len() implies {
                    &&& image.in_bounds(stack@[j].0 as int, stack@[j].1 as int)
                    &&& cell(map@, w, stack@[j].0 as int, stack@[j].1 as int) == Some(g)
                } by {
                    assert(stack@[j] == prev_stack[j]);
                }
                assert forall|j1: int, j2: int|
                    0 <= j1 < stack@.len() && 0 <= j2 < stack@.len() && j1 != j2 implies
                    stack@[j1] != stack@[j2] by {
                    assert(stack@[j1] == prev_stack[j1] && stack@[j2] == prev_stack[j2]);
                }
                assert(fill_inv(image, mask@, map0, map@, k, g as int, pixels@, stack@));
            }
            if px < left {
                left = px;
            }
            if px > right {
                right = px;
            }
            if py < top {
                top = py;
            }
            if py > bottom {
                bottom = py;
            }
            proof {
                let last = prev_pixels.len() as int;
                assert(pixels@[last] == (px, py, color));
                assert forall|j: int| 0 <= j < pixels@.len() implies left <= (#[trigger] pixels@[j]).0
                    <= right && top <= pixels@[j].1 <= bottom by {
                    if j < last {
                        assert(pixels@[j] == prev_pixels[j]);
                    }
                }
                if prev_pixels.len() > 0 {
                    let j1 = choose|j: int| 0 <= j < prev_pixels.len() && (#[trigger] prev_pixels[j]).0 == left;
                    let j2 = choose|j: int| 0 <= j < prev_pixels.len() && (#[trigger] prev_pixels[j]).0 == right;
                    let j3 = choose|j: int| 0 <= j < prev_pixels.len() && (#[trigger] prev_pixels[j]).1 == top;
                    let j4 = choose|j: int| 0 <= j < prev_pixels.len() && (#[trigger] prev_pixels[j]).1 == bottom;
                }
            }
            let ghost m2 = map@;
            let ghost (sx, sy) = (x as int, y as int);
            visit(image, mask, map, &mut stack, g, px, py, dirs, 0, Ghost(map0), Ghost(pixels@), Ghost(sx), Ghost(sy));
            visit(image, mask, map, &mut stack, g, px, py, dirs, 1, Ghost(map0), Ghost(pixels@), Ghost(sx), Ghost(sy));
            visit(image, mask, map, &mut stack, g, px, py, dirs, 2, Ghost(map0), Ghost(pixels@), Ghost(sx), Ghost(sy));
            visit(image, mask, map, &mut stack, g, px, py, dirs, 3, Ghost(map0), Ghost(pixels@), Ghost(sx), Ghost(sy));
            if dirs == 8 {
                visit(image, mask, map, &mut stack, g, px, py, dirs, 4, Ghost(map0), Ghost(pixels@), Ghost(sx), Ghost(sy));
                visit(image, mask, map, &mut stack, g, px, py, dirs, 5, Ghost(map0), Ghost(pixels@), Ghost(sx), Ghost(sy));
                visit(image, mask, map, &mut stack, g, px, py, dirs, 6, Ghost(map0), Ghost(pixels@), Ghost(sx), Ghost(sy));
                visit(image, mask, map, &mut stack, g, px, py, dirs, 7, Ghost(map0), Ghost(pixels@), Ghost(sx), Ghost(sy));
            }
            proof {
                assert forall|j: int, dd: int| 0 <= j < pixels@.len() && 0 <= dd < k implies #[trigger] closed_at(
                    image,
                    mask@,
                    map@,
                    g as int,
                    pixels@[j].0 as int,
                    pixels@[j].1 as int,
                    dd,
                ) by {
                    let (ax, ay) = neighbour(pixels@[j].0 as int, pixels@[j].1 as int, dd);
                    if j < prev_pixels.len() {
                        assert(pixels@[j] == prev_pixels[j]);
                        assert(closed_at(image, mask@, m2, g as int, prev_pixels[j].0 as int, prev_pixels[j].1 as int, dd));
                        if image.in_bounds(ax, ay) {
                            assert(cell(m2, w, ax, ay) == cell(m2, w, ax, ay));
                        }
                    }
                }
            }
        }
        proof {
            assert forall|a: int, b: int, dd: int|
                image.in_bounds(a, b) && 0 <= dd < k && image.in_bounds(neighbour(a, b, dd).0,
                    neighbour(a, b, dd).1) && cell(map@, w, a, b) is Some implies {
                ||| cell(mask@, w, neighbour(a, b, dd).0, neighbour(a, b, dd).1)
                ||| cell(map@, w, neighbour(a, b, dd).0, neighbour(a, b, dd).1) == cell(map@, w, a, b)
            } by {
                if cell(map@, w, a, b) == Some(g) {
                    assert(lists(pixels@, a, b));
                    let j = choose|j: int| 0 <= j < pixels@.len() && pixels@[j].0 == a && pixels@[j].1 == b;
                    assert(closed_at(image, mask@, map@, g as int, pixels@[j].0 as int, pixels@[j].1 as int, dd));
                }
            }
        }
        Grapheme { pixels, top, bottom, left, right, manual_override: None }
    }
}

} // verus!
