use vstd::prelude::*;
use crate::raster::{Raster, lemma_pos_cover};
use crate::grapheme::AnalyzedImage;
use crate::cleaner::ImageCleaner;

verus! {

/// Every pixel of a well-formed analysis is either background or a member of
/// exactly one grapheme: grapheme `i` holds (x, y) precisely when the map
/// names `i` there.
pub proof fn lemma_partition(a: AnalyzedImage, x: int, y: int)
    requires
        a.wf(),
        a.in_bounds(x, y),
    ensures
        forall|i: int|
            0 <= i < a.graphemes@.len() ==> (#[trigger] a.graphemes@[i].contains(x, y) <==> (a.grapheme_at(
                x,
                y,
            ) is Some && a.grapheme_at(x, y).unwrap() == i)),
        a.grapheme_at(x, y) is None ==> forall|i: int|
            0 <= i < a.graphemes@.len() ==> !#[trigger] a.graphemes@[i].contains(x, y),
{
    assert forall|i: int| 0 <= i < a.graphemes@.len() implies (#[trigger] a.graphemes@[i].contains(x, y)
        <==> (a.grapheme_at(x, y) is Some && a.grapheme_at(x, y).unwrap() == i)) by {
        if a.graphemes@[i].contains(x, y) {
            let p = a.graphemes@[i].pixels@;
            let j = choose|j: int| 0 <= j < p.len() && p[j].0 == x && p[j].1 == y;
            assert(a.graphemes@[i].pixels@[j] == p[j]);
        }
    }
}

/// Each grapheme's box is ordered, holds every member pixel, and has a member
/// pixel on each of its four edges.
pub proof fn lemma_box_tight(a: AnalyzedImage, i: int)
    requires
        a.wf(),
        0 <= i < a.graphemes@.len(),
    ensures
        a.graphemes@[i].top <= a.graphemes@[i].bottom,
        a.graphemes@[i].left <= a.graphemes@[i].right,
        forall|j: int|
            0 <= j < a.graphemes@[i].pixels@.len() ==> {
                let p = #[trigger] a.graphemes@[i].pixels@[j];
                a.graphemes@[i].left <= p.0 <= a.graphemes@[i].right && a.graphemes@[i].top <= p.1
                    <= a.graphemes@[i].bottom
            },
        exists|j: int|
            0 <= j < a.graphemes@[i].pixels@.len() && (#[trigger] a.graphemes@[i].pixels@[j]).0
                == a.graphemes@[i].left,
        exists|j: int|
            0 <= j < a.graphemes@[i].pixels@.len() && (#[trigger] a.graphemes@[i].pixels@[j]).0
                == a.graphemes@[i].right,
        exists|j: int|
            0 <= j < a.graphemes@[i].pixels@.len() && (#[trigger] a.graphemes@[i].pixels@[j]).1
                == a.graphemes@[i].top,
        exists|j: int|
            0 <= j < a.graphemes@[i].pixels@.len() && (#[trigger] a.graphemes@[i].pixels@[j]).1
                == a.graphemes@[i].bottom,
{
    assert(a.graphemes@[i].box_tight());
}

/// A grapheme of at least the anchor size is never isolated, so without a
/// manual decision only the size, margin and lightness rules can remove it.
pub proof fn lemma_anchor_kept_by_isolation(c: ImageCleaner, a: AnalyzedImage, i: int)
    requires
        0 <= i < a.graphemes@.len(),
        a.graphemes@[i].size() >= c.isolation_size_threshold,
    ensures
        !c.isolated(a.graphemes@, i),
        a.graphemes@[i].manual_override is None ==> (c.removed(a, i) <==> (c.too_small(
            a.graphemes@[i],
        ) || c.inside_margins(a.graphemes@[i], a.width as int, a.height as int) || c.too_light(
            a.graphemes@[i],
        ))),
{
}

/// Rendering is a function of the analysis and the cleaner: two renderings
/// of the same analysis are identical.
pub proof fn lemma_render_deterministic(c: ImageCleaner, a: AnalyzedImage, r1: Raster, r2: Raster)
    requires
        c.renders(a, r1),
        c.renders(a, r2),
    ensures
        r1.width == r2.width,
        r1.height == r2.height,
        r1.pixels@ == r2.pixels@,
{
    let w = a.width as int;
    let h = a.height as int;
    assert forall|k: int| 0 <= k < r1.pixels@.len() implies r1.pixels@[k] == r2.pixels@[k] by {
        lemma_pos_cover(w, h, k);
        assert(r1.pixel(k % w, k / w) == r2.pixel(k % w, k / w));
    }
    assert(r1.pixels@ =~= r2.pixels@);
}

} // verus!
