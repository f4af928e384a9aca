use image_cleanup::analyzer::{AnalyzeError, ImageAnalyzer};
use image_cleanup::cleaner::{positive_difference, ImageCleaner};
use image_cleanup::grapheme::AnalyzedImage;
use image_cleanup::raster::{pixel_value, Raster};

const WHITE: [u8; 3] = [255, 255, 255];
const BLACK: [u8; 3] = [0, 0, 0];
const SPECK: [u8; 3] = [255, 0, 0];
const BACKGROUND: [u8; 3] = [0, 0, 255];

fn white_page(width: u32, height: u32) -> Raster {
    Raster::new(width, height, WHITE).unwrap()
}

fn paint_block(image: &mut Raster, x: u32, y: u32, w: u32, h: u32, color: [u8; 3]) {
    for yy in y..y + h {
        for xx in x..x + w {
            image.put_pixel(xx, yy, color);
        }
    }
}

fn cleaner() -> ImageCleaner {
    ImageCleaner {
        speck_fill_color: SPECK,
        background_fill_color: BACKGROUND,
        ..ImageCleaner::default()
    }
}

fn analyze(image: &Raster) -> AnalyzedImage {
    ImageAnalyzer::default().analyze(image).unwrap()
}

fn grapheme_index_at(a: &AnalyzedImage, x: u32, y: u32) -> Option<usize> {
    a.map[(y * a.width + x) as usize]
}

#[test]
fn white_page_has_no_graphemes() {
    let image = white_page(60, 40);
    let analyzer = ImageAnalyzer { off_white_threshold: 240, ..ImageAnalyzer::default() };
    let a = analyzer.analyze(&image).unwrap();
    assert_eq!(a.graphemes.len(), 0);
    let out = cleaner().clean(&a);
    assert_eq!(out.width(), 60);
    assert_eq!(out.height(), 40);
    assert!(out.pixels.iter().all(|p| *p == BACKGROUND));
}

#[test]
fn speck_in_margin_is_removed() {
    let mut image = white_page(200, 200);
    paint_block(&mut image, 10, 10, 5, 1, BLACK);
    let a = analyze(&image);
    assert_eq!(a.graphemes.len(), 1);
    assert_eq!(a.graphemes[0].pixels.len(), 5);
    let c = ImageCleaner { page_margins: (50, 50), speck_size_threshold: 0, ..cleaner() };
    assert!(c.is_removed(&a, 0));
    let out = c.clean(&a);
    for x in 10..15 {
        assert_eq!(out.get_pixel(x, 10), SPECK);
    }
    assert_eq!(out.get_pixel(9, 10), BACKGROUND);
}

fn two_clusters(offset: u32) -> AnalyzedImage {
    let mut image = white_page(400, 400);
    // 100 pixels
    paint_block(&mut image, 100, 100, 10, 10, BLACK);
    // 20 pixels
    paint_block(&mut image, 100 + offset, 100 + offset, 5, 4, BLACK);
    analyze(&image)
}

#[test]
fn small_cluster_near_anchor_is_kept() {
    let a = two_clusters(30);
    assert_eq!(a.graphemes.len(), 2);
    let c = ImageCleaner {
        isolation_distance_threshold: 50,
        isolation_size_threshold: 80,
        ..cleaner()
    };
    let small = a.graphemes.iter().position(|g| g.pixels.len() == 20).unwrap();
    assert!(!c.is_isolated(small, &a.graphemes));
    assert!(!c.is_removed(&a, small));
    let out = c.clean(&a);
    assert_eq!(out.get_pixel(130, 130), BLACK);
    assert_eq!(out.get_pixel(105, 105), BLACK);
}

#[test]
fn small_cluster_far_from_anchor_is_removed() {
    let a = two_clusters(80);
    let c = ImageCleaner {
        isolation_distance_threshold: 50,
        isolation_size_threshold: 80,
        ..cleaner()
    };
    let small = a.graphemes.iter().position(|g| g.pixels.len() == 20).unwrap();
    assert!(c.is_isolated(small, &a.graphemes));
    let out = c.clean(&a);
    assert_eq!(out.get_pixel(180, 180), SPECK);
    assert_eq!(out.get_pixel(105, 105), BLACK);
}

#[test]
fn two_small_clusters_are_both_removed() {
    let mut image = white_page(400, 400);
    paint_block(&mut image, 100, 100, 5, 4, BLACK);
    paint_block(&mut image, 300, 300, 5, 4, BLACK);
    let a = analyze(&image);
    assert_eq!(a.graphemes.len(), 2);
    let c = ImageCleaner { isolation_size_threshold: 80, ..cleaner() };
    assert!(c.is_isolated(0, &a.graphemes));
    assert!(c.is_isolated(1, &a.graphemes));
    let out = c.clean(&a);
    assert_eq!(out.get_pixel(100, 100), SPECK);
    assert_eq!(out.get_pixel(300, 300), SPECK);
}

#[test]
fn two_small_clusters_close_together_are_both_removed() {
    let mut image = white_page(400, 400);
    paint_block(&mut image, 100, 100, 5, 4, BLACK);
    paint_block(&mut image, 110, 100, 5, 4, BLACK);
    let a = analyze(&image);
    let c = ImageCleaner { isolation_size_threshold: 80, ..cleaner() };
    assert!(c.is_isolated(0, &a.graphemes));
    assert!(c.is_isolated(1, &a.graphemes));
}

#[test]
fn anchor_sized_grapheme_is_never_isolated() {
    let mut image = white_page(400, 400);
    paint_block(&mut image, 100, 100, 10, 8, BLACK);
    let a = analyze(&image);
    assert_eq!(a.graphemes[0].pixels.len(), 80);
    let c = ImageCleaner { isolation_size_threshold: 80, ..cleaner() };
    assert!(!c.is_isolated(0, &a.graphemes));
    assert!(!c.is_removed(&a, 0));
    let c = ImageCleaner { isolation_size_threshold: 81, ..cleaner() };
    assert!(c.is_isolated(0, &a.graphemes));
}

#[test]
fn every_pixel_is_background_or_in_one_grapheme() {
    let mut image = white_page(30, 20);
    paint_block(&mut image, 2, 2, 3, 3, BLACK);
    paint_block(&mut image, 10, 4, 1, 6, BLACK);
    paint_block(&mut image, 10, 9, 8, 1, BLACK);
    paint_block(&mut image, 25, 15, 2, 2, [90, 90, 90]);
    let analyzer = ImageAnalyzer::default();
    let a = analyzer.analyze(&image).unwrap();
    assert_eq!(a.graphemes.len(), 3);
    for y in 0..20 {
        for x in 0..30 {
            let ink = pixel_value(image.get_pixel(x, y)) < 100;
            let owners: Vec<usize> = (0..a.graphemes.len())
                .filter(|i| a.graphemes[*i].pixels.iter().any(|p| p.0 == x && p.1 == y))
                .collect();
            if ink {
                assert_eq!(owners.len(), 1);
                assert_eq!(grapheme_index_at(&a, x, y), Some(owners[0]));
                assert!(a.get_grapheme_at(x, y).is_some());
            } else {
                assert!(owners.is_empty());
                assert_eq!(grapheme_index_at(&a, x, y), None);
                assert!(a.get_grapheme_at(x, y).is_none());
            }
        }
    }
}

#[test]
fn bounding_boxes_are_tight() {
    let mut image = white_page(30, 20);
    paint_block(&mut image, 10, 4, 1, 6, BLACK);
    paint_block(&mut image, 10, 9, 8, 1, BLACK);
    let a = analyze(&image);
    assert_eq!(a.graphemes.len(), 1);
    let g = &a.graphemes[0];
    assert_eq!((g.top, g.bottom, g.left, g.right), (4, 9, 10, 17));
    assert_eq!(g.pixels.len(), 13);
    for p in &g.pixels {
        assert!(g.left <= p.0 && p.0 <= g.right && g.top <= p.1 && p.1 <= g.bottom);
    }
}

#[test]
fn graphemes_are_found_in_row_major_order() {
    let mut image = white_page(30, 20);
    paint_block(&mut image, 20, 2, 2, 2, BLACK);
    paint_block(&mut image, 5, 10, 2, 2, BLACK);
    paint_block(&mut image, 1, 2, 2, 2, BLACK);
    let a = analyze(&image);
    assert_eq!(a.graphemes.len(), 3);
    assert_eq!((a.graphemes[0].left, a.graphemes[0].top), (1, 2));
    assert_eq!((a.graphemes[1].left, a.graphemes[1].top), (20, 2));
    assert_eq!((a.graphemes[2].left, a.graphemes[2].top), (5, 10));
}

#[test]
fn diagonal_pixels_are_separate_graphemes() {
    let mut image = white_page(10, 10);
    image.put_pixel(3, 3, BLACK);
    image.put_pixel(4, 4, BLACK);
    let a = analyze(&image);
    assert_eq!(a.graphemes.len(), 2);
    image.put_pixel(4, 3, BLACK);
    let a = analyze(&image);
    assert_eq!(a.graphemes.len(), 1);
    assert_eq!(a.graphemes[0].pixels.len(), 3);
}

#[test]
fn kept_pixels_keep_their_colors_and_rendering_repeats() {
    let mut image = white_page(400, 400);
    paint_block(&mut image, 100, 100, 12, 12, [10, 20, 30]);
    image.put_pixel(105, 105, [40, 50, 60]);
    let a = analyze(&image);
    let c = cleaner();
    let out = c.clean(&a);
    for p in &a.graphemes[0].pixels {
        assert_eq!(out.get_pixel(p.0, p.1), image.get_pixel(p.0, p.1));
        assert_eq!(p.2, image.get_pixel(p.0, p.1));
    }
    assert_eq!(out.get_pixel(105, 105), [40, 50, 60]);
    let again = c.clean(&a);
    assert_eq!(out.pixels, again.pixels);
}

#[test]
fn light_pixel_next_to_dark_one_is_ink() {
    let mut image = white_page(20, 20);
    image.put_pixel(5, 5, BLACK);
    image.put_pixel(6, 5, [150, 150, 150]);
    image.put_pixel(15, 15, [150, 150, 150]);
    let analyzer = ImageAnalyzer::default();
    let a = analyzer.analyze(&image).unwrap();
    assert_eq!(a.graphemes.len(), 1);
    assert_eq!(a.graphemes[0].pixels.len(), 2);
    assert_eq!(grapheme_index_at(&a, 15, 15), None);
    let strict = ImageAnalyzer { lightness_threshold: 200, ..analyzer };
    let a = strict.analyze(&image).unwrap();
    assert_eq!(a.graphemes.len(), 2);
}

#[test]
fn window_is_clamped_at_the_corner() {
    let mut image = white_page(4, 4);
    image.put_pixel(0, 0, [150, 150, 150]);
    let analyzer = ImageAnalyzer { lightness_distance: 3, ..ImageAnalyzer::default() };
    let a = analyzer.analyze(&image).unwrap();
    assert_eq!(a.graphemes.len(), 0);
    image.put_pixel(3, 3, BLACK);
    let a = analyzer.analyze(&image).unwrap();
    assert_eq!(a.graphemes.len(), 2);
}

#[test]
fn empty_image_is_rejected() {
    let image = Raster::new(0, 5, WHITE).unwrap();
    assert!(matches!(ImageAnalyzer::default().analyze(&image), Err(AnalyzeError::EmptyImage)));
    let image = Raster::new(5, 0, WHITE).unwrap();
    assert!(matches!(ImageAnalyzer::default().analyze(&image), Err(AnalyzeError::EmptyImage)));
}

#[test]
fn raster_from_pixels_checks_length() {
    assert!(Raster::from_pixels(2, 2, vec![WHITE; 3]).is_none());
    let r = Raster::from_pixels(2, 2, vec![WHITE, BLACK, WHITE, WHITE]).unwrap();
    assert_eq!(r.get_pixel(1, 0), BLACK);
    assert_eq!(r.get_pixel(0, 1), WHITE);
}

#[test]
fn single_small_grapheme_is_isolated() {
    let mut image = white_page(400, 400);
    paint_block(&mut image, 200, 200, 5, 5, BLACK);
    let a = analyze(&image);
    assert_eq!(a.graphemes.len(), 1);
    assert!(cleaner().is_isolated(0, &a.graphemes));
}

#[test]
fn manual_override_wins() {
    let mut image = white_page(400, 400);
    paint_block(&mut image, 200, 200, 2, 2, BLACK);
    paint_block(&mut image, 100, 100, 12, 12, BLACK);
    let mut a = analyze(&image);
    let speck = a.graphemes.iter().position(|g| g.pixels.len() == 4).unwrap();
    let big = a.graphemes.iter().position(|g| g.pixels.len() == 144).unwrap();
    let c = cleaner();
    assert!(c.is_removed(&a, speck));
    assert!(!c.is_removed(&a, big));
    a.set_manual_override(speck, Some(true));
    a.set_manual_override(big, Some(false));
    assert!(!c.is_removed(&a, speck));
    assert!(c.is_removed(&a, big));
    let out = c.clean(&a);
    assert_eq!(out.get_pixel(200, 200), BLACK);
    assert_eq!(out.get_pixel(100, 100), SPECK);
    assert_eq!(out.get_pixel(0, 0), BACKGROUND);
}

#[test]
fn too_small_rule_counts_pixels() {
    let mut image = white_page(400, 400);
    paint_block(&mut image, 100, 100, 15, 1, BLACK);
    paint_block(&mut image, 100, 200, 16, 1, BLACK);
    let a = analyze(&image);
    let c = ImageCleaner { isolation_size_threshold: 0, ..cleaner() };
    assert!(c.is_removed(&a, 0));
    assert!(!c.is_removed(&a, 1));
}

#[test]
fn margin_rule_edges() {
    let mut image = white_page(200, 200);
    paint_block(&mut image, 50, 50, 10, 10, BLACK);
    paint_block(&mut image, 140, 80, 10, 10, BLACK);
    let a = analyze(&image);
    let c = ImageCleaner { isolation_size_threshold: 0, speck_size_threshold: 0, ..cleaner() };
    // left = 50 is not inside a 50 px band; right = 149 = 200 - 50 - 1 is not either
    assert!(!c.is_removed(&a, 0));
    assert!(!c.is_removed(&a, 1));
    let c = ImageCleaner { page_margins: (51, 0), ..c };
    assert!(c.is_removed(&a, 0));
    assert!(c.is_removed(&a, 1));
    let c = ImageCleaner { page_margins: (0, 500), ..c };
    assert!(c.is_removed(&a, 0));
}

#[test]
fn differences_and_values() {
    assert_eq!(positive_difference(3, 10), 7);
    assert_eq!(positive_difference(10, 3), 7);
    assert_eq!(positive_difference(4, 4), 0);
    assert_eq!(pixel_value([10, 20, 31]), 20);
    assert_eq!(pixel_value([255, 255, 255]), 255);
}

#[test]
fn defaults() {
    let a = ImageAnalyzer::default();
    assert_eq!((a.off_white_threshold, a.lightness_threshold, a.lightness_distance), (240, 100, 1));
    let c = ImageCleaner::default();
    assert_eq!(c.speck_size_threshold, 15);
    assert_eq!(c.page_margins, (50, 50));
    assert_eq!(c.isolation_distance_threshold, 50);
    assert_eq!(c.isolation_size_threshold, 80);
}

#[test]
fn lightness_rule_removes_faint_graphemes() {
    let mut image = white_page(400, 400);
    paint_block(&mut image, 100, 100, 10, 10, [90, 90, 90]);
    paint_block(&mut image, 200, 200, 10, 10, [30, 30, 30]);
    let a = analyze(&image);
    assert_eq!(a.graphemes[0].average_value(), 90);
    assert_eq!(a.graphemes[1].average_value(), 30);
    let c = cleaner();
    assert!(!c.is_removed(&a, 0));
    let c = ImageCleaner { speck_lightness_threshold: Some(90), ..cleaner() };
    assert!(!c.is_removed(&a, 0));
    let c = ImageCleaner { speck_lightness_threshold: Some(89), ..cleaner() };
    assert!(c.is_removed(&a, 0));
    assert!(!c.is_removed(&a, 1));
    let out = c.clean(&a);
    assert_eq!(out.get_pixel(100, 100), SPECK);
    assert_eq!(out.get_pixel(200, 200), [30, 30, 30]);
}

#[test]
fn average_value_rounds_down() {
    let mut image = white_page(10, 10);
    image.put_pixel(2, 2, [0, 0, 0]);
    image.put_pixel(3, 2, [0, 0, 3]);
    let a = analyze(&image);
    assert_eq!(a.graphemes[0].pixels.len(), 2);
    assert_eq!(a.graphemes[0].average_value(), 0);
    image.put_pixel(4, 2, [10, 10, 10]);
    let a = analyze(&image);
    assert_eq!(a.graphemes[0].average_value(), 3);
}

#[test]
fn diagonal_mode_joins_diagonal_pixels() {
    let mut image = white_page(10, 10);
    image.put_pixel(3, 3, BLACK);
    image.put_pixel(4, 4, BLACK);
    image.put_pixel(3, 5, BLACK);
    image.put_pixel(8, 8, BLACK);
    let analyzer = ImageAnalyzer { diagonal_connectivity: true, ..ImageAnalyzer::default() };
    let a = analyzer.analyze(&image).unwrap();
    assert_eq!(a.graphemes.len(), 2);
    assert_eq!(a.graphemes[0].pixels.len(), 3);
    assert_eq!((a.graphemes[0].top, a.graphemes[0].bottom), (3, 5));
    assert_eq!((a.graphemes[0].left, a.graphemes[0].right), (3, 4));
    let a = ImageAnalyzer::default().analyze(&image).unwrap();
    assert_eq!(a.graphemes.len(), 4);
}
