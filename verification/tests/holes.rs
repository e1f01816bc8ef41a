use lama_inpaint::depth::mask_depth;
use lama_inpaint::image::{Gray8, Rgb8};
use lama_inpaint::sections::{section_rects, Section, SECTION_BLOCK};
use lama_inpaint::window::{crop_gray, crop_rgb, tile_rect, window_origin, Tile, PAD_MOD, TILE_MIN};

fn mask_of(w: usize, h: usize, rect: Option<(usize, usize, usize, usize)>) -> Gray8 {
    let mut data = vec![0u8; w * h];
    if let Some((x0, y0, x1, y1)) = rect {
        for y in y0..=y1 {
            for x in x0..=x1 {
                data[y * w + x] = 255;
            }
        }
    }
    Gray8 { width: w, height: h, data }
}

/// The window must always contain the mask; a window that clipped the hole
/// would leave part of it unfilled.
fn assert_contains(t: &Tile, m: &Gray8) {
    for y in 0..m.height {
        for x in 0..m.width {
            if m.data[y * m.width + x] > 0 {
                assert!(
                    x >= t.x0 && x < t.x0 + t.side && y >= t.y0 && y < t.y0 + t.side,
                    "mask pixel ({x},{y}) outside window at ({},{}) side {}",
                    t.x0, t.y0, t.side
                );
            }
        }
    }
    assert!(t.x0 + t.side <= m.width && t.y0 + t.side <= m.height);
    if m.width.min(m.height) >= PAD_MOD {
        assert_eq!(t.side % PAD_MOD, 0, "window side must be a multiple of {PAD_MOD}");
    }
}

#[test]
fn empty_mask_has_no_window() {
    assert!(tile_rect(&mask_of(256, 256, None)).is_none());
}

#[test]
fn small_mask_gets_the_minimum_window() {
    let m = mask_of(1024, 1024, Some((500, 500, 515, 515)));
    let t = tile_rect(&m).unwrap();
    assert_eq!(t.side, TILE_MIN);
    assert_contains(&t, &m);
}

#[test]
fn window_is_twice_the_bounding_box() {
    // 300x300 mask -> 600x600 window, the size the README quotes.
    let m = mask_of(2048, 2048, Some((900, 800, 1199, 1099)));
    let t = tile_rect(&m).unwrap();
    assert_eq!(t.side, 600);
    assert_contains(&t, &m);
}

#[test]
fn wider_than_tall_uses_the_longer_side() {
    let m = mask_of(2048, 2048, Some((100, 1000, 799, 1099)));
    let t = tile_rect(&m).unwrap();
    assert_eq!(t.side, 1400);
    assert_contains(&t, &m);
}

#[test]
fn window_stays_inside_the_image_at_every_corner() {
    for (x0, y0) in [(0, 0), (824, 0), (0, 824), (824, 924)] {
        let m = mask_of(1024, 1024, Some((x0, y0, x0 + 199, y0 + 99)));
        let t = tile_rect(&m).unwrap();
        assert_contains(&t, &m);
    }
}

#[test]
fn window_is_capped_at_the_image_size() {
    // A mask spanning the whole (sub-TILE_MIN) image cannot be contained in
    // a window smaller than the image, so the window is capped and centred.
    // The CLI never routes such an image here; this pins the helper's
    // behaviour at the boundary.
    let m = mask_of(300, 500, Some((0, 0, 299, 499)));
    let t = tile_rect(&m).unwrap();
    assert_eq!(t.side, 296); // 300 rounded down to a multiple of 8
    assert_eq!((t.x0, t.y0), (2, 102)); // centred, inside the image
    assert!(t.x0 + t.side <= 300 && t.y0 + t.side <= 500);
}

#[test]
fn oversized_bounding_box_is_clamped_not_clipped() {
    // A 300x300 mask at the far corner of a 2048 image stays fully inside
    // its 600x600 window.
    let m = mask_of(2048, 2048, Some((1700, 1700, 1999, 1999)));
    let t = tile_rect(&m).unwrap();
    assert_eq!(t.side, 600);
    assert_eq!((t.x0, t.y0), (1448, 1448));
    assert_contains(&t, &m);
}

#[test]
fn tiny_images_do_not_panic() {
    // The CLI never reaches the window logic below TILE_MIN, but the
    // function must still return something consistent for a small image.
    for side in 1..=8usize {
        let m = mask_of(side, side, Some((0, 0, side - 1, side - 1)));
        let t = tile_rect(&m).unwrap();
        assert!(t.side >= 1 && t.side <= side);
        assert!(t.x0 + t.side <= side && t.y0 + t.side <= side);
    }
}

#[test]
fn crop_helpers_copy_the_requested_region() {
    let mut img = Rgb8::new(32, 32);
    for y in 0..32 {
        for x in 0..32 {
            let o = (y * 32 + x) * 3;
            img.data[o] = x as u8;
            img.data[o + 1] = y as u8;
            img.data[o + 2] = 7;
        }
    }
    let m = mask_of(32, 32, Some((2, 3, 20, 21)));
    let t = Tile { x0: 2, y0: 3, side: 8, bbox_w: 19, bbox_h: 19 };
    let c = crop_rgb(&img, &t);
    let g = crop_gray(&m, &t);
    assert_eq!(c.width, 8);
    for y in 0..8 {
        for x in 0..8 {
            let o = (y * 8 + x) * 3;
            assert_eq!(c.data[o], (x + 2) as u8);
            assert_eq!(c.data[o + 1], (y + 3) as u8);
            assert_eq!(g.data[y * 8 + x], if y + 3 <= 21 && x + 2 <= 20 { 255 } else { 0 });
        }
    }
}

/// `--sections` must cover every masked pixel exactly once - the sections are
/// a partition of the hole - and no section may be empty.
fn assert_covers(sections: &[Section], m: &Gray8) {
    let mut hits = vec![0u8; m.width * m.height];
    for s in sections {
        let mut any = false;
        for y in s.y0..s.y1 {
            for x in s.x0..s.x1 {
                if m.data[y * m.width + x] > 0 {
                    hits[y * m.width + x] += 1;
                    any = true;
                }
            }
        }
        assert!(any, "empty section at ({},{})", s.x0, s.y0);
        assert!(s.x1 - s.x0 <= SECTION_BLOCK && s.y1 - s.y0 <= SECTION_BLOCK);
    }
    for y in 0..m.height {
        for x in 0..m.width {
            if m.data[y * m.width + x] > 0 {
                assert_eq!(
                    hits[y * m.width + x], 1,
                    "pixel ({x},{y}) must be in exactly one section"
                );
            } else {
                assert_eq!(hits[y * m.width + x], 0, "pixel ({x},{y}) wrongly covered");
            }
        }
    }
}

#[test]
fn sections_of_a_small_mask_are_single_and_cover_it() {
    let m = mask_of(1024, 1024, Some((500, 500, 700, 700)));
    let s = section_rects(&m);
    assert_eq!(s.len(), 1);
    assert_eq!((s[0].x0, s[0].y0, s[0].x1, s[0].y1), (500, 500, 701, 701));
    assert_covers(&s, &m);
}

#[test]
fn a_300x300_mask_becomes_four_sections() {
    // A 299-wide bbox needs two 256-blocks across and two down, with the
    // last of each clamped to the bbox, so four discrete sections cover it.
    let m = mask_of(1024, 1024, Some((300, 300, 598, 598)));
    let s = section_rects(&m);
    assert_eq!(s.len(), 4); // two starts across, two down
    // `assert_covers` pins that every masked pixel is covered exactly once;
    // the sections must also be pairwise disjoint.
    assert_covers(&s, &m);
    for (i, a) in s.iter().enumerate() {
        for b in &s[i + 1..] {
            let disjoint = a.x1 <= b.x0 || b.x1 <= a.x0 || a.y1 <= b.y0 || b.y1 <= a.y0;
            assert!(disjoint, "sections {a:?} and {b:?} share a pixel");
        }
    }
    assert_eq!(
        (s[0].x0, s[0].x1, s[2].x0, s[2].x1),
        (300, 556, 300, 556),
        "the two starts across must be a whole block apart"
    );
}

#[test]
fn the_rim_is_filled_before_the_interior() {
    // A 600x600 square: the first section must touch the rim of the hole and
    // the last must sit deeper inside it.
    let m = mask_of(2048, 2048, Some((500, 500, 1099, 1099)));
    let s = section_rects(&m);
    assert_covers(&s, &m);
    let depth = mask_depth(&m);
    let section_depth = |s: &Section| {
        let mut d = u32::MAX;
        for y in s.y0..s.y1 {
            for x in s.x0..s.x1 {
                if m.data[y * m.width + x] > 0 {
                    d = d.min(depth[y * m.width + x]);
                }
            }
        }
        d
    };
    assert_eq!(section_depth(&s[0]), 0, "the first pass must touch the rim");
    let last = section_depth(&s[s.len() - 1]);
    assert!(last > 0, "the last pass must be inside the hole");
    for pair in s.windows(2) {
        assert!(section_depth(&pair[0]) <= section_depth(&pair[1]));
    }
}

#[test]
fn mask_depth_is_zero_on_the_rim_and_grows_inward() {
    let m = mask_of(512, 512, Some((100, 100, 299, 299)));
    let d = mask_depth(&m);
    assert_eq!(d[100 * 512 + 100], 0);
    assert_eq!(d[299 * 512 + 299], 0);
    assert!(d[200 * 512 + 200] >= 99, "centre must be deepest");
    assert_eq!(d[0], u32::MAX); // outside the mask
}

#[test]
fn order_is_deterministic() {
    let a = mask_of(2048, 2048, Some((100, 100, 699, 399)));
    let b = mask_of(2048, 2048, Some((100, 100, 699, 399)));
    assert_eq!(section_rects(&a), section_rects(&b));
}

#[test]
fn a_wide_mask_is_sectioned_and_ordered_by_depth() {
    // A 600x300 mask: 256-blocks tile it three across and two down, and
    // every section stays inside the image and the bbox.
    let m = mask_of(2048, 2048, Some((100, 100, 699, 399)));
    let s = section_rects(&m);
    assert_eq!(s.len(), 6);
    assert_covers(&s, &m);
    let depth = mask_depth(&m);
    let section_depth = |s: &Section| {
        let mut d = u32::MAX;
        for y in s.y0..s.y1 {
            for x in s.x0..s.x1 {
                if m.data[y * m.width + x] > 0 {
                    d = d.min(depth[y * m.width + x]);
                }
            }
        }
        d
    };
    for pair in s.windows(2) {
        assert!(section_depth(&pair[0]) <= section_depth(&pair[1]));
    }
}

#[test]
fn order_is_deterministic_when_the_mask_is_rebuilt() {
    let a = mask_of(2048, 2048, Some((100, 100, 699, 399)));
    let b = mask_of(2048, 2048, Some((100, 100, 699, 399)));
    assert_eq!(section_rects(&a), section_rects(&b));
    assert!(!section_rects(&a).is_empty());
}

#[test]
fn sections_follow_from_the_hole_alone() {
    let a = mask_of(700, 600, Some((90, 40, 600, 420)));
    let mut b = mask_of(700, 600, Some((90, 40, 600, 420)));
    for v in b.data.iter_mut().filter(|v| **v > 0) {
        *v = 1;
    }
    assert_ne!(a.data, b.data);
    assert_eq!(section_rects(&a), section_rects(&b));
}

#[test]
fn empty_mask_has_no_sections() {
    assert!(section_rects(&mask_of(256, 256, None)).is_empty());
}

#[test]
fn a_single_pixel_mask_is_one_small_piece() {
    let m = mask_of(1024, 1024, Some((800, 900, 800, 900)));
    let s = section_rects(&m);
    assert_eq!(s.len(), 1);
    assert_eq!((s[0].x0, s[0].y0, s[0].x1, s[0].y1), (800, 900, 801, 901));
    assert_covers(&s, &m);
}

/// The fill order must shrink the unfilled hole monotonically and finish it:
/// a later pass always has at least as much context as the one before, and
/// every masked pixel is written by some pass.
#[test]
fn passes_fill_the_hole_monotonically_and_completely() {
    let (w, h) = (1024usize, 1024usize);
    let m = mask_of(w, h, Some((300, 300, 598, 598)));
    let sections = section_rects(&m);
    let total = m.data.iter().filter(|&&v| v > 0).count();
    assert!(total > 0);

    // Mirror of the loop in run_sections: each pass writes its own section's
    // masked pixels and the unfilled set never grows.
    let mut filled = vec![false; w * h];
    let mut remaining = total;
    let mut seen = Vec::new();
    for s in &sections {
        for y in s.y0..s.y1 {
            for x in s.x0..s.x1 {
                let i = y * w + x;
                if m.data[i] > 0 && !filled[i] {
                    filled[i] = true;
                    remaining -= 1;
                }
            }
        }
        seen.push(remaining);
    }
    assert_eq!(remaining, 0, "every masked pixel must be filled");
    assert!(seen[0] < total, "the first pass must make progress");
    for pair in seen.windows(2) {
        assert!(pair[1] <= pair[0], "the unfilled hole must only shrink");
    }
    // Rim-inward means the first pass touches the boundary of the hole.
    let depth = mask_depth(&m);
    let first = &sections[0];
    let touches_rim = (first.y0..first.y1).any(|y| {
        (first.x0..first.x1).any(|x| m.data[y * w + x] > 0 && depth[y * w + x] == 0)
    });
    assert!(touches_rim, "the first pass must start at the rim");
}

#[test]
fn window_origin_stays_inside() {
    assert_eq!(window_origin(0, 512, 1024), 0);
    assert_eq!(window_origin(1023, 512, 1024), 512);
    assert_eq!(window_origin(500, 512, 1024), 244);
    // A window at least as large as the extent starts at 0.
    assert_eq!(window_origin(600, 512, 300), 0);
    assert_eq!(window_origin(0, 4096, 1024), 0);
}

#[test]
fn every_section_fits_in_a_512_window_inside_a_large_image() {
    // The mode relies on this: whatever the section, a 512 window clamped
    // inside an image whose short side exceeds 512 contains it.
    let m = mask_of(1024, 1024, Some((0, 0, 1023, 1023)));
    for s in section_rects(&m) {
        let cx = (s.x0 + s.x1) / 2;
        let cy = (s.y0 + s.y1) / 2;
        let x0 = window_origin(cx, TILE_MIN, 1024);
        let y0 = window_origin(cy, TILE_MIN, 1024);
        assert!(x0 <= s.x0 && s.x1 <= x0 + TILE_MIN, "section {s:?} clipped in x");
        assert!(y0 <= s.y0 && s.y1 <= y0 + TILE_MIN, "section {s:?} clipped in y");
    }
}
