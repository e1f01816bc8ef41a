use lama_inpaint::compose::{build_input, composite, composite_tile, copy_of, pass_mask};
use lama_inpaint::depth::mask_depth;
use lama_inpaint::device::{grid_for, Kernel};
use lama_inpaint::image::{reflect_index, Gray8, Rgb8};
use lama_inpaint::listing::{has_ending, is_before, without_ending};
use lama_inpaint::note::{arena_len, context_note, kernel_module_version};
use lama_inpaint::passes::SectionRun;
use lama_inpaint::pool::{block_bytes, Pool, POOL_CAP};
use lama_inpaint::reorder::{input_major, phase_matrix};
use lama_inpaint::sections::Section;
use lama_inpaint::text::number;
use lama_inpaint::window::{crop_gray, crop_rgb, mask_bounds, pad_to_stride, Bounds, Tile};

fn picture(w: usize, h: usize) -> Rgb8 {
    let mut img = Rgb8::new(w, h);
    for i in 0..img.data.len() {
        img.data[i] = (i * 37 % 251) as u8;
    }
    img
}

fn masked(w: usize, h: usize, rect: (usize, usize, usize, usize)) -> Gray8 {
    let mut data = vec![0u8; w * h];
    for y in rect.1..=rect.3 {
        for x in rect.0..=rect.2 {
            data[y * w + x] = 200;
        }
    }
    Gray8 { width: w, height: h, data }
}

#[test]
fn numbers_are_written_in_decimal() {
    assert_eq!(number(0), "0");
    assert_eq!(number(10203), "10203");
    assert_eq!(number(u64::MAX), "18446744073709551615");
}

#[test]
fn names_are_trimmed_and_ordered() {
    assert!(has_ending("a.running_var", ".running_var") && !has_ending("var", ".running_var"));
    assert_eq!(without_ending("a.b.b", ".b"), "a");
    assert_eq!(without_ending("abc", ".b"), "abc");
    assert!(is_before("model.1", "model.10") && is_before("model.10", "model.2"));
    assert!(!is_before("b", "b") && !is_before("b", "a") && is_before("", "a"));
}

#[test]
fn positions_are_folded_back_into_the_image() {
    let folded: Vec<usize> = (-4..=7).map(|i| reflect_index(i, 4)).collect();
    assert_eq!(folded, vec![2, 3, 2, 1, 0, 1, 2, 3, 2, 1, 0, 1]);
    assert_eq!([-3, 0, 5].map(|i| reflect_index(i, 1)), [0, 0, 0]);
}

#[test]
fn extents_are_padded_to_the_next_multiple() {
    assert_eq!([0, 1, 7, 8, 9, 513].map(pad_to_stride), [0, 7, 1, 0, 7, 7]);
}

#[test]
fn bounds_are_those_of_the_hole() {
    let b = mask_bounds(&masked(9, 7, (2, 3, 5, 4))).unwrap();
    assert_eq!(b, Bounds { min_x: 2, min_y: 3, max_x: 5, max_y: 4 });
    assert!(mask_bounds(&Gray8 { width: 0, height: 5, data: vec![] }).is_none());
}

#[test]
fn the_input_has_the_hole_blacked_out_and_the_mask_behind() {
    let img = picture(3, 2);
    let m = masked(3, 2, (1, 0, 1, 0));
    let input = build_input(&img, &m, 1, 2);
    assert_eq!(input.len(), 4 * 3 * 5);
    let at = |c: usize, y: usize, x: usize| input[(c * 3 + y) * 5 + x];
    for c in 0..3 {
        assert_eq!(at(c, 0, 0), img.data[c]);
        assert_eq!(at(c, 0, 1), 0);
        // Columns 3 and 4 mirror 1 and 0; row 2 mirrors row 0.
        assert_eq!(at(c, 0, 3), 0);
        assert_eq!(at(c, 0, 4), img.data[c]);
        assert_eq!(at(c, 2, 2), img.data[2 * 3 + c]);
        assert_eq!(at(c, 1, 4), img.data[3 * 3 + c]);
    }
    assert_eq!([at(3, 0, 0), at(3, 0, 1), at(3, 0, 3), at(3, 1, 1), at(3, 2, 1)], [0, 255, 255, 0, 255]);
}

#[test]
fn only_the_hole_is_replaced() {
    let img = picture(4, 3);
    let m = masked(4, 3, (1, 1, 2, 1));
    let planes: Vec<u8> = (0..3 * 8 * 8).map(|i| (i % 256) as u8).collect();
    let out = composite(&img, &m, &planes, 5, 4);
    for y in 0..3 {
        for x in 0..4 {
            for c in 0..3 {
                let o = (y * 4 + x) * 3 + c;
                let hole = y == 1 && (x == 1 || x == 2);
                let want = if hole { planes[(c * 8 + y) * 8 + x] } else { img.data[o] };
                assert_eq!(out.data[o], want, "({x},{y}) channel {c}");
            }
        }
    }
    assert_eq!(copy_of(&img).data, img.data);
}

#[test]
fn a_window_is_pasted_where_it_was_cut() {
    let img = picture(20, 20);
    let m = masked(20, 20, (3, 3, 15, 15));
    let t = Tile { x0: 4, y0: 6, side: 8, bbox_w: 13, bbox_h: 13 };
    let planes = vec![9u8; 3 * 64];
    let out = composite_tile(&img, &m, &t, &planes, 0);
    let changed = |x: usize, y: usize| (4..12).contains(&x) && (6..14).contains(&y);
    for y in 0..20 {
        for x in 0..20 {
            let o = (y * 20 + x) * 3;
            let want = if changed(x, y) { 9 } else { img.data[o] };
            assert_eq!(out.data[o], want, "({x},{y})");
        }
    }
}

#[test]
fn a_pass_masks_only_its_own_section() {
    let m = masked(20, 20, (3, 3, 15, 15));
    let win = Tile { x0: 2, y0: 2, side: 8, bbox_w: 4, bbox_h: 4 };
    let out = pass_mask(&m, &win, &Section { x0: 3, y0: 3, x1: 7, y1: 6 });
    for y in 0..8 {
        for x in 0..8 {
            let inside = (1..5).contains(&x) && (1..4).contains(&y);
            assert_eq!(out.data[y * 8 + x], if inside { 200 } else { 0 });
        }
    }
}

#[test]
fn sections_are_filled_one_after_the_other() {
    let (w, h) = (600, 560);
    let img = picture(w, h);
    let m = masked(w, h, (20, 30, 420, 300));
    let mut run = SectionRun::begin(&img, &m);
    let count = run.sections.len();
    assert_eq!(count, 4);
    let mut passes = 0u8;
    while let Some(pass) = run.next_pass() {
        assert_eq!((pass.win.side, pass.input.len()), (512, 4 * 512 * 512));
        passes += 1;
        let s = run.sections[passes as usize - 1];
        let masked_pixels = pass.input[3 * 512 * 512..].iter().filter(|v| **v == 255).count();
        assert_eq!(masked_pixels, (s.x1 - s.x0) * (s.y1 - s.y0));
        run.absorb(&vec![passes; 3 * 512 * 512]);
    }
    assert_eq!(passes as usize, count);
    let sections = run.sections.clone();
    let out = run.finish();
    for y in 0..h {
        for x in 0..w {
            let o = (y * w + x) * 3;
            let by = sections.iter().position(|s| (s.x0..s.x1).contains(&x) && (s.y0..s.y1).contains(&y));
            match by {
                Some(i) if m.data[y * w + x] > 0 => assert_eq!(out.data[o], i as u8 + 1),
                _ => assert_eq!(out.data[o..o + 3], img.data[o..o + 3]),
            }
        }
    }
}

#[test]
fn a_later_pass_sees_what_an_earlier_one_filled_in() {
    let (w, h) = (600, 560);
    let img = picture(w, h);
    let m = masked(w, h, (20, 30, 420, 300));
    let mut run = SectionRun::begin(&img, &m);
    let first = run.sections[0];
    run.next_pass().unwrap();
    run.absorb(&vec![77; 3 * 512 * 512]);
    let pass = run.next_pass().unwrap();
    let (x, y) = (first.x1 - 1 - pass.win.x0, first.y1 - 1 - pass.win.y0);
    assert!(x < 512 && y < 512);
    assert_eq!(pass.input[y * 512 + x], 77);
}

#[test]
fn freed_blocks_are_handed_out_again_by_size() {
    let mut pool = Pool::new();
    assert_eq!(pool.acquire(64), None);
    pool.missed();
    assert!(pool.release(1, 64) && pool.release(2, 64) && pool.release(3, 128));
    assert_eq!(pool.bytes, 256);
    assert_eq!(pool.acquire(32), None);
    assert_eq!(pool.acquire(64), Some(2));
    assert_eq!(pool.acquire(64), Some(1));
    assert_eq!(pool.acquire(64), None);
    assert_eq!((pool.bytes, pool.hits, pool.misses), (128, 2, 1));
    assert!(!pool.release(4, POOL_CAP - 127));
    assert!(pool.release(4, POOL_CAP - 128));
    assert_eq!([0, 1, 5].map(block_bytes), [4, 4, 20]);
}

#[test]
fn weights_are_reordered_for_their_kernels() {
    // [cout 2][cin 3][1][2] becomes [cin 3][cout 2][1][2].
    let w: Vec<u32> = (0..12).collect();
    assert_eq!(input_major(&w, 2, 3, 1, 2), vec![0, 1, 6, 7, 2, 3, 8, 9, 4, 5, 10, 11]);
    let w: Vec<u32> = (0..18).collect();
    assert_eq!(phase_matrix(&w, 2, 1, 0), vec![4, 13]);
    assert_eq!(phase_matrix(&w, 2, 1, 3).len(), 8);
    let mut all: Vec<u32> = (0..4).flat_map(|p| phase_matrix(&w, 2, 1, p)).collect();
    all.sort();
    assert_eq!(all, w);
}

#[test]
fn a_grid_covers_every_element() {
    assert_eq!([0, 1, 256, 257].map(|n| grid_for(n, 256)), [0, 1, 1, 2]);
    assert_eq!(grid_for(u32::MAX as usize + 2, 1024), 4194305);
}

#[test]
fn kernels_are_found_in_their_images() {
    assert_eq!((Kernel::Im2col.name(), Kernel::Im2col.is_toolkit()), ("k_im2col", false));
    assert_eq!((Kernel::Copy.name(), Kernel::Copy.is_toolkit()), ("lg_copy", true));
}

#[test]
fn a_missing_device_is_explained() {
    let text = "NVRM version: NVIDIA UNIX x86_64 Kernel Module  535.104.05  Sat Aug 19\nGCC version: 12\n";
    let version = kernel_module_version(text);
    assert_eq!(version.as_deref(), Some("535.104.05"));
    assert_eq!(kernel_module_version("one two\nthree"), None);
    assert_eq!(kernel_module_version(""), None);
    assert_eq!(kernel_module_version("1 2 3 4 5 6 7"), None);
    assert_eq!(context_note(0, &None), "CUDA is not available in this process (0).");
    assert_eq!(context_note(-3, &None), "CUDA is not available in this process (-3).");
    let note = context_note(804, &version);
    let lines: Vec<&str> = note.split('\n').collect();
    assert_eq!(lines.len(), 6);
    assert_eq!(lines[1], "  nvidia kernel module: 535.104.05");
    assert_eq!(lines[5], "    LD_LIBRARY_PATH=/path/to/your/nvidia/driver/lib");
}

#[test]
fn a_checkpoint_is_held_by_whole_numbers() {
    assert_eq!([0, 1, 4, 5].map(arena_len), [0, 1, 1, 2]);
}

#[test]
fn a_window_pass_is_what_cropping_by_hand_does() {
    let img = picture(24, 20);
    let m = masked(24, 20, (6, 5, 13, 12));
    let t = Tile { x0: 5, y0: 3, side: 12, bbox_w: 8, bbox_h: 8 };
    let planes: Vec<u8> = (0..3 * 12 * 12).map(|i| (i * 11 % 256) as u8).collect();
    let by_hand = composite(&crop_rgb(&img, &t), &crop_gray(&m, &t), &planes, 0, 0);
    let mut pasted = copy_of(&img);
    for y in 0..12 {
        for x in 0..12 {
            for c in 0..3 {
                pasted.data[((3 + y) * 24 + 5 + x) * 3 + c] = by_hand.data[(y * 12 + x) * 3 + c];
            }
        }
    }
    assert_eq!(composite_tile(&img, &m, &t, &planes, 0).data, pasted.data);
}

#[test]
fn depth_counts_the_steps_to_the_rim() {
    let d = mask_depth(&masked(9, 8, (1, 1, 7, 5)));
    let at = |x: usize, y: usize| d[y * 9 + x];
    assert_eq!([at(1, 1), at(4, 1), at(2, 2), at(4, 3), at(7, 5)], [0, 0, 1, 2, 0]);
    assert_eq!(at(0, 0), u32::MAX);
    let full = mask_depth(&masked(3, 3, (0, 0, 2, 2)));
    assert_eq!(full, vec![0, 0, 0, 0, 1, 0, 0, 0, 0]);
}
