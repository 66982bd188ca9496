use fix_pixelart::{
    get_smallest_stride, get_smallest_stride_from_animation, get_smallest_stride_of_first_frame,
    get_smallest_stride_phase1, get_smallest_stride_phase2, CandidateSet, Color, Frame,
};

fn rgba(r: u8, g: u8, b: u8, a: u8) -> Color {
    Color { r, g, b, a }
}

fn opaque(k: u8) -> Color {
    rgba(k, 255 - k, k / 2, 255)
}

fn frame_from_fn(width: u32, height: u32, f: impl Fn(u32, u32) -> Color) -> Frame {
    let mut pixels = Vec::new();
    for y in 0..height {
        for x in 0..width {
            pixels.push(f(x, y));
        }
    }
    Frame::new(width, height, pixels).unwrap()
}

/// Each pixel of a `w` by `h` image with all colors distinct, as an `n` by `n` block.
fn upscaled(w: u32, h: u32, n: u32) -> Frame {
    frame_from_fn(w * n, h * n, |x, y| opaque(((y / n) * w + x / n) as u8 * 7 + 1))
}

fn set_of(items: &[u32]) -> CandidateSet {
    let mut s = CandidateSet::new();
    for &i in items {
        s.insert(i);
    }
    s
}

#[test]
fn reducer_returns_smallest_common_divisor() {
    assert_eq!(get_smallest_stride_phase2(&set_of(&[4, 8, 12])), 4);
    assert_eq!(get_smallest_stride_phase2(&set_of(&[12, 8, 4])), 4);
}

#[test]
fn reducer_rejects_inconsistent_lengths() {
    assert_eq!(get_smallest_stride_phase2(&set_of(&[4, 6])), 1);
    // no fallback to a smaller common divisor
    assert_eq!(get_smallest_stride_phase2(&set_of(&[6, 4, 8])), 1);
}

#[test]
fn reducer_edge_cases() {
    assert_eq!(get_smallest_stride_phase2(&set_of(&[])), 1);
    assert_eq!(get_smallest_stride_phase2(&set_of(&[1, 2, 4])), 1);
    assert_eq!(get_smallest_stride_phase2(&set_of(&[0])), 1);
    assert_eq!(get_smallest_stride_phase2(&set_of(&[0, 3, 9])), 3);
    assert_eq!(get_smallest_stride_phase2(&set_of(&[5])), 5);
}

#[test]
fn candidate_set_keeps_lengths_once() {
    let s = set_of(&[3, 3, 6, 3]);
    assert_eq!(s.len(), 2);
    assert!(s.contains(3));
    assert!(s.contains(6));
    assert!(!s.contains(9));
}

#[test]
fn upscaled_image_round_trips() {
    assert_eq!(get_smallest_stride(&upscaled(3, 2, 2), false), 2);
    assert_eq!(get_smallest_stride(&upscaled(3, 2, 3), false), 3);
    assert_eq!(get_smallest_stride(&upscaled(1, 1, 5), false), 5);
    assert_eq!(get_smallest_stride(&upscaled(4, 3, 4), true), 4);
}

#[test]
fn native_resolution_image_fails() {
    assert_eq!(get_smallest_stride(&upscaled(3, 3, 1), false), 1);
}

#[test]
fn singleton_run_disproves() {
    // 6 by 6 of 3 by 3 blocks, with one pixel changed
    let f = frame_from_fn(6, 6, |x, y| {
        if x == 4 && y == 1 {
            opaque(200)
        } else {
            opaque(((y / 3) * 2 + x / 3) as u8 * 5 + 1)
        }
    });
    assert_eq!(get_smallest_stride(&f, false), 1);
    let mut s = CandidateSet::new();
    assert!(!get_smallest_stride_phase1(&f, &mut s, false));
}

#[test]
fn transparent_singleton_still_disproves() {
    let f = frame_from_fn(6, 6, |x, y| if x == 2 && y == 2 { rgba(0, 0, 0, 0) } else { opaque(9) });
    assert_eq!(get_smallest_stride(&f, false), 1);
}

#[test]
fn transparent_runs_are_not_candidates() {
    // each row: 2 transparent pixels, then 4 red ones; columns are 4 long
    let f = frame_from_fn(6, 4, |x, _| if x < 2 { rgba(10, 10, 10, 0) } else { opaque(50) });
    let mut s = CandidateSet::new();
    assert!(get_smallest_stride_phase1(&f, &mut s, false));
    assert!(s.contains(4));
    assert!(!s.contains(2));
    assert_eq!(s.len(), 1);
    assert_eq!(get_smallest_stride(&f, false), 4);
}

#[test]
fn fully_transparent_image_fails() {
    let f = frame_from_fn(4, 4, |_, _| rgba(1, 2, 3, 0));
    assert_eq!(get_smallest_stride(&f, false), 1);
}

#[test]
fn degenerate_images_fail() {
    let empty = Frame::new(0, 0, Vec::new()).unwrap();
    let single = Frame::new(1, 1, vec![opaque(3)]).unwrap();
    for b in [false, true] {
        assert_eq!(get_smallest_stride(&empty, b), 1);
        assert_eq!(get_smallest_stride(&single, b), 1);
    }
    let mut s = CandidateSet::new();
    assert!(get_smallest_stride_phase1(&empty, &mut s, false));
    assert_eq!(s.len(), 0);
}

fn bordered(n: u32) -> Frame {
    // a 2 by 2 image scaled by n, framed by a border one pixel wide
    let side = 2 * n + 2;
    frame_from_fn(side, side, |x, y| {
        if x == 0 || y == 0 || x == side - 1 || y == side - 1 {
            opaque(100)
        } else {
            opaque((((y - 1) / n) * 2 + (x - 1) / n) as u8 * 11 + 1)
        }
    })
}

#[test]
fn border_is_ignored_on_request() {
    assert_eq!(get_smallest_stride(&bordered(3), true), 3);
    assert_eq!(get_smallest_stride(&bordered(2), true), 2);
}

#[test]
fn border_disproves_without_the_flag() {
    assert_eq!(get_smallest_stride(&bordered(3), false), 1);
}

fn frame_four_and_eight() -> Frame {
    frame_from_fn(12, 4, |x, _| if x < 4 { opaque(20) } else { opaque(40) })
}

#[test]
fn animation_merges_candidates() {
    let frames = vec![
        frame_four_and_eight(),
        frame_from_fn(4, 4, |_, _| opaque(60)),
        frame_from_fn(8, 8, |_, _| opaque(80)),
    ];
    let mut s = CandidateSet::new();
    assert!(get_smallest_stride_phase1(&frames[0], &mut s, false));
    assert!(s.contains(4) && s.contains(8) && s.len() == 2);
    assert_eq!(get_smallest_stride_from_animation(&frames, false), 4);
}

#[test]
fn animation_inconsistent_frames_fail() {
    let frames = vec![frame_from_fn(4, 4, |_, _| opaque(60)), frame_from_fn(6, 6, |_, _| opaque(80))];
    assert_eq!(get_smallest_stride_from_animation(&frames, false), 1);
}

#[test]
fn animation_with_disproved_frame_fails() {
    let frames = vec![
        frame_four_and_eight(),
        frame_from_fn(2, 1, |x, _| opaque(x as u8)),
        frame_from_fn(8, 8, |_, _| opaque(80)),
    ];
    assert_eq!(get_smallest_stride_from_animation(&frames, false), 1);
}

#[test]
fn empty_animation_fails() {
    let frames: Vec<Frame> = Vec::new();
    assert_eq!(get_smallest_stride_from_animation(&frames, false), 1);
    assert_eq!(get_smallest_stride_of_first_frame(&frames, false), 1);
}

#[test]
fn first_frame_mode_scans_first_frame_only() {
    let frames = vec![frame_four_and_eight(), frame_from_fn(2, 1, |x, _| opaque(x as u8))];
    assert_eq!(get_smallest_stride_of_first_frame(&frames, false), 4);
    assert_eq!(get_smallest_stride_from_animation(&frames, false), 1);
}

#[test]
fn detection_is_deterministic() {
    let f = bordered(3);
    let g = bordered(3);
    for b in [false, true] {
        let first = get_smallest_stride(&f, b);
        assert_eq!(first, get_smallest_stride(&f, b));
        assert_eq!(first, get_smallest_stride(&g, b));
    }
}

#[test]
fn frame_rejects_wrong_pixel_count() {
    assert!(Frame::new(2, 2, vec![opaque(1); 3]).is_none());
    let f = Frame::new(2, 1, vec![opaque(1), opaque(2)]).unwrap();
    assert_eq!(f.width(), 2);
    assert_eq!(f.height(), 1);
    assert_eq!(f.pixel(1, 0), opaque(2));
    assert_eq!(f.rgba_at(1, 0), [2, 253, 1, 255]);
}

#[test]
fn downscale_restores_original_pixels() {
    let big = upscaled(3, 2, 2);
    let small = big.downscale(2);
    assert_eq!(small.width(), 3);
    assert_eq!(small.height(), 2);
    for y in 0..2 {
        for x in 0..3 {
            assert_eq!(small.pixel(x, y), opaque(((y * 3 + x) as u8) * 7 + 1));
        }
    }
}

#[test]
fn downscale_rounds_sizes_down() {
    let f = frame_from_fn(7, 5, |_, _| opaque(5));
    let small = f.downscale(3);
    assert_eq!(small.width(), 2);
    assert_eq!(small.height(), 1);
    assert_eq!(small.pixel(1, 0), opaque(5));
}
