use commit_clock::icon::{icon_from_bytes, round_icon_corners, IconError};
use commit_clock::pattern::{noise_level, shimmer_level, speckle_glow, Glow};
use commit_clock::speckle::pick_speckles;

#[test]
fn icon_size_is_checked() {
    assert_eq!(icon_from_bytes(vec![1; 16], 16), Ok(vec![1; 16]));
    assert_eq!(
        icon_from_bytes(vec![1; 15], 16),
        Err(IconError::InvalidSize { expected: 16, got: 15 })
    );
}

#[test]
fn corners_become_transparent() {
    let dim = 16u32;
    let mut data = vec![200u8; (dim * dim * 4) as usize];
    round_icon_corners(&mut data, dim, 4);
    let alpha = |x: usize, y: usize| data[(y * 16 + x) * 4 + 3];
    assert_eq!(alpha(0, 0), 0);
    assert_eq!(alpha(15, 0), 0);
    assert_eq!(alpha(0, 15), 0);
    assert_eq!(alpha(15, 15), 0);
    assert_eq!(alpha(8, 8), 200);
    assert_eq!(alpha(4, 0), 200);
    assert_eq!(alpha(1, 1), 0);
    assert_eq!(alpha(2, 2), 200);
    for (i, b) in data.iter().enumerate() {
        if i % 4 != 3 {
            assert_eq!(*b, 200);
        }
    }
    let zeroed = data.iter().filter(|b| **b == 0).count();
    assert_eq!(zeroed % 4, 0);
    assert!(zeroed > 0);
}

#[test]
fn rounding_twice_is_rounding_once() {
    let dim = 32u32;
    let mut once: Vec<u8> = (0..(dim * dim * 4)).map(|i| (i % 251) as u8 + 1).collect();
    round_icon_corners(&mut once, dim, 7);
    let mut twice = once.clone();
    round_icon_corners(&mut twice, dim, 7);
    assert_eq!(once, twice);
}

#[test]
fn rounded_corners_are_mirror_images() {
    for dim in [16u32, 32, 64] {
        let r = (dim * 22 + 50) / 100;
        let mut data = vec![255u8; (dim * dim * 4) as usize];
        round_icon_corners(&mut data, dim, r);
        let d = dim as usize;
        let alpha = |x: usize, y: usize| data[(y * d + x) * 4 + 3];
        for y in 0..d {
            for x in 0..d {
                assert_eq!(alpha(x, y), alpha(d - 1 - x, y));
                assert_eq!(alpha(x, y), alpha(x, d - 1 - y));
            }
        }
    }
}

#[test]
fn bytes_after_the_image_are_kept() {
    let dim = 4u32;
    let mut data = vec![9u8; (dim * dim * 4) as usize + 8];
    round_icon_corners(&mut data, dim, 1);
    assert_eq!(data[(dim * dim * 4) as usize..], [9u8; 8]);
    assert_eq!(data[3], 0);
}

#[test]
fn speckles_for_a_small_board() {
    assert_eq!(
        pick_speckles(5, 10, 4),
        vec![(2, 6), (0, 4), (2, 4), (0, 2), (2, 2), (0, 0), (1, 9), (3, 9), (1, 7)]
    );
    assert_eq!(pick_speckles(0, 1, 1), vec![(0, 0)]);
    assert_eq!(pick_speckles(3, 2, 1), vec![(0, 0)]);
}

#[test]
fn speckles_are_distinct_even_and_on_the_board() {
    for (seed, cols, rows) in [(17, 45, 17), (59, 12, 5), (0, 3, 3), (31, 7, 2)] {
        let picks = pick_speckles(seed, cols, rows);
        assert!(picks.len() <= 9);
        for (i, p) in picks.iter().enumerate() {
            assert_eq!((p.0 + p.1) % 2, 0);
            assert!(0 <= p.0 && p.0 < rows && 0 <= p.1 && p.1 < cols);
            assert!(!picks[..i].contains(p));
        }
    }
    assert_eq!(
        pick_speckles(17, 45, 17),
        vec![(2, 30), (11, 3), (2, 22), (10, 42), (2, 16), (10, 34), (2, 8), (10, 28), (2, 2)]
    );
}

#[test]
fn decoration_hashes() {
    assert_eq!(noise_level(0, 0), Some(0));
    assert_eq!(noise_level(10, 20), None);
    assert_eq!(noise_level(2, 3), None);
    assert_eq!(shimmer_level(12, 7), 217);
    assert_eq!(speckle_glow(0, 3, 4), Glow::Dim(3));
    assert_eq!(speckle_glow(4, 3, 4), Glow::Mid(1));
    assert_eq!(speckle_glow(8, 3, 4), Glow::Bright(1));
}

#[test]
fn nine_speckles_on_boards_of_eighteen_cells() {
    for (cols, rows) in [(18, 1), (1, 18), (2, 9), (9, 2), (3, 6), (6, 3), (40, 12)] {
        for seed in [0, 1, 7, 59, 1439, 10_000] {
            assert_eq!(pick_speckles(seed, cols, rows).len(), 9);
        }
    }
}
