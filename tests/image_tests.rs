use img_hash_linker::ahash::{compute_image_hash, fingerprint_from_samples, HashError};
use img_hash_linker::compute_hash;
use img_hash_linker::grid::{PixelGrid, Rgba};
use img_hash_linker::trim::remove_white_borders;

const WHITE: Rgba = Rgba { r: 255, g: 255, b: 255, a: 255 };
const BLACK: Rgba = Rgba { r: 0, g: 0, b: 0, a: 255 };

fn uniform(w: u32, h: u32, p: Rgba) -> PixelGrid {
    PixelGrid::from_pixels(w, h, vec![p; (w * h) as usize]).unwrap()
}

fn with_block(w: u32, h: u32, x0: u32, y0: u32, x1: u32, y1: u32) -> PixelGrid {
    let mut px = Vec::new();
    for y in 0..h {
        for x in 0..w {
            if x0 <= x && x <= x1 && y0 <= y && y <= y1 {
                px.push(BLACK);
            } else {
                px.push(WHITE);
            }
        }
    }
    PixelGrid::from_pixels(w, h, px).unwrap()
}

#[test]
fn from_pixels_checks_count() {
    assert!(PixelGrid::from_pixels(2, 2, vec![WHITE; 3]).is_none());
    assert!(PixelGrid::from_pixels(2, 2, vec![WHITE; 4]).is_some());
}

#[test]
fn uniform_samples_set_every_bit() {
    let s = fingerprint_from_samples(&vec![128u8; 64], 8);
    assert_eq!(s, "ffffffffffffffff");
}

#[test]
fn bit_order_is_row_major_from_low_bit() {
    let mut samples = vec![0u8; 64];
    samples[0] = 200;
    samples[5] = 200;
    // mean = 400 / 64 = 6: only samples 0 and 5 reach it
    assert_eq!(fingerprint_from_samples(&samples, 8), "0000000000000021");
}

#[test]
fn small_grid_pads_to_width() {
    // 5 x 5 = 25 bits: 7 digits
    let mut samples = vec![10u8; 25];
    samples[24] = 0;
    let s = fingerprint_from_samples(&samples, 5);
    assert_eq!(s.len(), 7);
    assert_eq!(s, "0ffffff");
    let t = fingerprint_from_samples(&vec![3u8; 1], 1);
    assert_eq!(t, "1");
}

#[test]
fn uniform_gray_image_hashes_to_all_f() {
    let img = uniform(8, 8, Rgba { r: 128, g: 128, b: 128, a: 255 });
    assert_eq!(compute_hash(img.clone(), false, None).unwrap(), "ffffffffffffffff");
    assert_eq!(compute_hash(img, true, None).unwrap(), "ffffffffffffffff");
}

#[test]
fn hashing_is_deterministic() {
    let img = with_block(32, 24, 5, 3, 20, 17);
    let a = compute_hash(img.clone(), true, Some(8)).unwrap();
    let b = compute_hash(img, true, Some(8)).unwrap();
    assert_eq!(a, b);
    assert_eq!(a.len(), 16);
}

#[test]
fn fingerprint_length_follows_size() {
    let img = with_block(40, 40, 10, 10, 25, 30);
    for n in 1u32..=8 {
        let s = compute_image_hash(&img, Some(n)).unwrap();
        assert_eq!(s.len() as u32, (n * n + 3) / 4);
        assert!(s.chars().all(|c| c.is_ascii_hexdigit() && !c.is_ascii_uppercase()));
    }
}

#[test]
fn invalid_sizes_are_refused() {
    let img = uniform(4, 4, BLACK);
    assert_eq!(compute_hash(img.clone(), false, Some(0)), Err(HashError::InvalidHashSize));
    assert_eq!(compute_hash(img, false, Some(9)), Err(HashError::InvalidHashSize));
}

#[test]
fn trim_crops_to_content_with_margin() {
    let img = with_block(10, 8, 3, 2, 5, 4);
    let t = remove_white_borders(&img);
    assert_eq!((t.width, t.height), (5, 5));
    assert_eq!(t.pixels[0], WHITE);
    assert_eq!(t.pixels[6], BLACK);
}

#[test]
fn trim_clamps_at_edges() {
    let img = with_block(10, 8, 0, 0, 2, 2);
    let t = remove_white_borders(&img);
    assert_eq!((t.width, t.height), (4, 4));
    assert_eq!(t.pixels[0], BLACK);
}

#[test]
fn trim_keeps_blank_and_full_grids() {
    let blank = uniform(6, 4, WHITE);
    let t = remove_white_borders(&blank);
    assert_eq!((t.width, t.height), (6, 4));
    assert_eq!(t.pixels, blank.pixels);
    let full = with_block(6, 4, 0, 0, 5, 3);
    let u = remove_white_borders(&full);
    assert_eq!(u.pixels, full.pixels);
    let corners = {
        let mut g = uniform(5, 5, WHITE);
        g.pixels[0] = BLACK;
        g.pixels[24] = BLACK;
        g
    };
    assert_eq!(remove_white_borders(&corners).pixels, corners.pixels);
}

#[test]
fn trim_ignores_alpha_and_near_white() {
    let mut g = uniform(5, 5, Rgba { r: 240, g: 250, b: 241, a: 0 });
    g.pixels[12] = Rgba { r: 239, g: 255, b: 255, a: 255 };
    let t = remove_white_borders(&g);
    assert_eq!((t.width, t.height), (3, 3));
}

#[test]
fn trim_is_idempotent() {
    let img = with_block(12, 9, 0, 4, 6, 6);
    let once = remove_white_borders(&img);
    let twice = remove_white_borders(&once);
    assert_eq!((once.width, once.height), (twice.width, twice.height));
    assert_eq!(once.pixels, twice.pixels);
}

#[test]
fn luma_weights_decide_the_bits() {
    let red = Rgba { r: 255, g: 0, b: 0, a: 255 };
    let green = Rgba { r: 0, g: 255, b: 0, a: 255 };
    let mut px = Vec::new();
    for _y in 0..8 {
        for x in 0..8 {
            px.push(if x < 4 { red } else { green });
        }
    }
    let img = PixelGrid::from_pixels(8, 8, px).unwrap();
    // luma 54 on the left, 182 on the right: the right half reaches the mean
    assert_eq!(compute_image_hash(&img, None).unwrap(), "f0f0f0f0f0f0f0f0");
}

#[test]
fn every_valid_size_gives_a_fingerprint() {
    let img = with_block(3, 2, 1, 1, 1, 1);
    for n in 1u32..=8 {
        assert!(compute_hash(img.clone(), true, Some(n)).is_ok());
    }
    let empty = PixelGrid::from_pixels(0, 0, Vec::new()).unwrap();
    assert_eq!(compute_hash(empty, true, None).unwrap().len(), 16);
}
