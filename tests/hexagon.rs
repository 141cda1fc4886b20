use hexagen::geometry::{image_height, image_width, pixel_is_cut};
use hexagen::hexagon::{hexagon, GeometryError};
use hexagen::raster::{rotate_to_flat, Raster};

// Radius 10 with denominator 1: q = 4 * 100 - 2 * 10 = 380, coordinates doubled.
const Q: i128 = 380;
const N: i128 = 10;

#[test]
fn corner_pixel_is_cut() {
    assert!(pixel_is_cut(Q, N, 0, 0));
    assert!(pixel_is_cut(Q, N, 2 * 18, 0));
    assert!(pixel_is_cut(Q, N, 0, 2 * 19));
    assert!(pixel_is_cut(Q, N, 2 * 18, 2 * 19));
}

#[test]
fn centre_pixel_is_filled() {
    assert!(!pixel_is_cut(Q, N, 2 * 9, 2 * 10));
    assert!(!pixel_is_cut(Q, N, 2 * 9, 2 * 1));
    assert!(!pixel_is_cut(Q, N, 2 * 9, 2 * 19));
}

#[test]
fn rotation_swaps_dimensions_and_moves_pixels() {
    let r = Raster { width: 1, height: 2, pixels: vec![1, 2, 3, 4, 5, 6, 7, 8] };
    let out = rotate_to_flat(r);
    assert_eq!(out.width, 2);
    assert_eq!(out.height, 1);
    assert_eq!(out.pixels, vec![5, 6, 7, 8, 1, 2, 3, 4]);
}

#[test]
fn radius_ten_dimensions() {
    assert_eq!(image_height(10, 1), 20);
    assert_eq!(image_width(380, 1), 19);
}

#[test]
fn fractional_radius_dimensions() {
    // Radius 5/2: q = 4 * 25 - 2 * 5 * 2 = 80.
    assert_eq!(image_height(5, 2), 5);
    assert_eq!(image_width(80, 2), 4);
}

#[test]
fn pointy_raster_radius_ten() {
    let r = hexagon(10, 1, false, (10, 20, 30)).unwrap();
    assert_eq!((r.width, r.height), (19, 20));
    assert_eq!(r.pixels.len(), 4 * 19 * 20);
    let px = |x: usize, y: usize| r.pixels[(y * 19 + x) * 4..(y * 19 + x) * 4 + 4].to_vec();
    assert_eq!(px(0, 0), vec![10, 20, 30, 0]);
    assert_eq!(px(18, 19), vec![10, 20, 30, 0]);
    assert_eq!(px(9, 10), vec![10, 20, 30, 255]);
    assert_eq!(px(0, 10), vec![10, 20, 30, 255]);
}

#[test]
fn flat_raster_swaps_and_turns() {
    let p = hexagon(10, 1, false, (255, 255, 255)).unwrap();
    let f = hexagon(10, 1, true, (255, 255, 255)).unwrap();
    assert_eq!((f.width, f.height), (p.height, p.width));
    for y in 0..p.height as usize {
        for x in 0..p.width as usize {
            let fx = p.height as usize - 1 - y;
            let fy = x;
            assert_eq!(
                f.pixels[(fy * f.width as usize + fx) * 4 + 3],
                p.pixels[(y * p.width as usize + x) * 4 + 3]
            );
        }
    }
}

#[test]
fn degenerate_radii_are_rejected() {
    assert_eq!(hexagon(0, 1, false, (255, 255, 255)).unwrap_err(), GeometryError::Degenerate);
    assert_eq!(hexagon(1, 2, false, (255, 255, 255)).unwrap_err(), GeometryError::Degenerate);
    assert!(hexagon(1, 1, false, (255, 255, 255)).is_ok());
}

#[test]
fn oversized_radius_is_rejected() {
    assert_eq!(hexagon(16384, 1, false, (255, 255, 255)).unwrap_err(), GeometryError::TooLarge);
}
