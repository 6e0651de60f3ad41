use rayfb::framebuffer::Display;

fn pixel_bytes(d: &Display, x: usize, y: usize) -> [u8; 4] {
    let w = d.width_px as usize;
    let o = x * 4 + y * w * 4;
    [
        d.framebuffer[o],
        d.framebuffer[o + 1],
        d.framebuffer[o + 2],
        d.framebuffer[o + 3],
    ]
}

fn pixel_value(d: &Display, x: usize, y: usize) -> u32 {
    let b = pixel_bytes(d, x, y);
    ((b[0] as u32) << 24) | ((b[1] as u32) << 16) | ((b[2] as u32) << 8) | (b[3] as u32)
}

#[test]
fn new_display_is_zeroed() {
    let d = Display::new(8, 4, 32);
    assert_eq!(d.width_px, 8);
    assert_eq!(d.height_px, 4);
    assert_eq!(d.bit_depth, 32);
    assert_eq!(d.framebuffer.len(), 8 * 4 * 4);
    assert!(d.framebuffer.iter().all(|&b| b == 0));
}

#[test]
fn fromrgb_packs_lanes() {
    let d = Display::new(1, 1, 32);
    assert_eq!(d.fromrgb(1, 2, 3), (1u32 << 8) | (2u32 << 16) | (3u32 << 24));
    assert_eq!(d.fromrgb(0, 0, 0), 0);
    assert_eq!(d.fromrgb(0xFF, 0xFF, 0xFF), 0xFFFF_FF00);
}

#[test]
fn setpx_stores_big_endian_bytes() {
    let mut d = Display::new(4, 3, 32);
    d.setpx(2, 1, 0xAABBCCDD);
    assert_eq!(pixel_bytes(&d, 2, 1), [0xAA, 0xBB, 0xCC, 0xDD]);
    assert_eq!(pixel_value(&d, 2, 1), 0xAABBCCDD);
    // every other pixel is untouched
    for x in 0..4 {
        for y in 0..3 {
            if (x, y) != (2, 1) {
                assert_eq!(pixel_value(&d, x, y), 0);
            }
        }
    }
}

#[test]
fn setpx_overwrites() {
    let mut d = Display::new(2, 2, 32);
    d.setpx(0, 0, 0x11223344);
    d.setpx(0, 0, 0x55667788);
    assert_eq!(pixel_value(&d, 0, 0), 0x55667788);
}

#[test]
fn zero_clears_everything() {
    let mut d = Display::new(3, 3, 32);
    d.setpx(1, 2, 0xDEADBEEF);
    d.setpx(0, 0, 0x01020304);
    d.zero();
    assert!(d.framebuffer.iter().all(|&b| b == 0));
    assert_eq!(d.width_px, 3);
    assert_eq!(d.height_px, 3);
}

#[test]
fn draw_fade_matches_formula() {
    let mut d = Display::new(8, 4, 32);
    rayfb::framebuffer::draw_fade(&mut d);
    for i in 0..8usize {
        for j in 0..4usize {
            let r = (i * 255 / 8) as u8;
            let g = (j * 255 / 8) as u8;
            let b = 255 - (r / 2 + g / 2);
            let expected = ((r as u32) << 8) | ((g as u32) << 16) | ((b as u32) << 24);
            assert_eq!(pixel_value(&d, i, j), expected);
        }
    }
}

#[test]
fn draw_fade_green_saturates_on_tall_surfaces() {
    // height exceeds width: the green ramp divides by the width and caps
    let mut d = Display::new(2, 6, 32);
    rayfb::framebuffer::draw_fade(&mut d);
    // at j = 5: 5 * 255 / 2 = 637 -> saturates to 255
    let g = (pixel_value(&d, 0, 5) >> 16) & 0xFF;
    assert_eq!(g, 255);
}
