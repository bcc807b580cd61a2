use two_strip::color::{transform_pixel, Pixel};

fn px(r: u8, g: u8, b: u8) -> Pixel {
    Pixel { r, g, b }
}

#[test]
fn black_is_a_fixed_point() {
    assert_eq!(transform_pixel(px(0, 0, 0)), px(0, 0, 0));
}

#[test]
fn white_maps_to_near_white() {
    // Every inverse-strip channel is 255, so each recombined channel is
    // 255 - (255 - 255*255/256) = 254.00390625, which truncates to 254.
    assert_eq!(transform_pixel(px(255, 255, 255)), px(254, 254, 254));
}

#[test]
fn mixed_pixel_exact_value() {
    // r = 200, g = 100, b = 50: the red strip difference is
    // 200 - (59*100 + 11*50)/70 = 107.857..., so r2 = 147.142857...;
    // the green and blue differences clamp to 0, so g2 = b2 = 255.
    // Recombination gives r_new = 199.0039..., g_new = b_new = 0; the
    // luminance is 0.30 * r_new = 59.70...; the output permutes the
    // recombined green into the blue channel.
    assert_eq!(transform_pixel(px(200, 100, 50)), px(199, 59, 0));
}

#[test]
fn transform_is_deterministic() {
    let mut r: u16 = 0;
    while r < 256 {
        let p = px(r as u8, (255 - r) as u8, (r / 2) as u8);
        assert_eq!(transform_pixel(p), transform_pixel(p));
        r += 15;
    }
}

#[test]
fn transform_is_total_over_sampled_cube() {
    // The transform is a total function: it returns a pixel for every
    // sampled input without any error, and u8 output channels are in
    // [0, 255] by construction.
    let mut r: u16 = 0;
    while r < 256 {
        let mut g: u16 = 0;
        while g < 256 {
            let mut b: u16 = 0;
            while b < 256 {
                let _ = transform_pixel(px(r as u8, g as u8, b as u8));
                b += 51;
            }
            g += 51;
        }
        r += 51;
    }
}
