use sketchbook::pixels::{
    axis_color, column_color, draw, fade_channel, filename_from_args,
    from_rgb, Image, RgbExt,
};

#[test]
fn rgb_packing() {
    assert_eq!(from_rgb(0x12, 0x34, 0x56), 0x12345600);
    let c = from_rgb(200, 100, 50);
    assert_eq!((c.r(), c.g(), c.b()), (200, 100, 50));
    let d: u32 = 0xa1b2c3d4;
    assert_eq!(from_rgb(d.r(), d.g(), d.b()), 0xa1b2c300);
    assert_eq!(axis_color(), 0x80808000);
}

#[test]
fn fade_matches_float_scaling() {
    for v in 0..=255u8 {
        assert_eq!(fade_channel(v), (v as f64 * 0.95) as u8);
    }
}

#[test]
fn image_fade_scales_each_channel() {
    let mut img = Image { buffer: vec![from_rgb(255, 20, 1), 0], width: 2, height: 1 };
    img.fade();
    assert_eq!(img.buffer, vec![from_rgb(242, 19, 0), 0]);
}

#[test]
fn column_colors() {
    assert_eq!(column_color(0), from_rgb(0, 255, 50));
    assert_eq!(column_color(1), from_rgb(30, 235, 60));
    assert_eq!(column_color(9), from_rgb((270 % 256) as u8, 75, 140));
    assert_eq!(column_color(12), from_rgb((360 % 256) as u8, 15, 170));
}

#[test]
fn draw_writes_big_endian_pixels() {
    let img = Image { buffer: vec![0x01020304, 0xa0b0c0d0, 0xffffffff], width: 3, height: 1 };
    let mut screen = vec![0u8; 10];
    draw(&img, &mut screen);
    assert_eq!(screen, vec![1, 2, 3, 4, 0xa0, 0xb0, 0xc0, 0xd0, 0, 0]);
}

#[test]
fn render_keeps_top_five_bits() {
    let img = Image { buffer: vec![0xffffffff, 0x0f0f0f0f], width: 2, height: 1 };
    let mut screen = vec![7u8; 8];
    img.render(&mut screen, 0);
    assert_eq!(screen, vec![0xf8, 0xf8, 0xf8, 0xf8, 0x08, 0x08, 0x08, 0x08]);
}

#[test]
fn background_gradient() {
    let mut img = Image::new(2, 600);
    img.draw_background();
    assert_eq!(img.buffer[0], 0);
    assert_eq!(img.buffer[1], 0);
    assert_eq!(img.buffer[2 * 4], from_rgb(4, 2, 1));
    assert_eq!(img.buffer[2 * 300], from_rgb((300 % 255) as u8, 150, 75));
}

#[test]
fn put_pixel_inside_and_outside() {
    let mut img = Image::new(3, 2);
    img.put_pixel(2, 1, 9);
    assert_eq!(img.buffer[5], 9);
    img.put_pixel(3, 0, 8);
    img.put_pixel(0, 2, 8);
    assert_eq!(img.buffer.iter().filter(|&&c| c == 8).count(), 0);
}


#[test]
fn filename_choice() {
    assert_eq!(filename_from_args(&vec!["prog".to_string()]), "data.csv");
    assert_eq!(filename_from_args(&vec!["prog".to_string(), "x.csv".to_string(), "y".to_string()]), "x.csv");
    assert_eq!(filename_from_args(&vec![]), "data.csv");
}
