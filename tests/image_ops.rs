use rasterkit::color::{hsv_to_rgb, rgb_to_grayscale, rgb_to_hsv, shift_image, shift_image_channel};
use rasterkit::image::{ColorMode, Image, ImageError, Pixel};
use rasterkit::resize::{bilinear_resize, nn_resize};

fn image_of(width: u16, height: u16, pixels: &[(u8, u8, u8)]) -> Image {
    let mut bytes = Vec::new();
    for &(r, g, b) in pixels {
        bytes.push(r);
        bytes.push(g);
        bytes.push(b);
    }
    Image::from_raw(width, height, bytes).unwrap()
}

fn triple(p: Pixel) -> (u8, u8, u8) {
    (p.r, p.g, p.b)
}

#[test]
fn new_image_is_black_rgb() {
    let img = Image::new(3, 2);
    assert_eq!(img.bytes().len(), 18);
    assert!(img.bytes().iter().all(|&b| b == 0));
    assert_eq!(img.color_mode, ColorMode::RGB);
}

#[test]
fn from_raw_rejects_wrong_length() {
    assert_eq!(Image::from_raw(2, 2, vec![0u8; 11]).unwrap_err(), ImageError::BufferSize);
    assert!(Image::from_raw(2, 2, vec![0u8; 12]).is_ok());
}

#[test]
fn clamp_maps_to_edges() {
    let img = Image::new(4, 3);
    assert_eq!(img.clamp(0, 0), (0, 0));
    assert_eq!(img.clamp(2, 1), (2, 1));
    assert_eq!(img.clamp(100, 7), (3, 2));
    assert_eq!(img.clamp(usize::MAX, usize::MAX), (3, 2));
}

#[test]
fn out_of_range_reads_hit_the_edge() {
    let img = image_of(2, 2, &[(1, 2, 3), (4, 5, 6), (7, 8, 9), (10, 11, 12)]);
    assert_eq!(triple(img.get_pixel(1, 0)), (4, 5, 6));
    assert_eq!(triple(img.get_pixel(9, 0)), (4, 5, 6));
    assert_eq!(triple(img.get_pixel(9, 9)), (10, 11, 12));
    let (cx, cy) = img.clamp(50, 50);
    assert_eq!(triple(img.get_pixel(50, 50)), triple(img.get_pixel(cx, cy)));
}

#[test]
fn channel_index_is_coerced() {
    let img = image_of(2, 1, &[(1, 2, 3), (4, 5, 6)]);
    assert_eq!(img.get_individual_pixel(1, 0, 0), 4);
    assert_eq!(img.get_individual_pixel(1, 0, 5), img.get_individual_pixel(1, 0, 2));
    assert_eq!(img.get_individual_pixel(0, 0, 5), 3);
    assert_eq!(Image::coerce_channel(7), 2);
    assert_eq!(Image::coerce_channel(1), 1);
}

#[test]
fn writes_clamp_and_coerce() {
    let mut img = Image::new(2, 2);
    img.set_individual_pixel(5, 5, 9, 77);
    assert_eq!(img.get_individual_pixel(1, 1, 2), 77);
    img.set_pixel(0, 1, Pixel { r: 1, g: 2, b: 3 });
    assert_eq!(triple(img.get_pixel(0, 1)), (1, 2, 3));
    assert_eq!(img.bytes()[6..9], [1, 2, 3]);
}

#[test]
fn grayscale_weights_and_floor() {
    let mut img = image_of(2, 1, &[(255, 0, 0), (100, 150, 200)]);
    rgb_to_grayscale(&mut img);
    assert_eq!(triple(img.get_pixel(0, 0)), (76, 76, 76));
    assert_eq!(triple(img.get_pixel(1, 0)), (140, 140, 140));
    assert_eq!(img.color_mode, ColorMode::GRAY);
}

#[test]
fn grayscale_twice_equals_once() {
    let mut once = image_of(2, 2, &[(12, 200, 31), (255, 255, 255), (0, 0, 1), (90, 17, 240)]);
    rgb_to_grayscale(&mut once);
    let mut twice = once.clone();
    rgb_to_grayscale(&mut twice);
    assert_eq!(once.bytes(), twice.bytes());
}

#[test]
fn shift_saturates_or_wraps() {
    let mut img = image_of(2, 1, &[(250, 5, 100), (0, 255, 128)]);
    let mut wrapped = img.clone();
    shift_image_channel(&mut img, 0, 10, true);
    assert_eq!(img.bytes(), &vec![255, 5, 100, 10, 255, 128]);
    shift_image_channel(&mut wrapped, 0, 10, false);
    assert_eq!(wrapped.bytes(), &vec![4, 5, 100, 10, 255, 128]);
    let mut down = image_of(1, 1, &[(3, 3, 3)]);
    shift_image_channel(&mut down, 8, -10, true);
    assert_eq!(down.bytes(), &vec![3, 3, 0]);
}

#[test]
fn shift_all_channels() {
    let mut img = image_of(1, 1, &[(250, 5, 100)]);
    shift_image(&mut img, 300, false);
    assert_eq!(img.bytes(), &vec![38, 49, 144]);
}

#[test]
fn wrapping_shift_is_undone_by_its_negation() {
    let original = image_of(2, 2, &[(250, 5, 100), (0, 255, 128), (1, 2, 3), (77, 88, 99)]);
    for &(channel, delta) in &[(0usize, 10i16), (1, -200), (2, 32767), (4, -32767), (1, 256)] {
        let mut img = original.clone();
        shift_image_channel(&mut img, channel, delta, false);
        shift_image_channel(&mut img, channel, -delta, false);
        assert_eq!(img.bytes(), original.bytes());
    }
}

#[test]
fn hsv_of_primaries_and_grays() {
    let mut img = image_of(5, 1, &[(255, 0, 0), (0, 255, 0), (0, 0, 255), (0, 0, 0), (128, 128, 128)]);
    rgb_to_hsv(&mut img);
    assert_eq!(img.color_mode, ColorMode::HSV);
    assert_eq!(triple(img.get_pixel(0, 0)), (0, 255, 255));
    assert_eq!(triple(img.get_pixel(1, 0)), (85, 255, 255));
    assert_eq!(triple(img.get_pixel(2, 0)), (170, 255, 255));
    assert_eq!(triple(img.get_pixel(3, 0)), (0, 0, 0));
    assert_eq!(triple(img.get_pixel(4, 0)), (0, 0, 128));
}

#[test]
fn hsv_of_mixed_colour() {
    // max 200 (red), min 50, chroma 150: hue 255*100/900 = 28, saturation 255*150/200 = 191
    let mut img = image_of(1, 1, &[(200, 150, 50)]);
    rgb_to_hsv(&mut img);
    assert_eq!(triple(img.get_pixel(0, 0)), (28, 191, 200));
    hsv_to_rgb(&mut img);
    assert_eq!(img.color_mode, ColorMode::RGB);
    let (r, g, b) = triple(img.get_pixel(0, 0));
    assert_eq!((r, b), (200, 50));
    assert!(g.abs_diff(150) <= 2);
}

#[test]
fn hsv_round_trip_of_two_by_two() {
    let pixels = [(255, 0, 0), (0, 255, 0), (0, 0, 255), (255, 255, 255)];
    let mut img = image_of(2, 2, &pixels);
    rgb_to_hsv(&mut img);
    hsv_to_rgb(&mut img);
    let mut k = 0;
    for y in 0..2 {
        for x in 0..2 {
            let (r, g, b) = triple(img.get_pixel(x, y));
            let (r0, g0, b0) = pixels[k];
            assert!(r.abs_diff(r0) <= 1 && g.abs_diff(g0) <= 1 && b.abs_diff(b0) <= 1);
            k += 1;
        }
    }
    assert_eq!(img.bytes(), image_of(2, 2, &pixels).bytes());
}

#[test]
fn hsv_round_trip_of_yellow_loses_three() {
    let mut img = image_of(1, 1, &[(255, 255, 0)]);
    rgb_to_hsv(&mut img);
    assert_eq!(triple(img.get_pixel(0, 0)), (42, 255, 255));
    hsv_to_rgb(&mut img);
    assert_eq!(triple(img.get_pixel(0, 0)), (255, 252, 0));
}

#[test]
fn hsv_to_rgb_last_sector() {
    // hue byte 255 gives sector 6, which reads as the last one
    let mut img = image_of(1, 1, &[(255, 255, 255)]);
    img.color_mode = ColorMode::HSV;
    hsv_to_rgb(&mut img);
    assert_eq!(triple(img.get_pixel(0, 0)), (255, 0, 255));
}

#[test]
fn nn_resize_to_same_size_copies() {
    let img = image_of(3, 2, &[(1, 2, 3), (4, 5, 6), (7, 8, 9), (10, 11, 12), (13, 14, 15), (16, 17, 18)]);
    let out = nn_resize(&img, 3, 2).unwrap();
    assert_eq!(out.bytes(), img.bytes());
    assert_eq!((out.width, out.height), (3, 2));
}

#[test]
fn nn_resize_halves() {
    let mut px = Vec::new();
    for i in 0..16u8 {
        px.push((i, i, i));
    }
    let img = image_of(4, 4, &px);
    let out = nn_resize(&img, 2, 2).unwrap();
    assert_eq!(out.bytes(), &vec![5, 5, 5, 7, 7, 7, 13, 13, 13, 15, 15, 15]);
}

#[test]
fn nn_resize_doubles() {
    let img = image_of(2, 1, &[(10, 10, 10), (20, 20, 20)]);
    let out = nn_resize(&img, 4, 1).unwrap();
    assert_eq!(out.bytes(), &vec![10, 10, 10, 10, 10, 10, 20, 20, 20, 20, 20, 20]);
}

#[test]
fn resize_refuses_zero_and_oversized_targets() {
    let img = image_of(1, 1, &[(1, 1, 1)]);
    assert_eq!(nn_resize(&img, 0, 3).unwrap_err(), ImageError::InvalidDimension);
    assert_eq!(bilinear_resize(&img, 3, 0).unwrap_err(), ImageError::InvalidDimension);
    assert_eq!(nn_resize(&img, 70000, 1).unwrap_err(), ImageError::InvalidDimension);
    let empty = Image::new(0, 0);
    assert_eq!(bilinear_resize(&empty, 2, 2).unwrap_err(), ImageError::InvalidDimension);
}

#[test]
fn bilinear_resize_interpolates() {
    let img = image_of(2, 1, &[(0, 0, 0), (200, 100, 255)]);
    let out = bilinear_resize(&img, 4, 1).unwrap();
    let r: Vec<u8> = (0..4).map(|x| out.get_individual_pixel(x, 0, 0)).collect();
    let g: Vec<u8> = (0..4).map(|x| out.get_individual_pixel(x, 0, 1)).collect();
    let b: Vec<u8> = (0..4).map(|x| out.get_individual_pixel(x, 0, 2)).collect();
    assert_eq!(r, vec![0, 50, 150, 200]);
    assert_eq!(g, vec![0, 25, 75, 100]);
    assert_eq!(b, vec![0, 63, 191, 255]);
}

#[test]
fn bilinear_resize_to_same_size_copies() {
    let img = image_of(2, 2, &[(1, 2, 3), (40, 50, 60), (70, 80, 90), (200, 210, 220)]);
    let out = bilinear_resize(&img, 2, 2).unwrap();
    assert_eq!(out.bytes(), img.bytes());
}

#[test]
fn bilinear_values_stay_within_corners() {
    let img = image_of(3, 3, &[
        (0, 255, 9), (30, 10, 200), (90, 90, 90),
        (255, 0, 17), (128, 64, 32), (5, 250, 100),
        (60, 61, 62), (222, 111, 0), (13, 14, 15),
    ]);
    let out = bilinear_resize(&img, 7, 5).unwrap();
    for y in 0..5usize {
        for x in 0..7usize {
            for c in 0..3usize {
                let v = out.get_individual_pixel(x, y, c);
                let lo = (0..3).flat_map(|j| (0..3).map(move |i| (i, j)))
                    .map(|(i, j)| img.get_individual_pixel(i, j, c)).min().unwrap();
                let hi = (0..3).flat_map(|j| (0..3).map(move |i| (i, j)))
                    .map(|(i, j)| img.get_individual_pixel(i, j, c)).max().unwrap();
                assert!(lo <= v && v <= hi);
            }
        }
    }
}
