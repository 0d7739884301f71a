use launchr::blur::{blurred, box_blur, downscale, scale_factor, transpose, Divisor, Image};
use launchr::capture::{Frame, Mapping, Pixels};

fn solid(width: u32, height: u32, color: [u8; 3]) -> Image {
    Image { width, height, rgb: color.repeat((width * height) as usize) }
}

fn xrgb_frame(width: u32, height: u32, pixel: impl Fn(u32, u32) -> u8) -> Frame<'static> {
    let mut data = Vec::new();
    for y in 0..height {
        for x in 0..width {
            let value = pixel(x, y);
            data.extend_from_slice(&[value, value, value, 255]);
        }
    }
    Frame {
        connector: None,
        width,
        height,
        stride: width * 4,
        channels: (2, 1, 0),
        data: data.into(),
    }
}

#[test]
fn division_by_reciprocal_is_exact() {
    for divisor in [1, 3, 4, 9, 11, 65, 401] {
        let by = Divisor::new(divisor);
        for n in (0..=255 * divisor + divisor).step_by(7).chain([255 * divisor]) {
            assert_eq!(by.divide(n), n / divisor, "{n} / {divisor}");
        }
    }
}

#[test]
fn blurring_a_flat_image_changes_nothing() {
    let mut image = solid(16, 9, [10, 200, 30]);
    box_blur(&mut image, 3);
    assert!(image.rgb.chunks(3).all(|p| p == [10, 200, 30]));
    assert_eq!((image.width, image.height), (16, 9));
}

#[test]
fn blurring_spreads_a_single_bright_pixel() {
    let mut image = solid(9, 9, [0, 0, 0]);
    let centre = ((4 * 9 + 4) * 3) as usize;
    image.rgb[centre..centre + 3].copy_from_slice(&[255, 255, 255]);
    box_blur(&mut image, 1);

    let at = |x: usize, y: usize| image.rgb[(y * 9 + x) * 3];
    assert!(at(4, 4) < 255, "centre should have been averaged down");
    assert!(at(3, 4) > 0, "neighbour should have picked up light");
    assert_eq!(at(0, 0), 0, "a corner outside the radius stays dark");
}

#[test]
fn blurring_does_not_darken() {
    // Columns alternating 100 and 101: every window sum lands between two
    // levels, so truncating each pass would flatten the whole image to 100
    // and lose half a level of brightness. Rounding keeps the mean.
    let mut image = Image {
        width: 32,
        height: 8,
        rgb: (0..32 * 8).flat_map(|i| [100 + (i % 2) as u8; 3]).collect(),
    };
    let mean = |image: &Image| {
        image.rgb.iter().map(|&c| c as f64).sum::<f64>() / image.rgb.len() as f64
    };
    let before = mean(&image);
    box_blur(&mut image, 1);
    assert!((mean(&image) - before).abs() < 0.1, "{before} -> {}", mean(&image));
}

#[test]
fn transpose_round_trips() {
    let mut image = Image { width: 2, height: 3, rgb: (0..18).collect() };
    let mut scratch = vec![0; 18];
    let original = image.rgb.clone();
    transpose(&mut image, &mut scratch);
    assert_eq!((image.width, image.height), (3, 2));
    transpose(&mut image, &mut scratch);
    assert_eq!((image.width, image.height), (2, 3));
    assert_eq!(image.rgb, original);
}

#[test]
fn downscale_averages_blocks() {
    // 4x4 XRGB frame: left half black, right half white.
    let frame = xrgb_frame(4, 4, |x, _| if x < 2 { 0 } else { 255 });
    let image = downscale(&frame, 2).unwrap();
    assert_eq!((image.width, image.height), (2, 2));
    assert_eq!(image.rgb[0], 0);
    assert_eq!(image.rgb[3], 255);
}

#[test]
fn downscale_rejects_a_buffer_shorter_than_its_stride_claims() {
    let mut frame = xrgb_frame(4, 4, |_, _| 128);
    frame.stride = 32;
    assert!(downscale(&frame, 2).is_none());
}

#[test]
fn an_image_with_nothing_left_is_rejected() {
    let frame = xrgb_frame(1, 4, |_, _| 128);
    assert!(downscale(&frame, 2).is_none());
    let frame = xrgb_frame(0, 0, |_, _| 128);
    assert!(blurred(&frame, 4).is_none());
}

#[test]
fn the_factor_brings_the_longest_edge_under_the_limit() {
    assert_eq!(scale_factor(0, 0), 1);
    assert_eq!(scale_factor(480, 10), 1);
    assert_eq!(scale_factor(481, 10), 2);
    assert_eq!(scale_factor(1080, 1920), 4);
}

#[test]
fn a_pass_rounds_to_the_nearest_level() {
    // One row of 0, 0, 90: three passes of a window of three pixels.
    let mut image = Image { width: 3, height: 1, rgb: vec![0, 0, 0, 0, 0, 0, 90, 90, 90] };
    box_blur(&mut image, 1);
    // 0 30 60, then 10 30 50, then 17 30 43.
    assert_eq!(image.rgb, [17, 17, 17, 30, 30, 30, 43, 43, 43]);
}

#[test]
fn a_blur_of_nothing_only_scales() {
    let frame = xrgb_frame(2, 1, |x, _| if x == 0 { 10 } else { 20 });
    let image = blurred(&frame, 0).unwrap();
    assert_eq!(image.rgb, [10, 10, 10, 20, 20, 20]);
}

#[test]
fn channels_are_picked_by_their_offsets() {
    let data: Vec<u8> = vec![1, 2, 3, 255];
    let mapping = Mapping::new(&data).unwrap();
    let frame = Frame {
        connector: Some("DP-1".to_owned()),
        width: 1,
        height: 1,
        stride: 4,
        channels: (2, 1, 0),
        data: Pixels::Mapped(mapping),
    };
    assert_eq!(frame.data.bytes(), [1, 2, 3, 255]);
    assert_eq!(blurred(&frame, 0).unwrap().rgb, [3, 2, 1]);
    assert!(Mapping::new(&[]).is_none());
}

#[test]
fn a_radius_smaller_than_the_factor_still_blurs() {
    let frame = xrgb_frame(960, 2, |x, _| if x < 480 { 0 } else { 240 });
    let image = blurred(&frame, 1).unwrap();
    assert_eq!((image.width, image.height), (480, 1));
    // The step between 239 and 240 is spread by three passes of radius one.
    assert_eq!(image.rgb[3 * 236], 0);
    assert!(image.rgb[3 * 239] > 0 && image.rgb[3 * 240] < 240);
}
