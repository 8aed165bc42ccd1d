use bumper_robot::background::{fetch_background, BackgroundSource};
use bumper_robot::capture::{active_pixel_to_screen, copy_rectangle_bgr_to_rgb};
use bumper_robot::capture_windows::{mouse_move, mouse_press, mouse_release, MouseAction};
use bumper_robot::img::{Rectangle, IMAGE_DOWNSCALE_FACTOR};

#[test]
fn rectangle_is_cut_out_and_its_channels_reversed() {
    // a screen of 4 by 3 pixels, four bytes each: blue, green, red, unused
    let stride = 4;
    let mut data = Vec::new();
    for y in 0..3u8 {
        for x in 0..4u8 {
            data.extend_from_slice(&[10 * y + x, 100 + 10 * y + x, 200 + 10 * y + x, 255]);
        }
    }
    let rectangle = Rectangle { left: 1usize, top: 1, width: 2, height: 2 };
    let out = copy_rectangle_bgr_to_rgb(&data, stride, &rectangle);
    assert_eq!(out, vec![211, 111, 11, 212, 112, 12, 221, 121, 21, 222, 122, 22]);
}

#[test]
fn the_last_pixel_needs_three_of_its_four_bytes() {
    let data = vec![1, 2, 3, 0, 4, 5, 6];
    let rectangle = Rectangle { left: 0usize, top: 0, width: 2, height: 1 };
    assert_eq!(copy_rectangle_bgr_to_rgb(&data, 2, &rectangle), vec![3, 2, 1, 6, 5, 4]);
}

#[test]
fn an_empty_rectangle_is_an_empty_image() {
    let none = Rectangle { left: 7usize, top: 9, width: 0, height: 5 };
    assert!(copy_rectangle_bgr_to_rgb(&[], 4, &none).is_empty());
    let flat = Rectangle { left: 7usize, top: 9, width: 5, height: 0 };
    assert!(copy_rectangle_bgr_to_rgb(&[], 4, &flat).is_empty());
}

#[test]
fn reduced_pixels_map_back_to_the_screen() {
    assert_eq!(IMAGE_DOWNSCALE_FACTOR, 8);
    let rectangle = Rectangle { left: 3usize, top: 4, width: 5, height: 6 };
    let active_area = Rectangle { left: 100usize, top: 50, width: 640, height: 480 };
    let r = active_pixel_to_screen(&rectangle, &active_area);
    assert_eq!((r.left, r.top, r.width, r.height), (124, 82, 40, 48));
}

#[test]
fn a_cached_background_is_used_as_it_is() {
    let found = fetch_background(BackgroundSource::Cached(vec![1, 2, 3, 4, 5, 6])).unwrap();
    assert_eq!(found.image, vec![3, 2, 1, 6, 5, 4]);
    assert!(!found.fresh);
}

#[test]
fn samples_yield_their_mode_as_a_fresh_background() {
    let samples = vec![vec![1u8, 2, 3, 9, 9, 9], vec![1, 2, 3, 7, 8, 9], vec![0, 2, 4, 7, 8, 9]];
    let found = fetch_background(BackgroundSource::Samples(samples)).unwrap();
    assert_eq!(found.image, vec![3, 2, 1, 9, 8, 7]);
    assert!(found.fresh);
}

#[test]
fn no_background_without_cache_and_samples() {
    assert!(fetch_background(BackgroundSource::Samples(Vec::new())).is_none());
}

#[test]
fn pointer_positions_are_scaled_to_the_absolute_range() {
    assert_eq!(mouse_move(1920, 1080).absolute(), (32767, 32767));
    assert_eq!(mouse_move(0, 0).absolute(), (0, 0));
    assert_eq!(mouse_move(3840, 2160).absolute(), (65535, 65535));
    assert_eq!(mouse_move(1, 1).absolute(), (17, 30));
    assert_eq!(mouse_move(316, 98).absolute(), (5392, 2973));
}

#[test]
fn button_actions_carry_no_position() {
    assert_eq!(mouse_press(), MouseAction::Press);
    assert_eq!(mouse_release(), MouseAction::Release);
    assert_eq!(mouse_move(3, 4), MouseAction::Move { x: 3, y: 4 });
    assert_eq!(mouse_press().absolute(), (0, 0));
    assert_eq!(mouse_release().absolute(), (0, 0));
}
