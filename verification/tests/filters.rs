use bumper_robot::img::{
    bgr_to_rgb, median3x3, mode, remove_background, shrink, threshold, threshold_blue,
};

#[test]
fn blue_band_is_exclusive_at_both_ends() {
    let img = vec![
        0, 0, 57, //
        0, 0, 58, //
        9, 9, 202, //
        200, 200, 203, //
        1, 2, 100, //
    ];
    assert_eq!(threshold_blue(&img, 57, 203), vec![0, 255, 255, 0, 255]);
}

#[test]
fn blue_band_ignores_an_incomplete_pixel() {
    let img = vec![0, 0, 100, 0, 100];
    assert_eq!(threshold_blue(&img, 57, 203), vec![255]);
    assert_eq!(threshold_blue(&[], 57, 203), Vec::<u8>::new());
}

#[test]
fn an_empty_band_passes_nothing() {
    let img = vec![0, 0, 10, 0, 0, 11, 0, 0, 12];
    assert_eq!(threshold_blue(&img, 10, 11), vec![0, 0, 0]);
    assert_eq!(threshold_blue(&img, 10, 12), vec![0, 255, 0]);
}

#[test]
fn every_channel_has_to_pass_its_own_band() {
    let bands = [(160, 255), (14, 250), (1, 255)];
    let img = vec![
        200, 100, 50, // all three inside
        160, 100, 50, // red on its lower bound
        255, 100, 50, // red on its upper bound
        200, 14, 50, // green on its lower bound
        200, 100, 1, // blue on its lower bound
        161, 15, 2, // all three just inside
        254, 249, 254,
    ];
    assert_eq!(threshold(&img, &bands), vec![255, 0, 0, 0, 0, 255, 255]);
}

#[test]
fn background_is_removed_byte_by_byte() {
    let img = vec![10, 20, 30, 40, 50, 60];
    let back = vec![10, 21, 30, 0, 50, 61];
    assert_eq!(remove_background(&img, &back), vec![0, 20, 0, 40, 0, 60]);
}

#[test]
fn background_removal_stops_at_the_shorter_buffer() {
    assert_eq!(remove_background(&[1, 2, 3, 4], &[1, 0]), vec![0, 2]);
    assert_eq!(remove_background(&[1, 2], &[0, 2, 3, 4]), vec![1, 0]);
}

#[test]
fn channels_are_swapped_in_complete_pixels_only() {
    let mut image = vec![1, 2, 3, 4, 5, 6, 7, 8];
    bgr_to_rgb(&mut image);
    assert_eq!(image, vec![3, 2, 1, 6, 5, 4, 7, 8]);
    bgr_to_rgb(&mut image);
    assert_eq!(image, vec![1, 2, 3, 4, 5, 6, 7, 8]);
}

#[test]
fn median_of_a_window_is_its_fifth_smallest_value() {
    let img = vec![
        9, 1, 8, //
        2, 7, 3, //
        6, 4, 5, //
    ];
    let out = median3x3(&img, 3, 3);
    assert_eq!(out, vec![9, 1, 8, 2, 5, 3, 6, 4, 5]);
}

#[test]
fn median_keeps_a_uniform_image() {
    let img = vec![77u8; 6 * 5];
    assert_eq!(median3x3(&img, 6, 5), img);
}

#[test]
fn median_leaves_the_border_as_it_was() {
    let width = 7;
    let height = 6;
    let img: Vec<u8> = (0..width * height).map(|i| ((i * 37) % 251) as u8).collect();
    let out = median3x3(&img, width, height);
    assert_eq!(out.len(), img.len());
    for y in 0..height {
        for x in 0..width {
            if x == 0 || y == 0 || x == width - 1 || y == height - 1 {
                assert_eq!(out[y * width + x], img[y * width + x]);
            } else {
                let mut window = Vec::new();
                for dy in 0..3 {
                    for dx in 0..3 {
                        window.push(img[(y + dy - 1) * width + x + dx - 1]);
                    }
                }
                window.sort();
                assert_eq!(out[y * width + x], window[4]);
            }
        }
    }
}

#[test]
fn median_removes_a_speck_and_rounds_a_corner() {
    let mut img = vec![0u8; 8 * 8];
    img[1 * 8 + 6] = 255;
    for y in 3..7 {
        for x in 2..6 {
            img[y * 8 + x] = 255;
        }
    }
    let out = median3x3(&img, 8, 8);
    assert_eq!(out[1 * 8 + 6], 0);
    assert_eq!(out[3 * 8 + 2], 0);
    assert_eq!(out[3 * 8 + 3], 255);
    assert_eq!(out[4 * 8 + 2], 255);
    assert_eq!(out.iter().filter(|&&v| v == 255).count(), 12);
}

#[test]
fn median_of_an_image_without_interior_is_the_image() {
    for (width, height) in [(0usize, 0usize), (1, 5), (5, 1), (2, 2), (2, 7), (0, 4)] {
        let img: Vec<u8> = (0..width * height).map(|i| i as u8).collect();
        assert_eq!(median3x3(&img, width, height), img);
    }
}

#[test]
fn mode_of_identical_samples_is_the_sample() {
    let sample = vec![5u8, 0, 255, 17, 17, 3];
    let images = vec![sample.clone(), sample.clone(), sample.clone(), sample.clone()];
    assert_eq!(mode(&images), Some(sample.clone()));
    assert_eq!(mode(&[sample.clone()]), Some(sample));
}

#[test]
fn mode_takes_the_majority_where_samples_differ() {
    let images = vec![
        vec![1u8, 2, 3],
        vec![1, 9, 3],
        vec![1, 2, 3],
        vec![1, 2, 3],
        vec![1, 9, 3],
    ];
    assert_eq!(mode(&images), Some(vec![1, 2, 3]));
}

#[test]
fn mode_breaks_a_tie_by_the_value_seen_first() {
    let images = vec![vec![4u8, 7, 1], vec![9, 8, 2], vec![9, 7, 3], vec![4, 8, 3]];
    assert_eq!(mode(&images), Some(vec![4, 7, 3]));
}

#[test]
fn mode_of_no_samples_is_none() {
    let none: Vec<Vec<u8>> = Vec::new();
    assert_eq!(mode(&none), None);
}

#[test]
fn mode_of_empty_images_is_an_empty_image() {
    assert_eq!(mode(&[vec![], vec![]]), Some(vec![]));
}

#[test]
fn mode_table_is_clean_for_every_position() {
    // the same values turn up at every position with other counts
    let images = vec![vec![1u8, 2, 2], vec![1, 1, 2], vec![2, 1, 1], vec![2, 2, 1], vec![1, 2, 1]];
    assert_eq!(mode(&images), Some(vec![1, 2, 1]));
}

#[test]
fn shrink_averages_blocks() {
    let width = 16;
    let height = 8;
    let mut img = Vec::with_capacity(3 * width * height);
    for _y in 0..height {
        for x in 0..width {
            if x < 8 {
                img.extend_from_slice(&[10, 20, 30]);
            } else {
                img.extend_from_slice(&[200, 100, 0]);
            }
        }
    }
    let (w, h, small) = shrink(img, width, height, 8);
    assert_eq!((w, h), (2, 1));
    assert_eq!(small, vec![10, 20, 30, 200, 100, 0]);
}

#[test]
fn shrink_rounds_the_new_size_down() {
    let img = vec![50u8; 3 * 20 * 17];
    let (w, h, small) = shrink(img, 20, 17, 8);
    assert_eq!((w, h), (2, 2));
    assert_eq!(small, vec![50u8; 12]);
}

#[test]
fn shrink_by_one_keeps_the_image() {
    let img: Vec<u8> = (0..3 * 4 * 3).map(|i| (i * 7) as u8).collect();
    let (w, h, small) = shrink(img.clone(), 4, 3, 1);
    assert_eq!((w, h), (4, 3));
    assert_eq!(small, img);
}

#[test]
fn shrink_to_nothing() {
    let img = vec![1u8; 3 * 4 * 4];
    let (w, h, small) = shrink(img, 4, 4, 8);
    assert_eq!((w, h), (0, 0));
    assert!(small.is_empty());
}
