use bumper_robot::img::Rectangle;
use bumper_robot::img_connected_components::Component;
use bumper_robot::robot::{
    centroid, crystals, fireballs, largest, mirror_horizontal, projectiles, qualifies, Robot,
};

fn component(left: usize, top: usize, right: usize, bottom: usize, area: usize) -> Component<usize> {
    Component { left, top, right, bottom, area, id: 2 }
}

fn fields(r: &Rectangle<usize>) -> (usize, usize, usize, usize) {
    (r.left, r.top, r.width, r.height)
}

/// A frame of one colour with blocks of other colours painted on it.
fn frame(width: usize, height: usize, blocks: &[(usize, usize, usize, usize, [u8; 3])]) -> Vec<u8> {
    let mut img = vec![0u8; 3 * width * height];
    for &(left, top, w, h, colour) in blocks {
        for y in top..top + h {
            for x in left..left + w {
                img[3 * (y * width + x)..3 * (y * width + x) + 3].copy_from_slice(&colour);
            }
        }
    }
    img
}

/// Each pixel of the frame blown up to a block of `scale` by `scale`.
fn enlarged(small: &[u8], width: usize, height: usize, scale: usize) -> Vec<u8> {
    let mut img = Vec::with_capacity(small.len() * scale * scale);
    for y in 0..height * scale {
        for x in 0..width * scale {
            let at = 3 * ((y / scale) * width + x / scale);
            img.extend_from_slice(&small[at..at + 3]);
        }
    }
    img
}

const SUBJECT: [u8; 3] = [0, 0, 100];
const FIREBALL: [u8; 3] = [200, 100, 50];
const CRYSTAL: [u8; 3] = [50, 100, 220];

#[test]
fn round_component_of_the_right_size_is_a_projectile() {
    assert!(qualifies(&component(10, 10, 16, 17, 40)));
}

#[test]
fn long_component_is_no_projectile() {
    assert!(!qualifies(&component(10, 10, 13, 30, 40)));
    assert!(!qualifies(&component(10, 10, 30, 13, 40)));
}

#[test]
fn projectile_area_band_is_exclusive() {
    assert!(!qualifies(&component(0, 0, 6, 6, 28)));
    assert!(qualifies(&component(0, 0, 6, 6, 29)));
    assert!(qualifies(&component(0, 0, 6, 6, 61)));
    assert!(!qualifies(&component(0, 0, 6, 6, 62)));
}

#[test]
fn roundness_band_is_exclusive() {
    // width / height == 3 / 4 and 5 / 4 lie on the bounds
    assert!(!qualifies(&component(0, 0, 3, 4, 40)));
    assert!(!qualifies(&component(0, 0, 5, 4, 40)));
    assert!(qualifies(&component(0, 0, 4, 5, 40)));
    assert!(qualifies(&component(0, 0, 6, 5, 40)));
    assert!(qualifies(&component(0, 0, 4, 4, 40)));
}

#[test]
fn component_without_height_is_no_projectile() {
    assert!(!qualifies(&component(0, 3, 6, 3, 40)));
    assert!(!qualifies(&component(3, 3, 3, 3, 40)));
    assert!(!qualifies(&component(3, 0, 3, 6, 40)));
}

#[test]
fn largest_is_the_first_of_the_largest() {
    let components = vec![
        component(0, 0, 1, 1, 3),
        component(0, 0, 1, 1, 9),
        component(5, 5, 6, 6, 4),
        component(7, 7, 8, 8, 9),
    ];
    assert_eq!(largest(&components), Some(1));
    assert_eq!(largest(&components[..1].to_vec()), Some(0));
    assert_eq!(largest(&Vec::new()), None);
}

#[test]
fn centroid_rounds_down() {
    let r = Rectangle { left: 10usize, top: 20, width: 5, height: 8 };
    assert_eq!(centroid(&r), (12, 24));
    let empty = Rectangle { left: 3usize, top: 4, width: 0, height: 0 };
    assert_eq!(centroid(&empty), (3, 4));
}

#[test]
fn mirror_reflects_about_the_centre_line() {
    let r = Rectangle { left: 3usize, top: 4, width: 4, height: 6 };
    let m = mirror_horizontal(&r, 32);
    assert_eq!(fields(&m), (25, 4, 4, 6));
    assert_eq!(fields(&mirror_horizontal(&m, 32)), fields(&r));
    let whole = Rectangle { left: 0usize, top: 0, width: 32, height: 1 };
    assert_eq!(fields(&mirror_horizontal(&whole, 32)), (0, 0, 32, 1));
}

#[test]
fn projectiles_of_a_class_are_found() {
    let img = frame(32, 24, &[(4, 5, 7, 7, FIREBALL), (20, 10, 7, 7, CRYSTAL), (14, 1, 2, 2, FIREBALL)]);
    let fire = fireballs(&img, 32, 24);
    assert_eq!(fire.len(), 1);
    // the median filter takes the block's corners; its extent stays
    assert_eq!(fields(&fire[0]), (4, 5, 6, 6));
    let crystal = crystals(&img, 32, 24);
    assert_eq!(crystal.len(), 1);
    assert_eq!(fields(&crystal[0]), (20, 10, 6, 6));
    let neither = projectiles(&img, 32, 24, &[(0, 1), (0, 1), (0, 1)]);
    assert!(neither.is_empty());
}

#[test]
fn projectiles_too_large_or_too_long_are_left_out() {
    let img = frame(40, 30, &[(2, 2, 9, 9, FIREBALL), (20, 2, 4, 12, FIREBALL), (30, 20, 6, 7, FIREBALL)]);
    let fire = fireballs(&img, 40, 30);
    assert_eq!(fire.len(), 1);
    assert_eq!(fields(&fire[0]), (30, 20, 5, 6));
}

#[test]
fn no_robot_without_a_background() {
    assert!(Robot::new(None).is_none());
    assert!(Robot::new(Some(vec![0u8; 12])).is_some());
}

#[test]
fn a_frame_yields_target_subject_and_projectiles() {
    let (width, height) = (32, 24);
    let small = frame(width, height, &[(3, 4, 5, 5, SUBJECT), (12, 12, 7, 7, FIREBALL), (22, 3, 7, 7, CRYSTAL)]);
    let mut robot = Robot::new(Some(vec![0u8; 3 * width * height])).unwrap();
    let active_area = Rectangle { left: 100usize, top: 50, width: 8 * width, height: 8 * height };
    let found = robot.detect(&small, width, height, &active_area);
    let boxes: Vec<_> = found.rectangles.iter().map(fields).collect();
    assert_eq!(boxes, vec![(25, 4, 4, 4), (3, 4, 4, 4), (12, 12, 6, 6), (22, 3, 6, 6)]);
    assert_eq!(found.pointer, (100 + 25 * 8 + 16, 50 + 4 * 8 + 16));
}

#[test]
fn the_subject_is_the_largest_blue_component() {
    let (width, height) = (32, 24);
    let small = frame(width, height, &[(2, 2, 4, 4, SUBJECT), (10, 8, 8, 9, SUBJECT), (25, 15, 5, 5, SUBJECT)]);
    let mut robot = Robot::new(Some(vec![0u8; 3 * width * height])).unwrap();
    let active_area = Rectangle { left: 0usize, top: 0, width: 8 * width, height: 8 * height };
    let found = robot.detect(&small, width, height, &active_area);
    assert_eq!(found.rectangles.len(), 2);
    assert_eq!(fields(&found.rectangles[1]), (10, 8, 7, 8));
    assert_eq!(fields(&found.rectangles[0]), (32 - 10 - 7, 8, 7, 8));
}

#[test]
fn the_subject_stays_where_it_was_when_a_frame_shows_none() {
    let (width, height) = (32, 24);
    let mut robot = Robot::new(Some(vec![0u8; 3 * width * height])).unwrap();
    let active_area = Rectangle { left: 0usize, top: 0, width: 8 * width, height: 8 * height };

    let empty = frame(width, height, &[]);
    let found = robot.detect(&empty, width, height, &active_area);
    let boxes: Vec<_> = found.rectangles.iter().map(fields).collect();
    assert_eq!(boxes, vec![(32, 0, 0, 0), (0, 0, 0, 0)]);
    assert_eq!(found.pointer, (256, 0));

    let shown = frame(width, height, &[(3, 4, 5, 5, SUBJECT)]);
    robot.detect(&shown, width, height, &active_area);
    let found = robot.detect(&empty, width, height, &active_area);
    let boxes: Vec<_> = found.rectangles.iter().map(fields).collect();
    assert_eq!(boxes, vec![(25, 4, 4, 4), (3, 4, 4, 4)]);
}

#[test]
fn what_equals_the_background_is_not_seen() {
    let (width, height) = (32, 24);
    let scene = frame(width, height, &[(3, 4, 5, 5, SUBJECT), (12, 12, 7, 7, FIREBALL)]);
    let mut robot = Robot::new(Some(scene.clone())).unwrap();
    let active_area = Rectangle { left: 0usize, top: 0, width: 8 * width, height: 8 * height };
    let found = robot.detect(&scene, width, height, &active_area);
    let boxes: Vec<_> = found.rectangles.iter().map(fields).collect();
    assert_eq!(boxes, vec![(32, 0, 0, 0), (0, 0, 0, 0)]);
}

#[test]
fn a_captured_frame_is_reduced_before_it_is_searched() {
    let (width, height) = (32, 24);
    let small = frame(width, height, &[(3, 4, 5, 5, SUBJECT), (12, 12, 7, 7, FIREBALL), (22, 3, 7, 7, CRYSTAL)]);
    let large = enlarged(&small, width, height, 8);
    let mut robot = Robot::new(Some(vec![0u8; 3 * width * height])).unwrap();
    let active_area = Rectangle { left: 100usize, top: 50, width: 8 * width, height: 8 * height };
    let found = robot.process_frame(large, &active_area);
    let boxes: Vec<_> = found.rectangles.iter().map(fields).collect();
    assert_eq!(boxes, vec![(25, 4, 4, 4), (3, 4, 4, 4), (12, 12, 6, 6), (22, 3, 6, 6)]);
    assert_eq!(found.pointer, (316, 98));
}

#[test]
fn readiness_for_a_frame() {
    let (width, height) = (32, 24);
    let robot = Robot::new(Some(vec![0u8; 3 * width * height])).unwrap();
    let area = |left: usize, top: usize, w: usize, h: usize| Rectangle { left, top, width: w, height: h };

    assert!(robot.ready_for(3 * 256 * 192, &area(100, 50, 256, 192)));
    // sizes that are no multiple of the reduction factor are rounded down
    assert!(robot.ready_for(3 * 263 * 199, &area(0, 0, 263, 199)));
    // the frame does not hold the area
    assert!(!robot.ready_for(3 * 256 * 192 - 1, &area(100, 50, 256, 192)));
    assert!(!robot.ready_for(3 * 256 * 192 + 1, &area(100, 50, 256, 192)));
    // nothing is left of the area once it is reduced
    assert!(!robot.ready_for(3 * 7 * 192, &area(0, 0, 7, 192)));
    assert!(!robot.ready_for(3 * 256 * 7, &area(0, 0, 256, 7)));
    // the background does not cover the reduced frame
    assert!(!robot.ready_for(3 * 264 * 192, &area(0, 0, 264, 192)));
    // too many pixels to reduce
    assert!(!robot.ready_for(3 * 4104 * 4096, &area(0, 0, 4104, 4096)));
    // the area leaves the range of screen coordinates
    assert!(!robot.ready_for(3 * 256 * 192, &area(usize::MAX - 255, 0, 256, 192)));
    assert!(robot.ready_for(3 * 256 * 192, &area(usize::MAX - 256, 0, 256, 192)));
}

#[test]
fn a_subject_seen_in_a_larger_frame_has_to_fit_the_next_one() {
    let scene = frame(64, 24, &[(50, 4, 5, 5, SUBJECT)]);
    let mut robot = Robot::new(Some(vec![0u8; 3 * 64 * 24])).unwrap();
    let wide = Rectangle { left: 0usize, top: 0, width: 512, height: 192 };
    assert!(robot.ready_for(3 * 512 * 192, &wide));
    robot.detect(&scene, 64, 24, &wide);
    assert!(robot.ready_for(3 * 512 * 192, &wide));
    let narrow = Rectangle { left: 0usize, top: 0, width: 256, height: 192 };
    assert!(!robot.ready_for(3 * 256 * 192, &narrow));
}
