use bumper_robot::img_connected_components::{connected_components, Component, MAX_REGIONS};

fn mask_from(rows: &[&str]) -> (Vec<u8>, usize, usize) {
    let height = rows.len();
    let width = rows[0].len();
    let mut mask = Vec::with_capacity(width * height);
    for row in rows {
        assert_eq!(row.len(), width);
        for ch in row.chars() {
            mask.push(match ch {
                '.' => 0u8,
                '#' => 255u8,
                other => other.to_digit(10).unwrap() as u8,
            });
        }
    }
    (mask, width, height)
}

fn count_of(mask: &[u8], id: u8) -> usize {
    mask.iter().filter(|&&v| v == id).count()
}

fn extent_of(mask: &[u8], width: usize, id: u8) -> (usize, usize, usize, usize) {
    let mut left = usize::MAX;
    let mut top = usize::MAX;
    let mut right = 0;
    let mut bottom = 0;
    for (i, &v) in mask.iter().enumerate() {
        if v == id {
            let (x, y) = (i % width, i / width);
            left = left.min(x);
            top = top.min(y);
            right = right.max(x);
            bottom = bottom.max(y);
        }
    }
    (left, top, right, bottom)
}

fn check_records(mask: &[u8], width: usize, components: &[Component<usize>]) {
    for (k, c) in components.iter().enumerate() {
        assert_eq!(c.id as usize, k + 2);
        assert_eq!(c.area, count_of(mask, c.id));
        assert!(c.area > 0);
        assert_eq!((c.left, c.top, c.right, c.bottom), extent_of(mask, width, c.id));
    }
}

#[test]
fn square_in_the_middle_is_one_component() {
    let mut mask = vec![0u8; 100];
    for y in 2..8 {
        for x in 2..8 {
            mask[y * 10 + x] = 255;
        }
    }
    let components = connected_components(&mut mask, 10, 10);
    assert_eq!(components.len(), 1);
    let c = &components[0];
    assert_eq!(c.area, 36);
    assert_eq!((c.left, c.right, c.top, c.bottom), (2, 7, 2, 7));
    assert_eq!(c.id, 2);
    for y in 0..10 {
        for x in 0..10 {
            let inside = (2..8).contains(&x) && (2..8).contains(&y);
            assert_eq!(mask[y * 10 + x], if inside { 2 } else { 1 });
        }
    }
    let b = c.bounding_box();
    assert_eq!((b.left, b.top, b.width, b.height), (2, 2, 5, 5));
}

#[test]
fn every_foreground_pixel_gets_a_label_and_every_region_its_own() {
    let (mut mask, width, height) = mask_from(&[
        "..........",
        ".##....#..",
        ".##...###.",
        "......#...",
        "..........",
        "#.........",
        "#....####.",
        "##...#..#.",
        ".....####.",
        "..........",
    ]);
    let input = mask.clone();
    let components = connected_components(&mut mask, width, height);
    assert_eq!(components.len(), 4);
    for (i, &v) in input.iter().enumerate() {
        if v == 255 {
            assert!(mask[i] >= 2 && (mask[i] as usize) < 2 + components.len());
        } else {
            assert_eq!(mask[i], 1);
        }
    }
    check_records(&mask, width, &components);
    let mut areas: Vec<usize> = components.iter().map(|c| c.area).collect();
    areas.sort();
    assert_eq!(areas, vec![4, 4, 5, 10]);
    // the ring encloses background that only the fill can hand to the queue
    assert_eq!(mask[7 * width + 6], 1);
    assert_eq!(mask[7 * width + 7], 1);
    // pixels of one region agree, pixels of different regions differ
    assert_eq!(mask[1 * width + 1], mask[2 * width + 2]);
    assert_eq!(mask[1 * width + 7], mask[3 * width + 6]);
    assert_ne!(mask[1 * width + 1], mask[1 * width + 7]);
    assert_ne!(mask[5 * width], mask[6 * width + 5]);
}

#[test]
fn diagonal_neighbours_are_separate_regions() {
    let (mut mask, width, height) = mask_from(&["....", ".#..", "..#.", "...."]);
    let components = connected_components(&mut mask, width, height);
    assert_eq!(components.len(), 2);
    assert_eq!(components[0].area, 1);
    assert_eq!(components[1].area, 1);
    assert_ne!(mask[1 * 4 + 1], mask[2 * 4 + 2]);
    check_records(&mask, width, &components);
}

#[test]
fn foreground_at_the_origin_is_the_first_region() {
    let (mut mask, width, height) = mask_from(&["##.", "#..", "..#"]);
    let components = connected_components(&mut mask, width, height);
    assert_eq!(mask, vec![2, 2, 1, 2, 1, 1, 1, 1, 3]);
    assert_eq!(components.len(), 2);
    let first = &components[0];
    assert_eq!((first.left, first.top, first.right, first.bottom), (0, 0, 1, 1));
    assert_eq!((first.area, first.id), (3, 2));
    let second = &components[1];
    assert_eq!((second.left, second.top, second.right, second.bottom), (2, 2, 2, 2));
    assert_eq!((second.area, second.id), (1, 3));
}

#[test]
fn a_mask_of_one_pixel() {
    let mut background = vec![0u8];
    assert!(connected_components(&mut background, 1, 1).is_empty());
    assert_eq!(background, vec![1]);

    let mut foreground = vec![255u8];
    let components = connected_components(&mut foreground, 1, 1);
    assert_eq!(foreground, vec![2]);
    assert_eq!(components.len(), 1);
    assert_eq!(components[0].area, 1);
    assert_eq!(components[0].bounding_box().width, 0);
}

#[test]
fn all_foreground_is_one_region() {
    let mut mask = vec![255u8; 12];
    let components = connected_components(&mut mask, 4, 3);
    assert_eq!(mask, vec![2u8; 12]);
    assert_eq!(components.len(), 1);
    let c = &components[0];
    assert_eq!((c.left, c.top, c.right, c.bottom, c.area), (0, 0, 3, 2, 12));
}

#[test]
fn a_second_pass_changes_nothing() {
    let (mut mask, width, height) = mask_from(&[
        "..#...",
        ".###..",
        "..#..#",
        "......",
        "##....",
    ]);
    let first = connected_components(&mut mask, width, height);
    assert_eq!(first.len(), 3);
    assert!(mask.iter().all(|&v| v != 0 && v != 255));
    let labelled = mask.clone();
    let second = connected_components(&mut mask, width, height);
    assert!(second.is_empty());
    assert_eq!(mask, labelled);
}

#[test]
fn values_from_an_earlier_pass_are_kept_and_not_crossed() {
    // the column of 7s cuts the mask in two: what lies behind it is out of reach
    let (mut mask, width, height) = mask_from(&[".#7.#", "..7..", "#.7##"]);
    let components = connected_components(&mut mask, width, height);
    assert_eq!(mask, vec![1, 2, 7, 0, 255, 1, 1, 7, 0, 0, 3, 1, 7, 255, 255]);
    assert_eq!(components.len(), 2);
    check_records(&mask, width, &components);
}

#[test]
fn a_labelled_origin_leaves_the_traversal_nowhere_to_start() {
    let (mut mask, width, height) = mask_from(&["5.#", "..#"]);
    let before = mask.clone();
    let components = connected_components(&mut mask, width, height);
    assert!(components.is_empty());
    assert_eq!(mask, before);
}

#[test]
fn regions_beyond_the_last_label_stay_unlabelled() {
    // isolated foreground pixels on every second column of every second row
    let width = 40;
    let height = 40;
    let mut mask = vec![0u8; width * height];
    let mut regions = 0;
    for y in (1..height).step_by(2) {
        for x in (1..width).step_by(2) {
            mask[y * width + x] = 255;
            regions += 1;
        }
    }
    assert_eq!(regions, 400);
    let input = mask.clone();
    let components = connected_components(&mut mask, width, height);
    assert_eq!(components.len(), MAX_REGIONS);
    assert_eq!(components.len(), 253);
    assert_eq!(components.last().unwrap().id, 254);
    check_records(&mask, width, &components);
    let left_over = mask.iter().filter(|&&v| v == 255).count();
    assert_eq!(left_over, regions - 253);
    for (i, &v) in input.iter().enumerate() {
        if v == 0 {
            assert_eq!(mask[i], 1);
        } else {
            assert!(mask[i] == 255 || (2..=254).contains(&mask[i]));
        }
    }
}

#[test]
fn exactly_as_many_regions_as_labels_are_all_labelled() {
    let width = 2 * 253;
    let mut mask = vec![0u8; width];
    for k in 0..253 {
        mask[2 * k + 1] = 255;
    }
    let components = connected_components(&mut mask, width, 1);
    assert_eq!(components.len(), 253);
    assert!(mask.iter().all(|&v| v != 0 && v != 255));
    for (k, c) in components.iter().enumerate() {
        assert_eq!((c.left, c.right, c.top, c.bottom, c.area), (2 * k + 1, 2 * k + 1, 0, 0, 1));
    }
}

#[test]
fn a_large_region_does_not_exhaust_the_stack() {
    let width = 300;
    let height = 300;
    let mut mask = vec![255u8; width * height];
    for x in 0..width {
        mask[x] = 0;
    }
    let components = connected_components(&mut mask, width, height);
    assert_eq!(components.len(), 1);
    assert_eq!(components[0].area, width * (height - 1));
    assert_eq!(components[0].top, 1);
    assert_eq!(components[0].bottom, height - 1);
}

#[test]
fn regions_are_numbered_in_the_order_the_traversal_meets_them() {
    // the region on the left is nearer to the origin than the one in the first row
    let (mut mask, width, height) = mask_from(&["....#", ".....", "#...."]);
    let components = connected_components(&mut mask, width, height);
    assert_eq!(mask, vec![1, 1, 1, 1, 3, 1, 1, 1, 1, 1, 2, 1, 1, 1, 1]);
    assert_eq!(components.len(), 2);
    assert_eq!((components[0].left, components[0].top), (0, 2));
    assert_eq!((components[1].left, components[1].top), (4, 0));
}

#[test]
fn background_behind_a_region_is_reached_through_it() {
    // a wall of foreground from top to bottom: the right half is entered by the fill
    let (mut mask, width, height) = mask_from(&["..#..", "..#.#", "..#.."]);
    let components = connected_components(&mut mask, width, height);
    assert_eq!(mask, vec![1, 1, 2, 1, 1, 1, 1, 2, 1, 3, 1, 1, 2, 1, 1]);
    assert_eq!(components.len(), 2);
    assert_eq!((components[0].area, components[1].area), (3, 1));
}
