use std::iter::FromIterator;

use fnv::FnvHashSet;

use hashcode2019::FSlide;
use hashcode2019::Image;
use hashcode2019::solve;
use hashcode2019::solve_chunked;

fn h_image(id: usize, tags: &[usize]) -> Image {
    Image::new(id, true, FnvHashSet::from_iter(tags.iter().cloned()))
}

fn v_image(id: usize, tags: &[usize]) -> Image {
    Image::new(id, false, FnvHashSet::from_iter(tags.iter().cloned()))
}

fn collect_ids(slides: &[FSlide]) -> Vec<usize> {
    let mut ids: Vec<usize> = vec![];
    for slide in slides {
        match slide {
            FSlide::H { h } => ids.push(*h),
            FSlide::V { v, other_v } => {
                ids.push(*v);
                ids.push(*other_v);
            }
        }
    }
    ids
}

#[test]
fn two_horizontal_images_give_two_single_slides() {
    // Tags a, b, c interned as 1, 2, 3: the images carry {a, b} and {b, c}.
    let images = vec![h_image(0, &[1, 2]), h_image(1, &[2, 3])];
    let slides = solve(&images);
    assert_eq!(slides.len(), 2);
    let mut ids = collect_ids(&slides);
    ids.sort();
    assert_eq!(ids, vec![0, 1]);
    for slide in &slides {
        assert!(matches!(slide, FSlide::H { .. }));
    }
}

#[test]
fn every_image_is_placed_exactly_once() {
    let images = vec![
        h_image(0, &[1, 2]),
        v_image(1, &[2, 3]),
        h_image(2, &[3, 4]),
        v_image(3, &[4, 5]),
        h_image(4, &[5, 6]),
        v_image(5, &[6, 7]),
        v_image(6, &[7, 8]),
    ];
    let slides = solve(&images);
    // Three horizontal images and four vertical images: three single
    // slides and two pair slides.
    assert_eq!(slides.len(), 5);
    let mut ids = collect_ids(&slides);
    ids.sort();
    assert_eq!(ids, vec![0, 1, 2, 3, 4, 5, 6]);
}

#[test]
fn an_odd_vertical_count_leaves_one_image_unplaced() {
    let images = vec![v_image(0, &[1, 2]), v_image(1, &[2, 3]), v_image(2, &[3, 4])];
    let slides = solve(&images);
    assert_eq!(slides.len(), 1);
    let ids = collect_ids(&slides);
    assert_eq!(ids.len(), 2);
    assert_ne!(ids[0], ids[1]);
    assert!(ids.iter().all(|id| *id <= 2));
}

#[test]
fn an_empty_pool_gives_an_empty_sequence() {
    let images: Vec<Image> = vec![];
    assert_eq!(solve(&images).len(), 0);
}

#[test]
fn a_lone_vertical_image_gives_an_empty_sequence() {
    let images = vec![v_image(0, &[1, 2])];
    assert_eq!(solve(&images).len(), 0);
}

#[test]
fn chunk_size_one_keeps_singles_and_drops_pairables() {
    let images = vec![
        h_image(0, &[1, 2]),
        v_image(1, &[2, 3]),
        h_image(2, &[3, 4]),
        v_image(3, &[4, 5]),
    ];
    let slides = solve_chunked(&images, 1);
    assert_eq!(slides, vec![FSlide::H { h: 0 }, FSlide::H { h: 2 }]);
}

#[test]
fn one_chunk_covering_the_whole_input_matches_the_plain_solver() {
    let images = vec![
        h_image(0, &[1, 2]),
        v_image(1, &[2, 3]),
        v_image(2, &[3, 4]),
        h_image(3, &[4, 5]),
        v_image(4, &[5, 6]),
    ];
    let whole = solve_chunked(&images, images.len());
    let plain = solve(&images);
    assert_eq!(whole, plain);
}

#[test]
fn each_chunk_covers_its_own_images() {
    let images = vec![
        h_image(0, &[1, 2]),
        h_image(1, &[2, 3]),
        h_image(2, &[3, 4]),
        h_image(3, &[4, 5]),
        h_image(4, &[5, 6]),
    ];
    // Chunks of two: every image is horizontal, so every image gets its own
    // slide whatever the chunking, and ids 0 and 1 come before 2 and 3,
    // which come before 4.
    let slides = solve_chunked(&images, 2);
    assert_eq!(slides.len(), 5);
    let mut ids = collect_ids(&slides);
    ids.sort();
    assert_eq!(ids, vec![0, 1, 2, 3, 4]);
    let raw = collect_ids(&slides);
    assert!(raw[0] <= 1 && raw[1] <= 1);
    assert!(raw[2] >= 2 && raw[2] <= 3 && raw[3] >= 2 && raw[3] <= 3);
    assert_eq!(raw[4], 4);
}

#[test]
fn pair_slides_hold_two_distinct_vertical_images() {
    let images = vec![
        v_image(0, &[1, 2]),
        v_image(1, &[1, 2]),
        v_image(2, &[1, 2]),
        v_image(3, &[1, 2]),
    ];
    let slides = solve(&images);
    assert_eq!(slides.len(), 2);
    for slide in &slides {
        match slide {
            FSlide::H { .. } => panic!("no horizontal image was given"),
            FSlide::V { v, other_v } => assert_ne!(v, other_v),
        }
    }
    let mut ids = collect_ids(&slides);
    ids.sort();
    assert_eq!(ids, vec![0, 1, 2, 3]);
}
