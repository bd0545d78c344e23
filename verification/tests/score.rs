use std::iter::FromIterator;

use fnv::FnvHashSet;

use hashcode2019::Image;
use hashcode2019::Slide;
use hashcode2019::Tags;
use hashcode2019::get_union;

fn tags_of(ids: &[usize]) -> Tags {
    FnvHashSet::from_iter(ids.iter().cloned())
}

#[test]
fn test_score() {
    let tag_vec1 = vec![1, 2];
    let tag_vec2 = vec![1, 3];
    let tag1: Tags = FnvHashSet::from_iter(tag_vec1);
    let tag2: Tags = FnvHashSet::from_iter(tag_vec2);
    assert_eq!(Image::score(&tag1, &tag1), 0);
    assert_eq!(Image::score(&tag1, &tag2), 1);
}

#[test]
fn score_of_a_set_with_itself_is_zero() {
    let tags = tags_of(&[7, 8, 9]);
    assert_eq!(Image::score(&tags, &tags), 0);
}

#[test]
fn score_is_symmetric() {
    let a = tags_of(&[1, 2, 3]);
    let b = tags_of(&[2, 3, 4, 5]);
    assert_eq!(Image::score(&a, &b), Image::score(&b, &a));
    assert_eq!(Image::score(&a, &b), 1);
}

#[test]
fn score_of_disjoint_sets_is_zero() {
    let a = tags_of(&[1, 2]);
    let b = tags_of(&[3, 4]);
    assert_eq!(Image::score(&a, &b), 0);
    assert_eq!(Image::score(&b, &a), 0);
}

#[test]
fn score_one_shared_one_unique_each_side() {
    // fizz and buzz against fizz and ferris: one shared tag, one unique
    // tag on each side, so the least of the three counts is one.
    let fizz: usize = 10;
    let buzz: usize = 11;
    let ferris: usize = 12;
    let a = tags_of(&[fizz, buzz]);
    let b = tags_of(&[fizz, ferris]);
    assert_eq!(Image::score(&a, &b), 1);
}

#[test]
fn score_is_least_of_the_three_counts() {
    // Two shared, two unique on one side, three on the other.
    let a = tags_of(&[1, 2, 3, 4]);
    let b = tags_of(&[3, 4, 5, 6, 7]);
    assert_eq!(Image::score(&a, &b), 2);
    // Three shared, three unique on each side.
    let c = tags_of(&[1, 2, 3, 4, 5, 6]);
    let d = tags_of(&[1, 2, 3, 7, 8, 9]);
    assert_eq!(Image::score(&c, &d), 3);
}

#[test]
fn score_is_a_pure_function_of_its_inputs() {
    let a = tags_of(&[1, 2, 3]);
    let b = tags_of(&[2, 3, 4]);
    let first = Image::score(&a, &b);
    let second = Image::score(&a, &b);
    let third = Image::score(&a, &b);
    assert_eq!(first, second);
    assert_eq!(second, third);
    assert_eq!(first, 1);
}

#[test]
fn union_holds_the_elements_of_both_sets() {
    let a = tags_of(&[1, 2]);
    let b = tags_of(&[2, 3]);
    let u = get_union(&a, &b);
    assert_eq!(u.len(), 3);
    assert!(u.contains(&1));
    assert!(u.contains(&2));
    assert!(u.contains(&3));
}

#[test]
fn image_carries_its_id_and_tags() {
    let img = Image::new(5, true, tags_of(&[1, 2]));
    assert_eq!(img.get_id(), 5);
    assert_eq!(img.get_tags().len(), 2);
    assert!(img.get_tags().contains(&1));
    assert!(img.get_tags().contains(&2));
}

#[test]
fn slide_scoring_unions_a_vertical_pair() {
    let previous = tags_of(&[1, 2, 3, 4]);
    let single = Image::new(0, true, tags_of(&[1, 2, 5]));
    // One slide of one horizontal image scores its own tags.
    assert_eq!(
        Slide::get_score_slide(&previous, &Slide::H { h: &single }),
        1
    );
    // A pair slide scores the union of the two tag sets: {1, 2} and {3, 5}
    // give {1, 2, 3, 5}, sharing three tags with the previous slide.
    let v = Image::new(1, false, tags_of(&[1, 2]));
    let other_v = Image::new(2, false, tags_of(&[3, 5]));
    assert_eq!(
        Slide::get_score_slide(&previous, &Slide::V { v: &v, other_v: &other_v }),
        1
    );
}
