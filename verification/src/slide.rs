//! Slides: the units of the output sequence.
//!
//! During scoring a slide carries references to the images it is made of, so
//! that a candidate can be scored without copying tag sets. Only the
//! identifier-bearing form `FSlide` is kept in the output sequence.

use vstd::prelude::*;
use crate::image::Image;
use crate::image::Tags;
use crate::image::spec_score;

verus! {

/// A candidate slide during scoring: one horizontal image, or two vertical
/// images shown together.
pub enum Slide<'a> {
    H { h: &'a Image },
    V { v: &'a Image, other_v: &'a Image },
}

/// A slide of the output sequence, holding image identifiers only.
#[derive(Clone, Copy, Debug, PartialEq, Eq, Structural)]
pub enum FSlide {
    H { h: usize },
    V { v: usize, other_v: usize },
}

/// Relies on `std::collections::HashSet::union` together with
/// `FromIterator::from_iter`: the returned set holds exactly the elements of
/// the two given sets.
#[verifier::external_body]
pub fn get_union(tags: &Tags, other_tags: &Tags) -> (r: Tags)
    ensures
        r@ == tags@.union(other_tags@),
{
    let union = tags.union(other_tags);
    std::iter::FromIterator::from_iter(union.cloned())
}

/// The tag set a candidate slide presents: the one image's tags, or the
/// union of the two images' tags.
pub open spec fn spec_slide_tags(s: Slide<'_>) -> Set<usize> {
    match s {
        Slide::H { h } => h@.tags,
        Slide::V { v, other_v } => v@.tags.union(other_v@.tags),
    }
}

impl<'a> Slide<'a> {
    /// Score a candidate slide against the tag set of the previous slide.
    pub fn get_score_slide(previous_tags: &Tags, s: &Slide<'_>) -> (r: usize)
        ensures
            r == spec_score(previous_tags@, spec_slide_tags(*s)),
    {
        match s {
            Slide::H { h } => Image::score(previous_tags, h.get_tags()),
            Slide::V { v, other_v } => {
                let union = get_union(v.get_tags(), other_v.get_tags());
                Image::score(previous_tags, &union)
            },
        }
    }
}

} // verus!
