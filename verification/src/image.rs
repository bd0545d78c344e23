//! Tagged items ("images") and the similarity scorer over their tag sets.
//!
//! A tag set is a hashed set of interned tag identifiers; the scorer counts
//! the tags two sets share and the tags unique to each side, and rewards
//! sharing some but not all tags.

use vstd::prelude::*;

verus! {

/// `fnv::FnvHasher` appears as the hasher parameter of every tag set; it is
/// declared here so that tag sets can stand in verified signatures and fields.
#[verifier::external_type_specification]
#[verifier::external_body]
pub struct ExFnvHasher(fnv::FnvHasher);

/// `std::hash::BuildHasherDefault` wraps the hasher type inside `FnvHashSet`.
#[verifier::external_type_specification]
#[verifier::external_body]
#[verifier::reject_recursive_types(H)]
pub struct ExBuildHasherDefault<H>(std::hash::BuildHasherDefault<H>);

/// A set of interned tag identifiers, hashed with the Fowler-Noll-Vo hasher.
pub type Tags = fnv::FnvHashSet<usize>;

/// Relies on `std::collections::HashSet::len`: the number of elements held,
/// which is the cardinality of the set of elements.
#[verifier::external_body]
pub(crate) fn tags_len(tags: &Tags) -> (n: usize)
    ensures
        n == tags@.len(),
{
    tags.len()
}

/// Relies on `std::collections::HashSet::intersection` together with
/// `Iterator::count`: the number of elements the two sets share, which can
/// exceed the cardinality of neither set.
#[verifier::external_body]
pub(crate) fn intersection_count(tags: &Tags, other_tags: &Tags) -> (n: usize)
    ensures
        n == tags@.intersect(other_tags@).len(),
        n <= tags@.len(),
        n <= other_tags@.len(),
{
    tags.intersection(other_tags).count()
}

/// Relies on `std::collections::HashSet::clone`: the copy holds the same
/// elements as the original.
#[verifier::external_body]
pub(crate) fn clone_tags(tags: &Tags) -> (r: Tags)
    ensures
        r@ == tags@,
{
    tags.clone()
}

/// The similarity score of two tag sets: zero when they share no tag, and
/// otherwise the least of the shared count and the two unique counts.
pub open spec fn spec_score(tags: Set<usize>, other_tags: Set<usize>) -> int {
    let same = tags.intersect(other_tags).len() as int;
    let unique = tags.len() as int - same;
    let other_unique = other_tags.len() as int - same;
    if same == 0 {
        0
    } else if unique <= other_unique && unique <= same {
        unique
    } else if other_unique <= same {
        other_unique
    } else {
        same
    }
}

/// What an image is, mathematically: its identifier, its orientation, and
/// the set of its tags.
pub ghost struct ImageView {
    pub id: usize,
    pub horizontal: bool,
    pub tags: Set<usize>,
}

/// A tagged item. A `Horizontal` image fills a slide alone; two `Vertical`
/// images together fill one slide.
pub enum Image {
    Horizontal { image_id: usize, tags: Tags },
    Vertical { image_id: usize, tags: Tags },
}

impl View for Image {
    type V = ImageView;

    open spec fn view(&self) -> ImageView {
        match self {
            Image::Horizontal { image_id, tags } => ImageView {
                id: *image_id,
                horizontal: true,
                tags: tags@,
            },
            Image::Vertical { image_id, tags } => ImageView {
                id: *image_id,
                horizontal: false,
                tags: tags@,
            },
        }
    }
}

impl Clone for Image {
    fn clone(&self) -> (r: Self)
        ensures
            r@ == self@,
    {
        match self {
            Image::Horizontal { image_id, tags } => Image::Horizontal {
                image_id: *image_id,
                tags: clone_tags(tags),
            },
            Image::Vertical { image_id, tags } => Image::Vertical {
                image_id: *image_id,
                tags: clone_tags(tags),
            },
        }
    }
}

impl Image {
    /// Build an image from its identifier, its orientation, and its tags.
    pub fn new(image_id: usize, horizontal: bool, tags: Tags) -> (r: Image)
        ensures
            r@ == (ImageView { id: image_id, horizontal, tags: tags@ }),
    {
        if horizontal {
            Image::Horizontal { image_id, tags }
        } else {
            Image::Vertical { image_id, tags }
        }
    }

    /// The similarity score of two tag sets.
    pub fn score(tags_set: &Tags, other_tags_set: &Tags) -> (r: usize)
        ensures
            r == spec_score(tags_set@, other_tags_set@),
    {
        let same = intersection_count(tags_set, other_tags_set);
        if same == 0 {
            return 0;
        }
        let unique = tags_len(tags_set) - same;
        let other_unique = tags_len(other_tags_set) - same;
        if unique <= other_unique && unique <= same {
            unique
        } else if other_unique <= same {
            other_unique
        } else {
            same
        }
    }

    /// The image's identifier.
    pub fn get_id(&self) -> (r: usize)
        ensures
            r == self@.id,
    {
        match self {
            Image::Horizontal { image_id, .. } => *image_id,
            Image::Vertical { image_id, .. } => *image_id,
        }
    }

    /// The image's tag set.
    pub fn get_tags(&self) -> (r: &Tags)
        ensures
            r@ == self@.tags,
    {
        match self {
            Image::Horizontal { tags, .. } => tags,
            Image::Vertical { tags, .. } => tags,
        }
    }
}

/// A tag set scored against itself gives zero: no tag is unique to either
/// side.
pub proof fn lemma_score_self(tags: Set<usize>)
    ensures
        spec_score(tags, tags) == 0,
{
    assert(tags.intersect(tags) =~= tags);
}

/// The score does not depend on the order of its two arguments.
pub proof fn lemma_score_symmetric(tags: Set<usize>, other_tags: Set<usize>)
    ensures
        spec_score(tags, other_tags) == spec_score(other_tags, tags),
{
    assert(tags.intersect(other_tags) =~= other_tags.intersect(tags));
}

/// Two tag sets that share no tag score zero.
pub proof fn lemma_score_disjoint(tags: Set<usize>, other_tags: Set<usize>)
    requires
        tags.disjoint(other_tags),
    ensures
        spec_score(tags, other_tags) == 0,
{
    assert(tags.intersect(other_tags) =~= Set::<usize>::empty());
}

} // verus!

