//! A greedy slideshow sequencer.
//!
//! Tagged images are arranged into a sequence of slides — one horizontal
//! image, or two vertical images shown together — so that consecutive slides
//! share some but not all tags. The sequencer is a greedy heuristic: at each
//! step it scores the candidate slides against the previous slide's tags and
//! takes a best one. The input can be split into fixed-size chunks, each
//! sequenced independently, and the per-chunk sequences concatenated in order.

use vstd::prelude::*;
use vstd::multiset::Multiset;

mod image;
mod pool;
mod slide;

pub use image::Image;
pub use image::ImageView;
pub use image::Tags;
pub use image::lemma_score_disjoint;
pub use image::lemma_score_self;
pub use image::lemma_score_symmetric;
pub use image::spec_score;
pub use pool::distinct_ids;
pub use pool::h_ids;
pub use pool::has_horizontal;
pub use pool::has_vertical;
pub use pool::lemma_concat_coverage;
pub use pool::lemma_singleton_pool;
pub use pool::pool_ids;
pub use pool::slide_h_ids;
pub use pool::slide_ids;
pub use pool::slide_v_ids;
pub use pool::slide_wf;
pub use pool::v_ids;
pub use pool::valid_solution;
pub use slide::FSlide;
pub use slide::Slide;
pub use slide::get_union;
pub use slide::spec_slide_tags;

use vstd::seq_lib::lemma_flatten_concat;

use crate::image::clone_tags;
use crate::pool::lemma_ids_push;
use crate::pool::lemma_ids_remove;
use crate::pool::lemma_pool_from_mono;
use crate::pool::lemma_pool_ids_len;
use crate::pool::lemma_pool_member_in_images;
use crate::pool::lemma_pool_push;
use crate::pool::lemma_pool_remove_preserves;
use crate::pool::lemma_slide_ids_push;
use crate::pool::pool_from;

verus! {

/// The best single-image slide: the horizontal image whose tags score highest
/// against the previous slide's tags, together with that score. Any image of
/// highest score may be returned; none exists only for an empty pool.
fn get_best_horizontal(previous_tags: &Tags, horizontals: &[Image]) -> (r: (
    usize,
    Option<Image>,
))
    ensures
        horizontals@.len() == 0 ==> r.0 == 0 && r.1 is None,
        horizontals@.len() > 0 ==> r.1 is Some && (exists|i: int|
            0 <= i < horizontals@.len() && r.1->0@ == horizontals@[i]@) && r.0 == spec_score(
            previous_tags@,
            r.1->0@.tags,
        ) && (forall|i: int|
            0 <= i < horizontals@.len() ==> spec_score(
                previous_tags@,
                (#[trigger] horizontals@[i])@.tags,
            ) <= r.0),
{
    if horizontals.len() == 0 {
        return (0, None);
    }
    let mut best_score: usize = Slide::get_score_slide(
        previous_tags,
        &(Slide::H { h: &horizontals[0] }),
    );
    let mut best_idx: usize = 0;
    let mut i: usize = 1;
    while i < horizontals.len()
        invariant
            1 <= i <= horizontals@.len(),
            best_idx < i,
            best_score == spec_score(previous_tags@, horizontals@[best_idx as int]@.tags),
            forall|j: int|
                0 <= j < i ==> spec_score(previous_tags@, (#[trigger] horizontals@[j])@.tags)
                    <= best_score,
        decreases horizontals@.len() - i,
    {
        let s = Slide::get_score_slide(previous_tags, &(Slide::H { h: &horizontals[i] }));
        if s >= best_score {
            best_score = s;
            best_idx = i;
        }
        i = i + 1;
    }
    (best_score, Some(horizontals[best_idx].clone()))
}

/// The best pair slide under the anchor heuristic: the first vertical image
/// of the pool is fixed, and only its partner is searched for, so that one
/// step costs a single scan instead of a scan of every pair. Returns the
/// anchor, a partner whose tag union with the anchor scores highest against
/// the previous slide's tags, and that score; none exists only when fewer
/// than two vertical images remain.
fn get_best_vertical(previous_tags: &Tags, verticals: &[Image]) -> (r: (
    usize,
    Option<(Image, Image)>,
))
    ensures
        verticals@.len() < 2 ==> r.0 == 0 && r.1 is None,
        verticals@.len() >= 2 ==> r.1 is Some && (r.1->0).0@ == verticals@[0]@ && (exists|j: int|
            1 <= j < verticals@.len() && (r.1->0).1@ == verticals@[j]@) && r.0 == spec_score(
            previous_tags@,
            verticals@[0]@.tags.union((r.1->0).1@.tags),
        ) && (forall|j: int|
            1 <= j < verticals@.len() ==> spec_score(
                previous_tags@,
                verticals@[0]@.tags.union((#[trigger] verticals@[j])@.tags),
            ) <= r.0),
{
    if verticals.len() < 2 {
        return (0, None);
    }
    let first_v = &verticals[0];
    let mut best_score: usize = Slide::get_score_slide(
        previous_tags,
        &(Slide::V { v: first_v, other_v: &verticals[1] }),
    );
    let mut best_idx: usize = 1;
    let mut j: usize = 2;
    while j < verticals.len()
        invariant
            2 <= j <= verticals@.len(),
            verticals@.len() >= 2,
            first_v@ == verticals@[0]@,
            1 <= best_idx < j,
            best_score == spec_score(
                previous_tags@,
                verticals@[0]@.tags.union(verticals@[best_idx as int]@.tags),
            ),
            forall|k: int|
                1 <= k < j ==> spec_score(
                    previous_tags@,
                    verticals@[0]@.tags.union((#[trigger] verticals@[k])@.tags),
                ) <= best_score,
        decreases verticals@.len() - j,
    {
        let s = Slide::get_score_slide(
            previous_tags,
            &(Slide::V { v: first_v, other_v: &verticals[j] }),
        );
        if s >= best_score {
            best_score = s;
            best_idx = j;
        }
        j = j + 1;
    }
    (best_score, Some((verticals[0].clone(), verticals[best_idx].clone())))
}

/// Remove from the pool the first image carrying the identifier, compacting
/// the pool so that the remaining images keep their relative order.
fn remove_by_id(pool: &mut Vec<Image>, id: usize)
    requires
        exists|i: int| 0 <= i < old(pool)@.len() && old(pool)@[i]@.id == id,
    ensures
        exists|i: int|
            0 <= i < old(pool)@.len() && old(pool)@[i]@.id == id && final(pool)@ == old(
                pool,
            )@.remove(i),
{
    proof {
        let i = choose|i: int| 0 <= i < old(pool)@.len() && old(pool)@[i]@.id == id;
        assert(pool@.len() > 0);
    }
    let mut idx: usize = 0;
    loop
        invariant
            0 <= idx < pool@.len(),
            pool@ == old(pool)@,
            exists|i: int| idx <= i < pool@.len() && pool@[i]@.id == id,
        ensures
            idx < pool@.len(),
            pool@ == old(pool)@,
            pool@[idx as int]@.id == id,
        decreases pool@.len() - idx,
    {
        if pool[idx].get_id() == id {
            break ;
        }
        // The pool's length is an exec value, so the increment cannot
        // overflow while idx stays below it.
        let _n = pool.len();
        proof {
            let i = choose|i: int| idx <= i < pool@.len() && pool@[i]@.id == id;
            assert(idx + 1 <= i < pool@.len() && pool@[i]@.id == id);
        }
        idx = idx + 1;
    }
    let _removed = pool.remove(idx);
}

/// Greedily arrange one pool of images into a slide sequence.
///
/// The images are split into a horizontal and a vertical pool. The first
/// slide shows the last horizontal image or, when none exists, the last two
/// vertical images; a pool with no horizontal image and fewer than two
/// vertical images yields the empty sequence. Each further step scores the
/// best single slide and the best pair slide against the previous slide's
/// tags and takes the single on ties. The sequence ends when no horizontal
/// image and fewer than two vertical images remain, so one vertical image may
/// stay unplaced when their count is odd.
pub fn solve(images: &[Image]) -> (slides: Vec<FSlide>)
    requires
        distinct_ids(images@),
    ensures
        valid_solution(images@, slides@),
{
    let ghost imgs = images@;
    let mut slides: Vec<FSlide> = Vec::new();
    let mut horizontals: Vec<Image> = Vec::new();
    let mut verticals: Vec<Image> = Vec::new();
    let mut idx: usize = 0;
    while idx < images.len()
        invariant
            imgs == images@,
            distinct_ids(imgs),
            0 <= idx <= imgs.len(),
            pool_from(imgs, idx as int, horizontals@, true),
            pool_from(imgs, idx as int, verticals@, false),
            distinct_ids(horizontals@),
            distinct_ids(verticals@),
            pool_ids(horizontals@) == h_ids(imgs.take(idx as int)),
            pool_ids(verticals@) == v_ids(imgs.take(idx as int)),
        decreases imgs.len() - idx,
    {
        let img = images[idx].clone();
        let is_h = match &img {
            Image::Horizontal { .. } => true,
            Image::Vertical { .. } => false,
        };
        proof {
            assert(is_h == img@.horizontal);
            assert(imgs.take(idx as int + 1) =~= imgs.take(idx as int).push(imgs[idx as int]));
            lemma_ids_push(imgs.take(idx as int), imgs[idx as int]);
        }
        if is_h {
            proof {
                lemma_ids_push(horizontals@, img);
                lemma_pool_push(imgs, idx as int, horizontals@, img, true);
                lemma_pool_from_mono(imgs, idx as int, idx as int + 1, verticals@, false);
            }
            horizontals.push(img);
        } else {
            proof {
                lemma_ids_push(verticals@, img);
                lemma_pool_push(imgs, idx as int, verticals@, img, false);
                lemma_pool_from_mono(imgs, idx as int, idx as int + 1, horizontals@, true);
            }
            verticals.push(img);
        }
        idx = idx + 1;
    }
    proof {
        assert(imgs.take(imgs.len() as int) =~= imgs);
    }
    // Initial placement: prefer a horizontal image; otherwise a vertical
    // pair; an exhausted pool yields the empty sequence.
    let mut previous_tags: Tags;
    if horizontals.len() > 0 {
        let ghost hp0 = horizontals@;
        let first_h = horizontals.pop().unwrap();
        let hid = first_h.get_id();
        slides.push(FSlide::H { h: hid });
        previous_tags = clone_tags(first_h.get_tags());
        proof {
            assert(horizontals@ =~= hp0.remove(hp0.len() - 1));
            lemma_ids_remove(hp0, hp0.len() - 1);
            lemma_pool_remove_preserves(imgs, imgs.len() as int, hp0, hp0.len() - 1, true);
            assert(hp0[hp0.len() - 1]@ == first_h@);
            lemma_pool_member_in_images(imgs, imgs.len() as int, hp0, true, first_h@);
            lemma_slide_ids_push(Seq::<FSlide>::empty(), FSlide::H { h: hid });
            assert(slides@ =~= Seq::<FSlide>::empty().push(FSlide::H { h: hid }));
            assert(slide_h_ids(slides@).add(pool_ids(horizontals@)) =~= h_ids(imgs));
            assert(slide_v_ids(slides@).add(pool_ids(verticals@)) =~= v_ids(imgs));
            assert(slide_wf(imgs, FSlide::H { h: hid }));
            assert(slides@.len() == slide_h_ids(slides@).len() + slide_v_ids(slides@).len() / 2);
            assert(slides@[0] is H);
        }
    } else if verticals.len() >= 2 {
        let ghost vp0 = verticals@;
        let first_v = verticals.pop().unwrap();
        let ghost vp1 = verticals@;
        let first_other_v = verticals.pop().unwrap();
        let vid = first_v.get_id();
        let ovid = first_other_v.get_id();
        slides.push(FSlide::V { v: vid, other_v: ovid });
        previous_tags = get_union(first_v.get_tags(), first_other_v.get_tags());
        proof {
            assert(vp1 =~= vp0.remove(vp0.len() - 1));
            lemma_ids_remove(vp0, vp0.len() - 1);
            lemma_pool_remove_preserves(imgs, imgs.len() as int, vp0, vp0.len() - 1, false);
            assert(verticals@ =~= vp1.remove(vp1.len() - 1));
            lemma_ids_remove(vp1, vp1.len() - 1);
            lemma_pool_remove_preserves(imgs, imgs.len() as int, vp1, vp1.len() - 1, false);
            assert(vp0[vp0.len() - 1]@ == first_v@);
            assert(vp1[vp1.len() - 1] == vp0[vp0.len() - 2]);
            assert(vp0[vp0.len() - 2]@ == first_other_v@);
            assert(vid != ovid);
            lemma_pool_member_in_images(imgs, imgs.len() as int, vp0, false, first_v@);
            lemma_pool_member_in_images(imgs, imgs.len() as int, vp0, false, first_other_v@);
            lemma_slide_ids_push(Seq::<FSlide>::empty(), FSlide::V { v: vid, other_v: ovid });
            assert(slides@ =~= Seq::<FSlide>::empty().push(FSlide::V { v: vid, other_v: ovid }));
            assert(slide_h_ids(slides@).add(pool_ids(horizontals@)) =~= h_ids(imgs));
            assert(slide_v_ids(slides@).add(pool_ids(verticals@)) =~= v_ids(imgs));
            assert(slide_wf(imgs, FSlide::V { v: vid, other_v: ovid }));
            assert(slides@.len() == slide_h_ids(slides@).len() + slide_v_ids(slides@).len() / 2);
            lemma_pool_ids_len(horizontals@);
            assert(h_ids(imgs).len() == 0);
        }
    } else {
        proof {
            assert(pool_ids(horizontals@) =~= Multiset::<usize>::empty());
            assert(slide_h_ids(slides@) =~= h_ids(imgs));
            lemma_pool_ids_len(horizontals@);
            assert(h_ids(imgs).len() == 0);
            lemma_pool_ids_len(verticals@);
            let rest = pool_ids(verticals@);
            assert(slide_v_ids(slides@).add(rest) =~= v_ids(imgs));
            assert(rest.len() == v_ids(imgs).len() % 2);
            assert(valid_solution(imgs, slides@));
        }
        return slides;
    }
    // Steady state: take the best single or pair slide until the pools hold
    // no further candidate.
    while horizontals.len() > 0 || verticals.len() >= 2
        invariant
            imgs == images@,
            distinct_ids(imgs),
            pool_from(imgs, imgs.len() as int, horizontals@, true),
            pool_from(imgs, imgs.len() as int, verticals@, false),
            distinct_ids(horizontals@),
            distinct_ids(verticals@),
            slide_h_ids(slides@).add(pool_ids(horizontals@)) == h_ids(imgs),
            slide_v_ids(slides@).add(pool_ids(verticals@)) == v_ids(imgs),
            forall|k: int| 0 <= k < slides@.len() ==> slide_wf(imgs, #[trigger] slides@[k]),
            slide_v_ids(slides@).len() % 2 == 0,
            slides@.len() == slide_h_ids(slides@).len() + slide_v_ids(slides@).len() / 2,
            h_ids(imgs).len() > 0 ==> slides@.len() >= 1 && slides@[0] is H,
        decreases horizontals@.len() + verticals@.len(),
    {
        let (best_score_h, best_image_h) = get_best_horizontal(
            &previous_tags,
            horizontals.as_slice(),
        );
        let (best_score_v, best_images_v) = get_best_vertical(&previous_tags, verticals.as_slice());
        let take_single = match (&best_image_h, &best_images_v) {
            (None, None) => {
                proof {
                    assert(false);
                }
                true
            },
            (Some(_), None) => true,
            (None, Some(_)) => false,
            (Some(_), Some(_)) => best_score_h >= best_score_v,
        };
        if take_single {
            let h = best_image_h.unwrap();
            let ghost s0 = slides@;
            let ghost hp0 = horizontals@;
            let hid = h.get_id();
            slides.push(FSlide::H { h: hid });
            previous_tags = clone_tags(h.get_tags());
            proof {
                lemma_slide_ids_push(s0, FSlide::H { h: hid });
                assert(exists|i: int| 0 <= i < hp0.len() && hp0[i]@ == h@);
                lemma_pool_member_in_images(imgs, imgs.len() as int, hp0, true, h@);
                assert(has_horizontal(imgs, hid));
                let i = choose|i: int| 0 <= i < hp0.len() && hp0[i]@ == h@;
                assert(hp0[i]@.id == hid);
            }
            remove_by_id(&mut horizontals, hid);
            proof {
                let i = choose|i: int|
                    0 <= i < hp0.len() && hp0[i]@.id == hid && horizontals@ == hp0.remove(i);
                lemma_ids_remove(hp0, i);
                lemma_pool_remove_preserves(imgs, imgs.len() as int, hp0, i, true);
                assert(slide_h_ids(slides@).add(pool_ids(horizontals@)) =~= h_ids(imgs));
                assert(slide_v_ids(slides@).add(pool_ids(verticals@)) =~= v_ids(imgs));
                assert forall|k: int|
                    0 <= k < slides@.len() implies slide_wf(imgs, #[trigger] slides@[k]) by {
                    if k < s0.len() {
                        assert(slides@[k] == s0[k]);
                    } else {
                        assert(slides@[k] == (FSlide::H { h: hid }));
                    }
                }
                assert(slides@.len() == slide_h_ids(slides@).len() + slide_v_ids(slides@).len()
                    / 2);
            }
        } else {
            let (v0, v1) = best_images_v.unwrap();
            let ghost s0 = slides@;
            let ghost vp0 = verticals@;
            let vid = v0.get_id();
            let ovid = v1.get_id();
            slides.push(FSlide::V { v: vid, other_v: ovid });
            previous_tags = get_union(v0.get_tags(), v1.get_tags());
            proof {
                lemma_slide_ids_push(s0, FSlide::V { v: vid, other_v: ovid });
                let j = choose|j: int| 1 <= j < vp0.len() && v1@ == vp0[j]@;
                assert(vp0[0]@ == v0@);
                assert(vid != ovid);
                assert(exists|i: int| 0 <= i < vp0.len() && vp0[i]@ == v0@);
                assert(exists|i: int| 0 <= i < vp0.len() && vp0[i]@ == v1@);
                lemma_pool_member_in_images(imgs, imgs.len() as int, vp0, false, v0@);
                lemma_pool_member_in_images(imgs, imgs.len() as int, vp0, false, v1@);
                assert(has_vertical(imgs, vid) && has_vertical(imgs, ovid));
                assert(vp0[0]@.id == vid);
            }
            remove_by_id(&mut verticals, vid);
            let ghost vp1 = verticals@;
            proof {
                let i0 = choose|i: int|
                    0 <= i < vp0.len() && vp0[i]@.id == vid && vp1 == vp0.remove(i);
                lemma_ids_remove(vp0, i0);
                lemma_pool_remove_preserves(imgs, imgs.len() as int, vp0, i0, false);
                assert(pool_ids(vp0) == pool_ids(vp1).insert(vid));
                vp0.remove_ensures(i0);
                let j = choose|j: int| 1 <= j < vp0.len() && v1@ == vp0[j]@;
                assert(vp0[j]@.id == ovid);
                assert(vp0[i0]@.id == vid);
                assert(i0 != j);
                if j < i0 {
                    assert(vp1[j] == vp0[j]);
                    assert(vp1[j]@.id == ovid);
                } else {
                    assert(vp1[j - 1] == vp0[j]);
                    assert(vp1[j - 1]@.id == ovid);
                }
                assert(exists|i: int| 0 <= i < vp1.len() && vp1[i]@.id == ovid);
            }
            remove_by_id(&mut verticals, ovid);
            proof {
                let i1 = choose|i: int|
                    0 <= i < vp1.len() && vp1[i]@.id == ovid && verticals@ == vp1.remove(i);
                lemma_ids_remove(vp1, i1);
                lemma_pool_remove_preserves(imgs, imgs.len() as int, vp1, i1, false);
                assert(pool_ids(vp1) == pool_ids(verticals@).insert(ovid));
                assert(slide_h_ids(slides@).add(pool_ids(horizontals@)) =~= h_ids(imgs));
                assert(slide_v_ids(slides@).add(pool_ids(verticals@)) =~= v_ids(imgs));
                assert forall|k: int|
                    0 <= k < slides@.len() implies slide_wf(imgs, #[trigger] slides@[k]) by {
                    if k < s0.len() {
                        assert(slides@[k] == s0[k]);
                    } else {
                        assert(slides@[k] == (FSlide::V { v: vid, other_v: ovid }));
                    }
                }
                assert(slide_v_ids(slides@).len() % 2 == 0);
                assert(slides@.len() == slide_h_ids(slides@).len() + slide_v_ids(slides@).len()
                    / 2);
            }
        }
    }
    proof {
        assert(pool_ids(horizontals@) =~= Multiset::<usize>::empty());
        assert(slide_h_ids(slides@) =~= h_ids(imgs));
        lemma_pool_ids_len(verticals@);
        let rest = pool_ids(verticals@);
        assert(slide_v_ids(slides@).add(rest) == v_ids(imgs));
        assert(v_ids(imgs).len() == slide_v_ids(slides@).len() + rest.len());
        assert(rest.len() <= 1);
        assert(rest.len() == v_ids(imgs).len() % 2);
        assert(slide_h_ids(slides@).len() == h_ids(imgs).len());
        assert(slides@.len() == h_ids(imgs).len() + v_ids(imgs).len() / 2);
        assert(valid_solution(imgs, slides@));
    }
    slides
}

/// The input split into successive chunks of the given size; the last chunk
/// may be shorter. A chunk size of zero yields no chunks.
pub open spec fn chunks_of(images: Seq<Image>, chunk_size: nat) -> Seq<Seq<Image>>
    decreases images.len(),
{
    if chunk_size == 0 || images.len() == 0 {
        Seq::empty()
    } else if images.len() <= chunk_size {
        seq![images]
    } else {
        seq![images.take(chunk_size as int)] + chunks_of(
            images.skip(chunk_size as int),
            chunk_size,
        )
    }
}

/// A chunk size no smaller than the input leaves the input whole: splitting
/// degenerates to a single chunk, and to no chunk at all for an empty input.
pub proof fn lemma_chunks_whole(images: Seq<Image>, chunk_size: nat)
    requires
        chunk_size >= 1,
    ensures
        1 <= images.len() <= chunk_size ==> chunks_of(images, chunk_size) =~= seq![images],
        images.len() == 0 ==> chunks_of(images, chunk_size) =~= Seq::<Seq<Image>>::empty(),
{
}

/// The chunks of an input concatenate back to the input itself.
pub proof fn lemma_chunks_flatten(images: Seq<Image>, chunk_size: nat)
    requires
        chunk_size >= 1,
    ensures
        chunks_of(images, chunk_size).flatten() =~= images,
    decreases images.len(),
{
    if images.len() == 0 {
    } else if images.len() <= chunk_size {
        chunks_of(images, chunk_size).lemma_flatten_one_element();
    } else {
        let head = seq![images.take(chunk_size as int)];
        let tail = chunks_of(images.skip(chunk_size as int), chunk_size);
        lemma_chunks_flatten(images.skip(chunk_size as int), chunk_size);
        lemma_flatten_concat(head, tail);
        head.lemma_flatten_one_element();
        assert(images.take(chunk_size as int) + images.skip(chunk_size as int) =~= images);
    }
}

/// Chunked solving covers the whole input: across the chunks, every
/// horizontal image is placed exactly once, and every vertical image is
/// placed exactly once, but for at most one left unplaced per chunk.
pub proof fn lemma_chunked_coverage(
    images: Seq<Image>,
    outs: Seq<Seq<FSlide>>,
    slides: Seq<FSlide>,
    chunk_size: nat,
)
    requires
        chunk_size >= 1,
        outs.len() == chunks_of(images, chunk_size).len(),
        forall|m: int|
            0 <= m < outs.len() ==> valid_solution(
                chunks_of(images, chunk_size)[m],
                #[trigger] outs[m],
            ),
        slides == outs.flatten(),
    ensures
        slide_h_ids(slides) == h_ids(images),
        exists|rest: Multiset<usize>|
            slide_v_ids(slides).add(rest) == v_ids(images) && rest.len() <= chunks_of(
                images,
                chunk_size,
            ).len(),
{
    lemma_concat_coverage(chunks_of(images, chunk_size), outs);
    lemma_chunks_flatten(images, chunk_size);
    let chunks = chunks_of(images, chunk_size);
    let rest = choose|rest: Multiset<usize>|
        slide_v_ids(outs.flatten()).add(rest) == v_ids(chunks.flatten()) && rest.len()
            <= chunks.len();
    assert(slide_v_ids(slides).add(rest) == v_ids(images) && rest.len() <= chunks.len());
}

/// With a chunk size no smaller than the input, chunked solving owes the
/// whole input exactly what one sequencer run owes it: the concatenation
/// over the single chunk is a valid solution for the whole input.
pub proof fn lemma_whole_chunk_solution(
    images: Seq<Image>,
    outs: Seq<Seq<FSlide>>,
    slides: Seq<FSlide>,
    chunk_size: nat,
)
    requires
        1 <= images.len() <= chunk_size,
        outs.len() == chunks_of(images, chunk_size).len(),
        forall|m: int|
            0 <= m < outs.len() ==> valid_solution(
                chunks_of(images, chunk_size)[m],
                #[trigger] outs[m],
            ),
        slides == outs.flatten(),
    ensures
        valid_solution(images, slides),
{
    lemma_chunks_whole(images, chunk_size);
    assert(chunks_of(images, chunk_size) =~= seq![images]);
    assert(outs.len() == 1);
    assert(valid_solution(images, outs[0]));
    outs.lemma_flatten_one_element();
    assert(outs.first() == outs[0]);
    assert(slides == outs[0]);
}

/// Arrange the images into slides chunk by chunk: the input is split into
/// successive chunks of `chunk_size` images, each chunk is sequenced on its
/// own with no tag continuity across chunks, and the per-chunk sequences are
/// concatenated in chunk order.
pub fn solve_chunked(images: &[Image], chunk_size: usize) -> (slides: Vec<FSlide>)
    requires
        chunk_size >= 1,
        distinct_ids(images@),
    ensures
        exists|outs: Seq<Seq<FSlide>>|
            outs.len() == chunks_of(images@, chunk_size as nat).len() && (forall|m: int|
                0 <= m < outs.len() ==> valid_solution(
                    chunks_of(images@, chunk_size as nat)[m],
                    #[trigger] outs[m],
                )) && slides@ == outs.flatten(),
{
    let ghost imgs = images@;
    let ghost k = chunk_size as nat;
    let mut slides: Vec<FSlide> = Vec::new();
    let ghost mut outs: Seq<Seq<FSlide>> = Seq::empty();
    let ghost mut done: Seq<Seq<Image>> = Seq::empty();
    proof {
        assert(imgs.skip(0) =~= imgs);
        assert(chunks_of(imgs, k) =~= done + chunks_of(imgs.skip(0), k));
    }
    let mut i: usize = 0;
    while i < images.len()
        invariant
            imgs == images@,
            distinct_ids(imgs),
            k == chunk_size as nat,
            k >= 1,
            0 <= i <= imgs.len(),
            chunks_of(imgs, k) == done + chunks_of(imgs.skip(i as int), k),
            outs.len() == done.len(),
            forall|m: int| 0 <= m < outs.len() ==> valid_solution(done[m], #[trigger] outs[m]),
            slides@ == outs.flatten(),
        decreases imgs.len() - i,
    {
        let remaining = images.len() - i;
        let step = if chunk_size < remaining {
            chunk_size
        } else {
            remaining
        };
        let end = i + step;
        let chunk = &images[i..end];
        proof {
            assert forall|a: int, b: int| 0 <= a < b < chunk@.len() implies chunk@[a]@.id
                != chunk@[b]@.id by {
                assert(chunk@[a] == imgs[i + a]);
                assert(chunk@[b] == imgs[i + b]);
            }
            assert(distinct_ids(chunk@));
        }
        let out = solve(chunk);
        let ghost out_view = out@;
        let mut out_vec = out;
        slides.append(&mut out_vec);
        proof {
            let suffix = imgs.skip(i as int);
            if imgs.len() - i <= k {
                assert(end == imgs.len());
                assert(suffix =~= imgs.subrange(i as int, end as int));
                assert(chunks_of(suffix, k) =~= seq![imgs.subrange(i as int, end as int)]
                    + chunks_of(imgs.skip(end as int), k));
            } else {
                assert(suffix.take(k as int) =~= imgs.subrange(i as int, end as int));
                assert(suffix.skip(k as int) =~= imgs.skip(end as int));
                assert(chunks_of(suffix, k) =~= seq![imgs.subrange(i as int, end as int)]
                    + chunks_of(imgs.skip(end as int), k));
            }
            outs.lemma_flatten_push(out_view);
            outs = outs.push(out_view);
            done = done.push(imgs.subrange(i as int, end as int));
            assert(chunks_of(imgs, k) =~= done + chunks_of(imgs.skip(end as int), k));
            assert(chunk@ == imgs.subrange(i as int, end as int));
            assert forall|m: int|
                0 <= m < outs.len() implies valid_solution(done[m], #[trigger] outs[m]) by {
                if m < outs.len() - 1 {
                    assert(outs[m] == outs.drop_last()[m]);
                    assert(done[m] == done.drop_last()[m]);
                }
            }
        }
        i = end;
    }
    proof {
        assert(imgs.skip(i as int).len() == 0);
        assert(chunks_of(imgs.skip(i as int), k) =~= Seq::<Seq<Image>>::empty());
        assert(chunks_of(imgs, k) =~= done);
        assert(outs.len() == chunks_of(imgs, k).len() && (forall|m: int|
            0 <= m < outs.len() ==> valid_solution(chunks_of(imgs, k)[m], #[trigger] outs[m]))
            && slides@ == outs.flatten());
    }
    slides
}

} // verus!
