//! The mathematical model of the working pools and of the output sequence.
//!
//! The sequencer's central guarantee is conservation: the identifiers emitted
//! on slides, together with those still in the pools, are exactly the
//! identifiers of the input, counted with multiplicity. These spec functions
//! collect identifiers into multisets; the lemmas track them through the
//! pushes and removals the sequencer performs.

use vstd::prelude::*;
use vstd::multiset::Multiset;
use crate::image::Image;
use crate::image::ImageView;
use crate::slide::FSlide;

verus! {

/// The identifiers of all images of a pool, with multiplicity.
pub open spec fn pool_ids(pool: Seq<Image>) -> Multiset<usize>
    decreases pool.len(),
{
    if pool.len() == 0 {
        Multiset::empty()
    } else {
        pool_ids(pool.drop_last()).insert(pool.last()@.id)
    }
}

/// The identifiers of the horizontal images of a pool, with multiplicity.
pub open spec fn h_ids(pool: Seq<Image>) -> Multiset<usize>
    decreases pool.len(),
{
    if pool.len() == 0 {
        Multiset::empty()
    } else if pool.last()@.horizontal {
        h_ids(pool.drop_last()).insert(pool.last()@.id)
    } else {
        h_ids(pool.drop_last())
    }
}

/// The identifiers of the vertical images of a pool, with multiplicity.
pub open spec fn v_ids(pool: Seq<Image>) -> Multiset<usize>
    decreases pool.len(),
{
    if pool.len() == 0 {
        Multiset::empty()
    } else if pool.last()@.horizontal {
        v_ids(pool.drop_last())
    } else {
        v_ids(pool.drop_last()).insert(pool.last()@.id)
    }
}

/// The identifiers one slide places, with multiplicity.
pub open spec fn slide_ids(s: FSlide) -> Multiset<usize> {
    match s {
        FSlide::H { h } => Multiset::empty().insert(h),
        FSlide::V { v, other_v } => Multiset::empty().insert(v).insert(other_v),
    }
}

/// The identifiers placed on single slides of a sequence, with multiplicity.
pub open spec fn slide_h_ids(slides: Seq<FSlide>) -> Multiset<usize>
    decreases slides.len(),
{
    if slides.len() == 0 {
        Multiset::empty()
    } else {
        slide_h_ids(slides.drop_last()).add(
            match slides.last() {
                FSlide::H { h } => Multiset::empty().insert(h),
                FSlide::V { .. } => Multiset::empty(),
            },
        )
    }
}

/// The identifiers placed on pair slides of a sequence, with multiplicity.
pub open spec fn slide_v_ids(slides: Seq<FSlide>) -> Multiset<usize>
    decreases slides.len(),
{
    if slides.len() == 0 {
        Multiset::empty()
    } else {
        slide_v_ids(slides.drop_last()).add(
            match slides.last() {
                FSlide::H { .. } => Multiset::empty(),
                FSlide::V { v, other_v } => Multiset::empty().insert(v).insert(other_v),
            },
        )
    }
}

/// No two images of the sequence carry the same identifier.
pub open spec fn distinct_ids(pool: Seq<Image>) -> bool {
    forall|i: int, j: int|
        0 <= i < j < pool.len() ==> pool[i]@.id != pool[j]@.id
}

/// Every image of a pool has the given orientation and appears, by view,
/// among the first `n` images of the input sequence.
pub open spec fn pool_from(images: Seq<Image>, n: int, pool: Seq<Image>, horizontal: bool) -> bool {
    forall|k: int|
        0 <= k < pool.len() ==> (#[trigger] pool[k])@.horizontal == horizontal && exists|m: int|
            0 <= m < n && images[m]@ == pool[k]@
}

/// Some horizontal image of the pool carries the identifier.
pub open spec fn has_horizontal(pool: Seq<Image>, id: usize) -> bool {
    exists|i: int| 0 <= i < pool.len() && pool[i]@.horizontal && pool[i]@.id == id
}

/// Some vertical image of the pool carries the identifier.
pub open spec fn has_vertical(pool: Seq<Image>, id: usize) -> bool {
    exists|i: int| 0 <= i < pool.len() && !pool[i]@.horizontal && pool[i]@.id == id
}

/// A slide is well formed for an input: a single slide shows a horizontal
/// image of the input, a pair slide shows two distinct vertical images of it.
pub open spec fn slide_wf(pool: Seq<Image>, s: FSlide) -> bool {
    match s {
        FSlide::H { h } => has_horizontal(pool, h),
        FSlide::V { v, other_v } => v != other_v && has_vertical(pool, v) && has_vertical(
            pool,
            other_v,
        ),
    }
}

/// What the sequencer owes for one input pool: every slide well formed, the
/// horizontal identifiers placed exactly once each, the vertical identifiers
/// placed exactly once each but for one left over when their count is odd,
/// one slide for each horizontal image and for each vertical pair, and a
/// single slide first whenever any horizontal image exists.
pub open spec fn valid_solution(pool: Seq<Image>, slides: Seq<FSlide>) -> bool {
    &&& forall|k: int| 0 <= k < slides.len() ==> slide_wf(pool, #[trigger] slides[k])
    &&& slide_h_ids(slides) == h_ids(pool)
    &&& exists|rest: Multiset<usize>|
        slide_v_ids(slides).add(rest) == v_ids(pool) && rest.len() == v_ids(pool).len() % 2
    &&& slides.len() == h_ids(pool).len() + v_ids(pool).len() / 2
    &&& h_ids(pool).len() > 0 ==> slides.len() >= 1 && slides[0] is H
}

/// Appending an image to a pool inserts its identifier into the pool's
/// multisets.
pub proof fn lemma_ids_push(pool: Seq<Image>, img: Image)
    ensures
        pool_ids(pool.push(img)) == pool_ids(pool).insert(img@.id),
        img@.horizontal ==> h_ids(pool.push(img)) == h_ids(pool).insert(img@.id) && v_ids(
            pool.push(img),
        ) == v_ids(pool),
        !img@.horizontal ==> v_ids(pool.push(img)) == v_ids(pool).insert(img@.id) && h_ids(
            pool.push(img),
        ) == h_ids(pool),
{
    assert(pool.push(img).drop_last() =~= pool);
    assert(pool.push(img).last() == img);
}

/// Appending a slide to the output adds the identifiers it places.
pub proof fn lemma_slide_ids_push(slides: Seq<FSlide>, s: FSlide)
    ensures
        s is H ==> slide_h_ids(slides.push(s)) == slide_h_ids(slides).add(slide_ids(s))
            && slide_v_ids(slides.push(s)) == slide_v_ids(slides),
        s is V ==> slide_v_ids(slides.push(s)) == slide_v_ids(slides).add(slide_ids(s))
            && slide_h_ids(slides.push(s)) == slide_h_ids(slides),
{
    assert(slides.push(s).drop_last() =~= slides);
    assert(slides.push(s).last() == s);
    assert(slide_h_ids(slides).add(Multiset::empty()) =~= slide_h_ids(slides));
    assert(slide_v_ids(slides).add(Multiset::empty()) =~= slide_v_ids(slides));
}

/// A pool holds as many identifiers as images.
pub proof fn lemma_pool_ids_len(pool: Seq<Image>)
    ensures
        pool_ids(pool).len() == pool.len(),
    decreases pool.len(),
{
    if pool.len() > 0 {
        lemma_pool_ids_len(pool.drop_last());
    }
}

/// Removing the image at an index removes its identifier from the pool's
/// multisets: the pool's multisets are those of the shortened pool with the
/// identifier put back.
pub proof fn lemma_ids_remove(pool: Seq<Image>, i: int)
    requires
        0 <= i < pool.len(),
    ensures
        pool_ids(pool) == pool_ids(pool.remove(i)).insert(pool[i]@.id),
        pool[i]@.horizontal ==> h_ids(pool) == h_ids(pool.remove(i)).insert(pool[i]@.id)
            && v_ids(pool.remove(i)) == v_ids(pool),
        !pool[i]@.horizontal ==> v_ids(pool) == v_ids(pool.remove(i)).insert(pool[i]@.id)
            && h_ids(pool.remove(i)) == h_ids(pool),
    decreases pool.len(),
{
    if i == pool.len() - 1 {
        assert(pool.remove(i) =~= pool.drop_last());
    } else {
        lemma_ids_remove(pool.drop_last(), i);
        assert(pool.remove(i).drop_last() =~= pool.drop_last().remove(i));
        assert(pool.remove(i).last() == pool.last());
        assert(pool.drop_last()[i] == pool[i]);
        let a = pool[i]@.id;
        let b = pool.last()@.id;
        let dr = pool.drop_last().remove(i);
        assert(pool_ids(dr).insert(a).insert(b) =~= pool_ids(dr).insert(b).insert(a));
        if pool[i]@.horizontal && pool.last()@.horizontal {
            assert(h_ids(dr).insert(a).insert(b) =~= h_ids(dr).insert(b).insert(a));
        }
        if !pool[i]@.horizontal && !pool.last()@.horizontal {
            assert(v_ids(dr).insert(a).insert(b) =~= v_ids(dr).insert(b).insert(a));
        }
    }
}

/// Concatenating two slide sequences adds their multisets of placed
/// identifiers.
pub proof fn lemma_slide_ids_concat(s1: Seq<FSlide>, s2: Seq<FSlide>)
    ensures
        slide_h_ids(s1 + s2) == slide_h_ids(s1).add(slide_h_ids(s2)),
        slide_v_ids(s1 + s2) == slide_v_ids(s1).add(slide_v_ids(s2)),
    decreases s2.len(),
{
    if s2.len() == 0 {
        assert(s1 + s2 =~= s1);
        assert(slide_h_ids(s1).add(slide_h_ids(s2)) =~= slide_h_ids(s1));
        assert(slide_v_ids(s1).add(slide_v_ids(s2)) =~= slide_v_ids(s1));
    } else {
        lemma_slide_ids_concat(s1, s2.drop_last());
        assert((s1 + s2).drop_last() =~= s1 + s2.drop_last());
        assert((s1 + s2).last() == s2.last());
        assert(slide_h_ids(s1 + s2) =~= slide_h_ids(s1).add(slide_h_ids(s2)));
        assert(slide_v_ids(s1 + s2) =~= slide_v_ids(s1).add(slide_v_ids(s2)));
    }
}

/// Concatenating two pools adds their multisets of identifiers.
pub proof fn lemma_pool_concat(p1: Seq<Image>, p2: Seq<Image>)
    ensures
        h_ids(p1 + p2) == h_ids(p1).add(h_ids(p2)),
        v_ids(p1 + p2) == v_ids(p1).add(v_ids(p2)),
    decreases p2.len(),
{
    if p2.len() == 0 {
        assert(p1 + p2 =~= p1);
        assert(h_ids(p1).add(h_ids(p2)) =~= h_ids(p1));
        assert(v_ids(p1).add(v_ids(p2)) =~= v_ids(p1));
    } else {
        lemma_pool_concat(p1, p2.drop_last());
        assert((p1 + p2).drop_last() =~= p1 + p2.drop_last());
        assert((p1 + p2).last() == p2.last());
        assert(h_ids(p1 + p2) =~= h_ids(p1).add(h_ids(p2)));
        assert(v_ids(p1 + p2) =~= v_ids(p1).add(v_ids(p2)));
    }
}

/// Valid per-chunk outputs concatenate to a valid whole: across the chunks,
/// every horizontal identifier is placed exactly once, and the vertical
/// identifiers are placed exactly once each, but for at most one leftover
/// vertical image per chunk.
pub proof fn lemma_concat_coverage(chunks: Seq<Seq<Image>>, outs: Seq<Seq<FSlide>>)
    requires
        outs.len() == chunks.len(),
        forall|m: int| 0 <= m < outs.len() ==> valid_solution(chunks[m], #[trigger] outs[m]),
    ensures
        slide_h_ids(outs.flatten()) == h_ids(chunks.flatten()),
        exists|rest: Multiset<usize>|
            slide_v_ids(outs.flatten()).add(rest) == v_ids(chunks.flatten()) && rest.len()
                <= chunks.len(),
    decreases outs.len(),
{
    if outs.len() == 0 {
        assert(outs.flatten() =~= Seq::<FSlide>::empty());
        assert(chunks.flatten() =~= Seq::<Image>::empty());
        assert(slide_v_ids(outs.flatten()).add(Multiset::<usize>::empty()) =~= v_ids(
            chunks.flatten(),
        ));
        assert(Multiset::<usize>::empty().len() <= chunks.len());
    } else {
        assert forall|m: int|
            0 <= m < outs.drop_last().len() implies valid_solution(
            chunks.drop_last()[m],
            #[trigger] outs.drop_last()[m],
        ) by {
            assert(outs.drop_last()[m] == outs[m]);
            assert(chunks.drop_last()[m] == chunks[m]);
        }
        lemma_concat_coverage(chunks.drop_last(), outs.drop_last());
        outs.drop_last().lemma_flatten_push(outs.last());
        assert(outs.drop_last().push(outs.last()) =~= outs);
        assert(outs.flatten() == outs.drop_last().flatten() + outs.last());
        chunks.drop_last().lemma_flatten_push(chunks.last());
        assert(chunks.drop_last().push(chunks.last()) =~= chunks);
        assert(chunks.flatten() == chunks.drop_last().flatten() + chunks.last());
        lemma_slide_ids_concat(outs.drop_last().flatten(), outs.last());
        lemma_pool_concat(chunks.drop_last().flatten(), chunks.last());
        assert(valid_solution(chunks.last(), outs.last()));
        let rest1 = choose|rest: Multiset<usize>|
            slide_v_ids(outs.drop_last().flatten()).add(rest) == v_ids(
                chunks.drop_last().flatten(),
            ) && rest.len() <= chunks.drop_last().len();
        let rest2 = choose|rest: Multiset<usize>|
            slide_v_ids(outs.last()).add(rest) == v_ids(chunks.last()) && rest.len() == v_ids(
                chunks.last(),
            ).len() % 2;
        assert(slide_h_ids(outs.flatten()) =~= h_ids(chunks.flatten()));
        assert(slide_v_ids(outs.flatten()).add(rest1.add(rest2)) =~= v_ids(chunks.flatten()));
        assert(rest1.add(rest2).len() <= chunks.len());
    }
}

/// A pool of a single image can only be arranged trivially: one single slide
/// shows the one horizontal image, while a lone vertical image has no partner
/// and yields the empty sequence. In particular a chunk size of one turns
/// every horizontal image into its own slide and drops every vertical image.
pub proof fn lemma_singleton_pool(pool: Seq<Image>, slides: Seq<FSlide>)
    requires
        pool.len() == 1,
        valid_solution(pool, slides),
    ensures
        pool[0]@.horizontal ==> slides =~= seq![FSlide::H { h: pool[0]@.id }],
        !pool[0]@.horizontal ==> slides =~= Seq::<FSlide>::empty(),
{
    assert(pool.drop_last().len() == 0);
    assert(h_ids(pool.drop_last()) =~= Multiset::<usize>::empty());
    assert(v_ids(pool.drop_last()) =~= Multiset::<usize>::empty());
    assert(pool.last() == pool[0]);
    if pool[0]@.horizontal {
        assert(h_ids(pool) =~= Multiset::empty().insert(pool[0]@.id));
        assert(v_ids(pool) =~= Multiset::<usize>::empty());
        assert(v_ids(pool).len() == 0);
        let rest = choose|rest: Multiset<usize>|
            slide_v_ids(slides).add(rest) == v_ids(pool) && rest.len() == v_ids(pool).len() % 2;
        assert(slide_v_ids(slides).len() == 0);
        assert(slide_h_ids(slides).len() == 1);
        assert(slides.len() == 1);
        assert(slides.drop_last().len() == 0);
        assert(slide_h_ids(slides.drop_last()) =~= Multiset::<usize>::empty());
        assert(slide_v_ids(slides.drop_last()) =~= Multiset::<usize>::empty());
        assert(slides.last() == slides[0]);
        match slides[0] {
            FSlide::H { h } => {
                assert(slide_h_ids(slides) =~= Multiset::empty().insert(h));
                assert(slide_h_ids(slides).count(h) == 1);
                assert(h_ids(pool).count(h) == 1);
                assert(h == pool[0]@.id);
                assert(slides =~= seq![FSlide::H { h: pool[0]@.id }]);
            },
            FSlide::V { v, other_v } => {
                assert(slide_v_ids(slides) =~= Multiset::empty().insert(v).insert(other_v));
                assert(slide_v_ids(slides).len() == 2);
                assert(false);
            },
        }
    } else {
        assert(h_ids(pool) =~= Multiset::<usize>::empty());
        assert(v_ids(pool) =~= Multiset::empty().insert(pool[0]@.id));
        assert(slide_h_ids(slides).len() == 0);
        assert(v_ids(pool).len() == 1);
        assert(slides.len() == 0);
        assert(slides =~= Seq::<FSlide>::empty());
    }
}

/// A pool drawn from the first `n1` images is also drawn from the first `n2`
/// when `n1 <= n2`.
pub proof fn lemma_pool_from_mono(
    images: Seq<Image>,
    n1: int,
    n2: int,
    pool: Seq<Image>,
    horizontal: bool,
)
    requires
        n1 <= n2,
        pool_from(images, n1, pool, horizontal),
    ensures
        pool_from(images, n2, pool, horizontal),
{
    assert forall|k: int|
        0 <= k < pool.len() implies (#[trigger] pool[k])@.horizontal == horizontal && exists|m: int|
        0 <= m < n2 && images[m]@ == pool[k]@ by {
        let m = choose|m: int| 0 <= m < n1 && images[m]@ == pool[k]@;
        assert(0 <= m < n2 && images[m]@ == pool[k]@);
    }
}

/// Appending the next image of the input to the pool of its orientation keeps
/// the pool drawn from the input and its identifiers distinct.
pub proof fn lemma_pool_push(
    images: Seq<Image>,
    idx: int,
    pool: Seq<Image>,
    img: Image,
    horizontal: bool,
)
    requires
        0 <= idx < images.len(),
        distinct_ids(images),
        pool_from(images, idx, pool, horizontal),
        distinct_ids(pool),
        img@ == images[idx]@,
        img@.horizontal == horizontal,
    ensures
        pool_from(images, idx + 1, pool.push(img), horizontal),
        distinct_ids(pool.push(img)),
{
    let p = pool.push(img);
    assert forall|k: int|
        0 <= k < p.len() implies (#[trigger] p[k])@.horizontal == horizontal && exists|m: int|
        0 <= m < idx + 1 && images[m]@ == p[k]@ by {
        if k < pool.len() {
            assert(p[k] == pool[k]);
            let m = choose|m: int| 0 <= m < idx && images[m]@ == pool[k]@;
            assert(0 <= m < idx + 1 && images[m]@ == p[k]@);
        } else {
            assert(p[k] == img);
            assert(0 <= idx < idx + 1 && images[idx]@ == p[k]@);
        }
    }
    assert forall|k1: int, k2: int| 0 <= k1 < k2 < p.len() implies p[k1]@.id != p[k2]@.id by {
        assert(p[k1] == pool[k1]);
        if k2 < pool.len() {
            assert(p[k2] == pool[k2]);
        } else {
            assert(p[k2] == img);
            let m = choose|m: int| 0 <= m < idx && images[m]@ == pool[k1]@;
            assert(images[m]@.id != images[idx]@.id);
        }
    }
}

/// Removing an image from a pool keeps the pool drawn from the input and its
/// identifiers distinct.
pub proof fn lemma_pool_remove_preserves(
    images: Seq<Image>,
    n: int,
    pool: Seq<Image>,
    i: int,
    horizontal: bool,
)
    requires
        0 <= i < pool.len(),
        pool_from(images, n, pool, horizontal),
        distinct_ids(pool),
    ensures
        pool_from(images, n, pool.remove(i), horizontal),
        distinct_ids(pool.remove(i)),
{
    pool.remove_ensures(i);
    assert forall|k: int|
        0 <= k < pool.remove(i).len() implies (#[trigger] pool.remove(i)[k])@.horizontal
        == horizontal && exists|m: int| 0 <= m < n && images[m]@ == pool.remove(i)[k]@ by {
        let k0: int = if k < i {
            k
        } else {
            k + 1
        };
        assert(pool.remove(i)[k] == pool[k0]);
        let m = choose|m: int| 0 <= m < n && images[m]@ == pool[k0]@;
        assert(0 <= m < n && images[m]@ == pool.remove(i)[k]@);
    }
    assert(pool_from(images, n, pool.remove(i), horizontal));
    assert forall|k1: int, k2: int|
        0 <= k1 < k2 < pool.remove(i).len() implies pool.remove(i)[k1]@.id != pool.remove(
        i,
    )[k2]@.id by {
        if k1 < i {
            assert(pool.remove(i)[k1] == pool[k1]);
        } else {
            assert(pool.remove(i)[k1] == pool[k1 + 1]);
        }
        if k2 < i {
            assert(pool.remove(i)[k2] == pool[k2]);
        } else {
            assert(pool.remove(i)[k2] == pool[k2 + 1]);
        }
    }
}

/// An image seen in a pool drawn from the input stands, with its orientation
/// and identifier, in the input itself.
pub proof fn lemma_pool_member_in_images(
    images: Seq<Image>,
    n: int,
    pool: Seq<Image>,
    horizontal: bool,
    iv: ImageView,
)
    requires
        n <= images.len(),
        pool_from(images, n, pool, horizontal),
        exists|i: int| 0 <= i < pool.len() && pool[i]@ == iv,
    ensures
        horizontal ==> has_horizontal(images, iv.id),
        !horizontal ==> has_vertical(images, iv.id),
{
    let i = choose|i: int| 0 <= i < pool.len() && pool[i]@ == iv;
    let m = choose|m: int| 0 <= m < n && images[m]@ == pool[i]@;
    assert(0 <= m < images.len() && images[m]@.horizontal == horizontal && images[m]@.id == iv.id);
}

} // verus!
