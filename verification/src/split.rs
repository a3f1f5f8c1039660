use vstd::prelude::*;
use crate::error::PipelineError;
use crate::types::{ContourCrop, RectSize};

verus! {

/// The x coordinate, in the whole image, of the centre of the outer contour
/// of a crop: the centre cast with `as usize`, plus the crop offset.
pub open spec fn global_center_x(crop: ContourCrop) -> int {
    crop.contour_group.outer_center.x.spec_to_usize() + crop.offset.x
}

/// The crop goes to the left mask: its outer centre lies in the left half.
pub open spec fn goes_left(crop: ContourCrop, size: RectSize) -> bool {
    global_center_x(crop) < size.width / 2
}

/// The crops of `cs` whose centre lies in the left half, in their order.
pub open spec fn left_crops(cs: Seq<ContourCrop>, size: RectSize) -> Seq<ContourCrop>
    decreases cs.len(),
{
    if cs.len() == 0 {
        Seq::empty()
    } else if goes_left(cs.last(), size) {
        left_crops(cs.drop_last(), size).push(cs.last())
    } else {
        left_crops(cs.drop_last(), size)
    }
}

/// The crops of `cs` whose centre lies in the right half, in their order.
pub open spec fn right_crops(cs: Seq<ContourCrop>, size: RectSize) -> Seq<ContourCrop>
    decreases cs.len(),
{
    if cs.len() == 0 {
        Seq::empty()
    } else if !goes_left(cs.last(), size) {
        right_crops(cs.drop_last(), size).push(cs.last())
    } else {
        right_crops(cs.drop_last(), size)
    }
}

/// Some crop among the first `n` has an outer contour without points.
pub open spec fn has_empty_outer(cs: Seq<ContourCrop>, n: int) -> bool {
    exists|i: int| 0 <= i < n && #[trigger] cs[i].contour_group.outer.points@.len() == 0
}

/// Splits crops into two masks: a crop whose outer contour is centred in the
/// left half of the image goes left, every other crop goes right. Refuses a
/// crop whose outer contour has no points.
pub fn split_contours(contours: Vec<ContourCrop>, original_size: RectSize) -> (r: Result<Vec<Vec<ContourCrop>>, PipelineError>)
    requires
        forall|i: int|
            0 <= i < contours@.len() && !has_empty_outer(contours@, i + 1) ==> global_center_x(
                #[trigger] contours@[i],
            ) <= usize::MAX,
    ensures
        has_empty_outer(contours@, contours@.len() as int) ==> r == Err::<Vec<Vec<ContourCrop>>, PipelineError>(PipelineError::EmptyOuterContour),
        !has_empty_outer(contours@, contours@.len() as int) ==> (r matches Ok(halves) && halves@.len() == 2
            && halves@[0]@ == left_crops(contours@, original_size) && halves@[1]@ == right_crops(
            contours@,
            original_size,
        )),
        r matches Ok(halves) ==> halves@.len() == 2 && (forall|i: int|
            0 <= i < halves@[0]@.len() ==> (#[trigger] halves@[0]@[i]).contour_group.outer_center.x.spec_to_usize()
                + halves@[0]@[i].offset.x < original_size.width / 2) && (forall|i: int|
            0 <= i < halves@[1]@.len() ==> (#[trigger] halves@[1]@[i]).contour_group.outer_center.x.spec_to_usize()
                + halves@[1]@[i].offset.x >= original_size.width / 2) && halves@[0]@.to_multiset().add(
            halves@[1]@.to_multiset(),
        ) =~= contours@.to_multiset(),
        r matches Ok(halves) ==> halves@[0]@ == contours@.filter(
            |c: ContourCrop|
                c.contour_group.outer_center.x.spec_to_usize() + c.offset.x < original_size.width / 2,
        ) && halves@[1]@ == contours@.filter(
            |c: ContourCrop|
                c.contour_group.outer_center.x.spec_to_usize() + c.offset.x >= original_size.width / 2,
        ),
{
    let mid_x: usize = original_size.width / 2;
    let ghost all = contours@;
    let mut left: Vec<ContourCrop> = Vec::new();
    let mut right: Vec<ContourCrop> = Vec::new();
    for crop in it: contours
        invariant
            all == it.seq(),
            mid_x == original_size.width / 2,
            forall|i: int|
                0 <= i < all.len() && !has_empty_outer(all, i + 1) ==> global_center_x(
                    #[trigger] all[i],
                ) <= usize::MAX,
            !has_empty_outer(all, it.index() as int),
            left@ == left_crops(all.take(it.index() as int), original_size),
            right@ == right_crops(all.take(it.index() as int), original_size),
    {
        let ghost i: int = it.index() as int;
        assert(all[i] == crop);
        if crop.contour_group.outer.points.len() == 0 {
            assert(has_empty_outer(all, all.len() as int));
            return Err(PipelineError::EmptyOuterContour);
        }
        assert(!has_empty_outer(all, i + 1));
        assert(all.take(i + 1).drop_last() =~= all.take(i));
        let global_center_x: usize = crop.contour_group.outer_center.x.to_usize() + crop.offset.x;
        if global_center_x < mid_x {
            left.push(crop);
        } else {
            right.push(crop);
        }
    }
    assert(all.take(all.len() as int) =~= all);
    proof {
        lemma_split_partition(all, original_size);
        lemma_split_filters(all, original_size);
    }
    let mut halves: Vec<Vec<ContourCrop>> = Vec::new();
    halves.push(left);
    halves.push(right);
    Ok(halves)
}

/// A crop goes to the left mask exactly when the centre of its outer contour,
/// cast with `as usize`, plus its horizontal offset lies left of the middle
/// column; its vertical offset plays no part.
pub proof fn lemma_goes_left(crop: ContourCrop, other: ContourCrop, size: RectSize)
    ensures
        goes_left(crop, size) <==> crop.contour_group.outer_center.x.spec_to_usize() + crop.offset.x
            < size.width / 2,
        other.contour_group.outer_center.x == crop.contour_group.outer_center.x && other.offset.x
            == crop.offset.x ==> goes_left(other, size) == goes_left(crop, size),
{
}

/// The left mask holds the crops of the input, in their order, whose outer
/// centre (cast with `as usize`) plus horizontal offset lies left of the
/// middle column; the right mask holds the others, in their order.
pub proof fn lemma_split_filters(cs: Seq<ContourCrop>, size: RectSize)
    ensures
        left_crops(cs, size) == cs.filter(
            |c: ContourCrop|
                c.contour_group.outer_center.x.spec_to_usize() + c.offset.x < size.width / 2,
        ),
        right_crops(cs, size) == cs.filter(
            |c: ContourCrop|
                c.contour_group.outer_center.x.spec_to_usize() + c.offset.x >= size.width / 2,
        ),
    decreases cs.len(),
{
    reveal(Seq::filter);
    if cs.len() > 0 {
        lemma_split_filters(cs.drop_last(), size);
    }
}

/// Splitting sends each crop to exactly one mask: the two halves together
/// hold the crops of the input, each as often as the input does.
pub proof fn lemma_split_partition(cs: Seq<ContourCrop>, size: RectSize)
    ensures
        left_crops(cs, size).to_multiset().add(right_crops(cs, size).to_multiset())
            =~= cs.to_multiset(),
        forall|i: int| 0 <= i < left_crops(cs, size).len() ==> goes_left(#[trigger] left_crops(cs, size)[i], size),
        forall|i: int| 0 <= i < right_crops(cs, size).len() ==> !goes_left(#[trigger] right_crops(cs, size)[i], size),
    decreases cs.len(),
{
    broadcast use vstd::seq_lib::group_to_multiset_ensures;
    if cs.len() > 0 {
        let init = cs.drop_last();
        lemma_split_partition(init, size);
        assert(cs =~= init.push(cs.last()));
        let l = left_crops(init, size);
        let r = right_crops(init, size);
        if goes_left(cs.last(), size) {
            assert forall|i: int| 0 <= i < l.push(cs.last()).len() implies goes_left(#[trigger] l.push(cs.last())[i], size) by {
                if i < l.len() {
                    assert(l.push(cs.last())[i] == l[i]);
                }
            }
        } else {
            assert forall|i: int| 0 <= i < r.push(cs.last()).len() implies !goes_left(#[trigger] r.push(cs.last())[i], size) by {
                if i < r.len() {
                    assert(r.push(cs.last())[i] == r[i]);
                }
            }
        }
    }
}

} // verus!
