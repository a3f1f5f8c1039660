use vstd::prelude::*;
use itertools::Itertools;
use crate::configuration::Configuration;
use crate::error::PipelineError;
use crate::preprocess::{
    CropLayout, layout_matches, crop_end, crop_extent, crop_fits_i32, crop_start, lemma_crop_bounds, parse_label, spec_parse_label,
};
use crate::types::{Contour, ContourCrop, RectSize, SuPoint};

verus! {

/// Builds and sends the mask tensors of images, with one configuration.
pub struct Pipeline {
    pub configuration: Configuration,
}

/// The positions, in order, of the entries of `items` named `name`.
pub open spec fn named_positions(items: Seq<(String, usize)>, name: Seq<char>) -> Seq<usize>
    decreases items.len(),
{
    if items.len() == 0 {
        Seq::empty()
    } else {
        let rest = named_positions(items.drop_last(), name);
        if items.last().0@ == name {
            rest.push(items.last().1)
        } else {
            rest
        }
    }
}

/// `Itertools::into_group_map_by` on `(name, position)` pairs, keyed by the
/// name, with each group's pairs reduced to their positions. The contract
/// claims: every name that occurs gets one group, each group holds the
/// positions carrying its name in input order. The order of the groups is
/// that of a `HashMap` walk and is not stated.
#[verifier::external_body]
fn group_by_name(items: Vec<(String, usize)>) -> (r: Vec<(String, Vec<usize>)>)
    ensures
        forall|g: int, h: int| 0 <= g < h < r@.len() ==> #[trigger] r@[g].0@ != #[trigger] r@[h].0@,
        forall|g: int| 0 <= g < r@.len() ==> #[trigger] r@[g].1@ == named_positions(items@, r@[g].0@),
        forall|g: int| 0 <= g < r@.len() ==> #[trigger] r@[g].1@.len() > 0,
        forall|name: Seq<char>| #[trigger] named_positions(items@, name).len() > 0 ==> exists|g: int| 0 <= g < r@.len() && #[trigger] r@[g].0@ == name,
{
    items.into_iter().into_group_map_by(|item| item.0.clone()).into_iter().map(
        |(name, group)| (name, group.into_iter().map(|item| item.1).collect()),
    ).collect()
}


/// Contours of one special label to paint with one intensity: the positions
/// of the inner contours whose label name is `name`.
pub struct SpecialFill {
    pub name: String,
    pub intensity: u8,
    pub contours: Vec<usize>,
}

/// The positions, in order, of the first `n` contours whose label parses
/// with the name `name`.
pub open spec fn name_positions(inners: Seq<Contour>, name: Seq<char>, n: int) -> Seq<usize>
    decreases n,
{
    if n <= 0 {
        Seq::empty()
    } else {
        let rest = name_positions(inners, name, n - 1);
        match spec_parse_label(inners[n - 1].label@) {
            Ok((_, nm, _)) => if nm == name {
                rest.push((n - 1) as usize)
            } else {
                rest
            },
            Err(_) => rest,
        }
    }
}

/// The positions of the first `n` contours named `name` are increasing, lie
/// below `n`, and hold a position exactly when the label there parses with
/// the name `name`, the last of the `n` included.
pub proof fn lemma_name_positions(inners: Seq<Contour>, name: Seq<char>, n: int)
    requires
        0 <= n <= inners.len(),
        inners.len() <= usize::MAX,
    ensures
        forall|j: int| 0 <= j < name_positions(inners, name, n).len() ==> #[trigger] name_positions(
            inners,
            name,
            n,
        )[j] < n,
        forall|j: int, k: int|
            0 <= j < k < name_positions(inners, name, n).len() ==> #[trigger] name_positions(
                inners,
                name,
                n,
            )[j] < #[trigger] name_positions(inners, name, n)[k],
        forall|i: int|
            0 <= i < n ==> (name_positions(inners, name, n).contains(i as usize) <==> (spec_parse_label(
                (#[trigger] inners[i]).label@,
            ) matches Ok((_, nm, _)) && nm == name)),
    decreases n,
{
    if n > 0 {
        lemma_name_positions(inners, name, n - 1);
        let prev = name_positions(inners, name, n - 1);
        let cur = name_positions(inners, name, n);
        let hit = (spec_parse_label(inners[n - 1].label@) matches Ok((_, nm, _)) && nm == name);
        if hit {
            assert(cur == prev.push((n - 1) as usize));
            assert forall|j: int| 0 <= j < cur.len() implies #[trigger] cur[j] < n by {
                if j < prev.len() {
                    assert(cur[j] == prev[j]);
                }
            }
            assert forall|j: int, k: int| 0 <= j < k < cur.len() implies #[trigger] cur[j] < #[trigger] cur[k] by {
                assert(cur[j] == prev[j]);
                if k < prev.len() {
                    assert(cur[k] == prev[k]);
                }
            }
        } else {
            assert(cur == prev);
        }
        assert forall|i: int| 0 <= i < n implies (cur.contains(i as usize) <==> (spec_parse_label(
            (#[trigger] inners[i]).label@,
        ) matches Ok((_, nm, _)) && nm == name)) by {
            if i < n - 1 {
                if cur.contains(i as usize) {
                    let w = choose|w: int| 0 <= w < cur.len() && cur[w] == i as usize;
                    if w < prev.len() {
                        assert(prev[w] == cur[w]);
                    }
                }
                if prev.contains(i as usize) {
                    let w = choose|w: int| 0 <= w < prev.len() && prev[w] == i as usize;
                    if hit {
                        assert(cur[w] == prev[w]);
                    }
                }
            } else {
                if hit {
                    assert(cur[prev.len() as int] == (n - 1) as usize);
                } else if cur.contains(i as usize) {
                    let w = choose|w: int| 0 <= w < cur.len() && cur[w] == i as usize;
                }
            }
        }
    }
}

/// The first of the contours `0..n` whose label does not parse.
pub open spec fn first_unparsed(inners: Seq<Contour>, n: int) -> Option<int>
    decreases n,
{
    if n <= 0 {
        None
    } else {
        match first_unparsed(inners, n - 1) {
            Some(i) => Some(i),
            None => if spec_parse_label(inners[n - 1].label@) is Err {
                Some(n - 1)
            } else {
                None
            },
        }
    }
}

proof fn lemma_first_unparsed_stable(inners: Seq<Contour>, n: int, m: int)
    requires
        1 <= n <= m,
        first_unparsed(inners, n - 1) is None,
        spec_parse_label(inners[n - 1].label@) is Err,
    ensures
        first_unparsed(inners, m) == Some(n - 1),
    decreases m - n,
{
    if m > n {
        lemma_first_unparsed_stable(inners, n, m - 1);
    }
}

/// `fills` paints, for each configured label name carried by some contour of
/// `inners`, exactly those contours, with the configured intensity.
pub open spec fn fills_correct(config: Configuration, inners: Seq<Contour>, fills: Seq<SpecialFill>) -> bool {
    let n = inners.len() as int;
    &&& forall|t: int|
        0 <= t < fills.len() ==> config.label_value(#[trigger] fills[t].name@) == Some(
            fills[t].intensity,
        ) && fills[t].contours@ == name_positions(inners, fills[t].name@, n) && fills[t].contours@.len() > 0
    &&& forall|t: int, u: int|
        0 <= t < u < fills.len() ==> #[trigger] fills[t].name@ != #[trigger] fills[u].name@
    &&& forall|name: Seq<char>|
        config.label_value(name) is Some && #[trigger] name_positions(inners, name, n).len() > 0
            ==> exists|t: int| 0 <= t < fills.len() && #[trigger] fills[t].name@ == name
}

impl Pipeline {
    pub fn new(configuration: Configuration) -> (r: Self)
        ensures
            r.configuration == configuration,
    {
        Pipeline { configuration }
    }

    /// Which special pixels (films, bags) of a crop get a preconfigured
    /// value: the inner contours grouped by label name, for the names the
    /// configuration maps to an intensity. Refuses the first inner label
    /// that does not parse. The order of the groups is not fixed.
    pub fn special_fills(&self, inners: &Vec<Contour>) -> (r: Result<Vec<SpecialFill>, PipelineError>)
        ensures
            first_unparsed(inners@, inners@.len() as int) matches Some(i) ==> (r matches Err(e) && spec_parse_label(inners@[i].label@) == Err::<(bool, Seq<char>, nat), PipelineError>(e)),
            first_unparsed(inners@, inners@.len() as int) is None ==> (r matches Ok(fills) && fills_correct(self.configuration, inners@, fills@)),
            r matches Ok(fills) ==> forall|t: int, i: int|
                0 <= t < fills@.len() && 0 <= i < inners@.len() ==> ((#[trigger] fills@[t]).contours@.contains(
                    i as usize,
                ) <==> (spec_parse_label((#[trigger] inners@[i]).label@) matches Ok((_, nm, _)) && nm
                    == fills@[t].name@)),
    {
        let n: usize = inners.len();
        let mut items: Vec<(String, usize)> = Vec::new();
        let mut i: usize = 0;
        while i < n
            invariant
                i <= n,
                n == inners@.len(),
                first_unparsed(inners@, i as int) is None,
                forall|name: Seq<char>|
                    #[trigger] named_positions(items@, name) == if self.configuration.label_value(name) is Some {
                        name_positions(inners@, name, i as int)
                    } else {
                        Seq::<usize>::empty()
                    },
            decreases n - i,
        {
            match parse_label(inners[i].label.as_str()) {
                Err(e) => {
                    proof {
                        lemma_first_unparsed_stable(inners@, i + 1, n as int);
                    }
                    return Err(e);
                },
                Ok((_outer, name, _idx)) => {
                    let ghost old_items = items@;
                    let ghost nm = name@;
                    let configured: bool = self.configuration.label_intensity(name.as_str()).is_some();
                    if configured {
                        items.push((name, i));
                    }
                    proof {
                        assert forall|key: Seq<char>|
                            #[trigger] named_positions(items@, key) == if self.configuration.label_value(key) is Some {
                                name_positions(inners@, key, i + 1)
                            } else {
                                Seq::<usize>::empty()
                            } by {
                            if configured {
                                assert(items@.drop_last() =~= old_items);
                                assert(named_positions(old_items, key) == named_positions(items@.drop_last(), key));
                            }
                        }
                    }
                },
            }
            i = i + 1;
        }
        let groups: Vec<(String, Vec<usize>)> = group_by_name(items);
        let ghost all = groups@;
        let mut fills: Vec<SpecialFill> = Vec::new();
        for group in it: groups
            invariant
                all == it.seq(),
                forall|g: int, h: int| 0 <= g < h < all.len() ==> #[trigger] all[g].0@ != #[trigger] all[h].0@,
                forall|g: int| 0 <= g < all.len() ==> #[trigger] all[g].1@ == named_positions(items@, all[g].0@),
                forall|g: int| 0 <= g < all.len() ==> #[trigger] all[g].1@.len() > 0,
                forall|name: Seq<char>|
                    #[trigger] named_positions(items@, name) == if self.configuration.label_value(name) is Some {
                        name_positions(inners@, name, n as int)
                    } else {
                        Seq::<usize>::empty()
                    },
                n == inners@.len(),
                fills@.len() == it.index(),
                forall|t: int| 0 <= t < fills@.len() ==> #[trigger] fills@[t].name@ == all[t].0@ && fills@[t].contours@ == all[t].1@ && self.configuration.label_value(all[t].0@) == Some(fills@[t].intensity),
        {
            let ghost t: int = it.index() as int;
            let (name, contours) = group;
            assert(all[t] == (name, contours));
            assert(all[t].1@.len() > 0);
            assert(all[t].1@ == named_positions(items@, all[t].0@));
            assert(named_positions(items@, name@).len() > 0);
            let intensity: u8 = self.configuration.label_intensity(name.as_str()).unwrap();
            let ghost old_fills = fills@;
            fills.push(SpecialFill { name, intensity, contours });
            proof {
                assert forall|u: int| 0 <= u < fills@.len() implies #[trigger] fills@[u].name@ == all[u].0@ && fills@[u].contours@ == all[u].1@ && self.configuration.label_value(all[u].0@) == Some(fills@[u].intensity) by {
                    if u < t {
                        assert(fills@[u] == old_fills[u]);
                    }
                }
            }
        }
        proof {
            assert forall|name: Seq<char>|
                self.configuration.label_value(name) is Some && #[trigger] name_positions(inners@, name, n as int).len() > 0
                    implies exists|t: int| 0 <= t < fills@.len() && #[trigger] fills@[t].name@ == name by {
                assert(named_positions(items@, name).len() > 0);
                let g = choose|g: int| 0 <= g < all.len() && #[trigger] all[g].0@ == name;
                assert(fills@[g].name@ == name);
            }
            assert forall|t: int, i: int|
                0 <= t < fills@.len() && 0 <= i < inners@.len() implies ((#[trigger] fills@[t]).contours@.contains(
                    i as usize,
                ) <==> (spec_parse_label((#[trigger] inners@[i]).label@) matches Ok((_, nm, _)) && nm
                    == fills@[t].name@)) by {
                lemma_name_positions(inners@, fills@[t].name@, n as int);
                assert(named_positions(items@, all[t].0@).len() > 0);
            }
        }
        Ok(fills)
    }
}


/// Where the gradient of a crop is pasted in a tensor: the group index and
/// the rectangle, in `i32` pixels.
#[derive(Debug, Clone, Copy, PartialEq, Eq, Structural)]
pub struct Placement {
    pub idx: usize,
    pub x: i32,
    pub y: i32,
    pub width: i32,
    pub height: i32,
}

/// The crop at `offset` of size `crop` lies inside an image of `size`, each
/// value cast with `as i32`: `0 <= x`, `0 <= y`, `x + w <= width` and
/// `y + h <= height`.
pub open spec fn region_fits(size: RectSize, offset: SuPoint, crop: RectSize) -> bool {
    let x = offset.x as i32 as int;
    let y = offset.y as i32 as int;
    &&& x >= 0
    &&& y >= 0
    &&& x + crop.width as i32 as int <= size.width as i32 as int
    &&& y + crop.height as i32 as int <= size.height as i32 as int
}

/// The sums of the bounds check stay within `i32` wherever the check
/// reaches them (`x + w` once `x` and `y` are non-negative, `y + h` once
/// `x + w` fits too).
pub open spec fn region_sums_fit(size: RectSize, offset: SuPoint, crop: RectSize) -> bool {
    let x = offset.x as i32 as int;
    let y = offset.y as i32 as int;
    let w = crop.width as i32 as int;
    let h = crop.height as i32 as int;
    x >= 0 && y >= 0 ==> x + w <= i32::MAX && (x + w <= size.width as i32 as int ==> y + h
        <= i32::MAX)
}

/// Why a crop cannot be pasted: no gradient for its group, or it lies
/// outside the tensor.
pub open spec fn crop_error(size: RectSize, gradients: Seq<usize>, crop: ContourCrop) -> Option<PipelineError> {
    let idx = crop.contour_group.idx;
    if !gradients.contains(idx) {
        Some(PipelineError::MissingGradient { idx })
    } else if !region_fits(size, crop.offset, crop.size) {
        Some(PipelineError::CropOutOfBounds { idx })
    } else {
        None
    }
}

/// The first of the crops `0..n` that cannot be pasted.
pub open spec fn first_crop_error(size: RectSize, gradients: Seq<usize>, crops: Seq<ContourCrop>, n: int) -> Option<int>
    decreases n,
{
    if n <= 0 {
        None
    } else {
        match first_crop_error(size, gradients, crops, n - 1) {
            Some(i) => Some(i),
            None => if crop_error(size, gradients, crops[n - 1]) is Some {
                Some(n - 1)
            } else {
                None
            },
        }
    }
}

proof fn lemma_first_crop_error_stable(size: RectSize, gradients: Seq<usize>, crops: Seq<ContourCrop>, n: int, m: int)
    requires
        1 <= n <= m,
        first_crop_error(size, gradients, crops, n - 1) is None,
        crop_error(size, gradients, crops[n - 1]) is Some,
    ensures
        first_crop_error(size, gradients, crops, m) == Some(n - 1),
    decreases m - n,
{
    if m > n {
        lemma_first_crop_error_stable(size, gradients, crops, n, m - 1);
    }
}

proof fn lemma_first_crop_error_none(size: RectSize, gradients: Seq<usize>, crops: Seq<ContourCrop>, n: int, j: int)
    requires
        first_crop_error(size, gradients, crops, n) is None,
        0 <= j < n,
    ensures
        crop_error(size, gradients, crops[j]) is None,
    decreases n,
{
    if j < n - 1 {
        lemma_first_crop_error_none(size, gradients, crops, n - 1, j);
    }
}

fn contains_index(values: &Vec<usize>, v: usize) -> (r: bool)
    ensures
        r == values@.contains(v),
{
    let n: usize = values.len();
    let mut i: usize = 0;
    while i < n
        invariant
            i <= n,
            n == values@.len(),
            forall|j: int| 0 <= j < i ==> values@[j] != v,
        decreases n - i,
    {
        if values[i] == v {
            return true;
        }
        i = i + 1;
    }
    false
}

/// Where each crop's gradient goes when a tensor of `size` is assembled
/// from `crops`, the gradients of the groups in `gradients` being at hand.
/// Refuses the first crop whose group has no gradient or that does not lie
/// inside the tensor.
pub fn tensor_placements(size: RectSize, crops: &Vec<ContourCrop>, gradients: &Vec<usize>) -> (r: Result<Vec<Placement>, PipelineError>)
    requires
        forall|i: int|
            0 <= i < crops@.len() && first_crop_error(size, gradients@, crops@, i) is None
                && gradients@.contains(#[trigger] crops@[i].contour_group.idx) ==> region_sums_fit(
                size,
                crops@[i].offset,
                crops@[i].size,
            ),
    ensures
        first_crop_error(size, gradients@, crops@, crops@.len() as int) matches Some(i) ==> r
            == Err::<Vec<Placement>, PipelineError>(crop_error(size, gradients@, crops@[i])->0),
        first_crop_error(size, gradients@, crops@, crops@.len() as int) is None ==> (r matches Ok(
            placements,
        ) && placements@.len() == crops@.len() && forall|i: int|
            0 <= i < crops@.len() ==> (#[trigger] placements@[i]) == (Placement {
                idx: crops@[i].contour_group.idx,
                x: crops@[i].offset.x as i32,
                y: crops@[i].offset.y as i32,
                width: crops@[i].size.width as i32,
                height: crops@[i].size.height as i32,
            })),
        r matches Ok(placements) ==> forall|i: int|
            0 <= i < placements@.len() ==> gradients@.contains((#[trigger] placements@[i]).idx) && 0
                <= placements@[i].x && 0 <= placements@[i].y && placements@[i].x + placements@[i].width
                <= size.width as i32 && placements@[i].y + placements@[i].height <= size.height as i32,
{
    let n: usize = crops.len();
    let width: i32 = size.width as i32;
    let height: i32 = size.height as i32;
    let mut placements: Vec<Placement> = Vec::new();
    let mut i: usize = 0;
    while i < n
        invariant
            i <= n,
            n == crops@.len(),
            width == size.width as i32,
            height == size.height as i32,
            forall|j: int|
                0 <= j < crops@.len() && first_crop_error(size, gradients@, crops@, j) is None
                    && gradients@.contains(#[trigger] crops@[j].contour_group.idx) ==> region_sums_fit(
                    size,
                    crops@[j].offset,
                    crops@[j].size,
                ),
            first_crop_error(size, gradients@, crops@, i as int) is None,
            placements@.len() == i,
            forall|j: int|
                0 <= j < i ==> (#[trigger] placements@[j]) == (Placement {
                    idx: crops@[j].contour_group.idx,
                    x: crops@[j].offset.x as i32,
                    y: crops@[j].offset.y as i32,
                    width: crops@[j].size.width as i32,
                    height: crops@[j].size.height as i32,
                }),
        decreases n - i,
    {
        let crop: &ContourCrop = &crops[i];
        let idx: usize = crop.contour_group.idx;
        if !contains_index(gradients, idx) {
            proof {
                lemma_first_crop_error_stable(size, gradients@, crops@, i + 1, n as int);
            }
            return Err(PipelineError::MissingGradient { idx });
        }
        let x: i32 = crop.offset.x as i32;
        let y: i32 = crop.offset.y as i32;
        let w: i32 = crop.size.width as i32;
        let h: i32 = crop.size.height as i32;
        if x < 0 || y < 0 || x + w > width || y + h > height {
            proof {
                lemma_first_crop_error_stable(size, gradients@, crops@, i + 1, n as int);
            }
            return Err(PipelineError::CropOutOfBounds { idx });
        }
        placements.push(Placement { idx, x, y, width: w, height: h });
        i = i + 1;
    }
    proof {
        assert forall|j: int| 0 <= j < placements@.len() implies gradients@.contains(
            (#[trigger] placements@[j]).idx,
        ) && 0 <= placements@[j].x && 0 <= placements@[j].y && placements@[j].x + placements@[j].width
            <= size.width as i32 && placements@[j].y + placements@[j].height <= size.height as i32 by {
            lemma_first_crop_error_none(size, gradients@, crops@, n as int, j);
        }
    }
    Ok(placements)
}

proof fn lemma_layout_fits(size: RectSize, points: Seq<crate::types::SuPoint2F>, offset: SuPoint, crop: RectSize)
    requires
        points.len() > 0,
        crop_fits_i32(size),
        offset.x == crop_start(points, true),
        offset.y == crop_start(points, false),
        crop.width == crop_extent(points, size.width, true),
        crop.height == crop_extent(points, size.height, false),
    ensures
        region_fits(size, offset, crop),
        region_sums_fit(size, offset, crop),
{
    lemma_crop_bounds(points, size.width, true);
    lemma_crop_bounds(points, size.height, false);
    let vx: i32 = (crop_end(points, size.width, true) - crop_start(points, true) + 1) as i32;
    let vy: i32 = (crop_end(points, size.height, false) - crop_start(points, false) + 1) as i32;
    assert((vx as usize) as i32 == vx) by (bit_vector);
    assert((vy as usize) as i32 == vy) by (bit_vector);
    let x: usize = offset.x;
    let y: usize = offset.y;
    assert(x <= i32::MAX ==> x as i32 == x) by (bit_vector);
    assert(y <= i32::MAX ==> y as i32 == y) by (bit_vector);
    let sw: usize = size.width;
    let sh: usize = size.height;
    assert(sw <= i32::MAX ==> sw as i32 == sw) by (bit_vector);
    assert(sh <= i32::MAX ==> sh as i32 == sh) by (bit_vector);
}

/// A crop that `build_contours` lays out lies inside the image it was laid
/// out for, and the bounds check on it stays within `i32`: assembling a
/// tensor never refuses such a crop as out of bounds.
pub proof fn lemma_laid_out_crop_fits(size: RectSize, shapes: Seq<Contour>, layout: CropLayout)
    requires
        layout_matches(size, shapes, layout),
        crop_fits_i32(size),
        shapes[layout.outer as int].points@.len() > 0,
    ensures
        region_fits(size, layout.offset, layout.size),
        region_sums_fit(size, layout.offset, layout.size),
{
    lemma_layout_fits(size, shapes[layout.outer as int].points@, layout.offset, layout.size);
}

} // verus!
