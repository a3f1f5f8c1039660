use vstd::prelude::*;
use vstd::string::*;
use crate::configuration::OUTER_LABEL;
use crate::error::PipelineError;
use crate::types::{Contour, RawImage, RectSize, SuPoint, SuPoint2F};
use crate::text::{decimal, find_char, find_from, lemma_find_from_bounds, lemma_find_from_skips, lemma_parse_decimal, parse_usize, same_text, spec_parse_usize};

verus! {

/// What a label `<name>_<index>` stands for: whether `name` is the outer
/// label, the name, and the group index. The label is split at its first
/// `_`; the index is the rest, parsed as a `usize`.
pub open spec fn spec_parse_label(s: Seq<char>) -> Result<(bool, Seq<char>, nat), PipelineError> {
    let k = find_from(s, '_', 0);
    if k >= s.len() {
        Err(PipelineError::MissingLabelSeparator)
    } else {
        match spec_parse_usize(s.skip(k + 1)) {
            None => Err(PipelineError::InvalidLabelIndex),
            Some(n) => Ok((s.take(k) == "outer"@, s.take(k), n)),
        }
    }
}

/// Splits a label `outer_1` into (is it the outer label, `outer`, 1).
pub fn parse_label(label: &str) -> (r: Result<(bool, String, usize), PipelineError>)
    ensures
        match spec_parse_label(label@) {
            Ok((outer, name, n)) => r matches Ok((o, nm, m)) && o == outer && nm@ == name && m == n,
            Err(e) => r == Err::<(bool, String, usize), PipelineError>(e),
        },
{
    let len: usize = label.unicode_len();
    let k: usize = find_char(label, '_');
    proof {
        lemma_find_from_bounds(label@, '_', 0);
    }
    if k >= len {
        return Err(PipelineError::MissingLabelSeparator);
    }
    let num: &str = label.substring_char(k + 1, len);
    assert(num@ =~= label@.skip(k + 1));
    let idx: usize = match parse_usize(num) {
        None => {
            return Err(PipelineError::InvalidLabelIndex);
        },
        Some(n) => n,
    };
    let name: &str = label.substring_char(0, k);
    assert(name@ =~= label@.take(k as int));
    let is_outer: bool = same_text(OUTER_LABEL, name);
    proof {
        reveal_strlit("outer");
    }
    Ok((is_outer, String::from_str(name), idx))
}

/// A label made of a name without `_`, then `_`, then the decimal digits of
/// an index (as `decimal_string` writes them) parses back to that name and
/// index.
pub proof fn lemma_parse_label_roundtrip(name: Seq<char>, idx: nat)
    requires
        idx <= usize::MAX,
        forall|i: int| 0 <= i < name.len() ==> name[i] != '_',
    ensures
        spec_parse_label(name + seq!['_'] + decimal(idx)) == Ok::<(bool, Seq<char>, nat), PipelineError>((name == "outer"@, name, idx)),
{
    let s = name + seq!['_'] + decimal(idx);
    assert forall|j: int| 0 <= j < name.len() implies s[j] != '_' by {
        assert(s[j] == name[j]);
    }
    lemma_find_from_skips(s, '_', 0, name.len() as int);
    assert(s[name.len() as int] == '_');
    assert(find_from(s, '_', 0) == name.len());
    assert(s.skip(name.len() as int + 1) =~= decimal(idx));
    assert(s.take(name.len() as int) =~= name);
    lemma_parse_decimal(idx);
}

/// A label without `_` is refused for its missing separator. A label that
/// parses is its name, a `_`, then a `usize` in decimal: the name is all that
/// comes before the first `_`, and it is the outer label exactly when it is
/// `outer`.
pub proof fn lemma_parse_label_shape(s: Seq<char>)
    ensures
        (forall|j: int| 0 <= j < s.len() ==> s[j] != '_') <==> spec_parse_label(s) == Err::<
            (bool, Seq<char>, nat),
            PipelineError,
        >(PipelineError::MissingLabelSeparator),
        spec_parse_label(s) matches Ok((outer, name, n)) ==> name.len() < s.len() && s[name.len() as int]
            == '_' && s.take(name.len() as int) == name && (forall|j: int|
            0 <= j < name.len() ==> name[j] != '_') && spec_parse_usize(s.skip(name.len() + 1 as int)) == Some(n)
            && outer == (name == seq!['o', 'u', 't', 'e', 'r']),
{
    reveal_strlit("outer");
    assert("outer"@ =~= seq!['o', 'u', 't', 'e', 'r']);
    lemma_find_from_bounds(s, '_', 0);
    let k = find_from(s, '_', 0);
    if spec_parse_label(s) is Ok {
        assert(s.take(k).len() == k);
        assert forall|j: int| 0 <= j < k implies s.take(k)[j] != '_' by {
            assert(s.take(k)[j] == s[j]);
        }
    }
    if k < s.len() {
        assert(s[k] == '_');
    }
}

// ---------------------------------------------------------------------------
// Bounding boxes and crop rectangles
// ---------------------------------------------------------------------------

/// One coordinate of a point cast with `as i32`.
pub open spec fn coord_i32(p: SuPoint2F, on_x: bool) -> int {
    if on_x {
        p.x.spec_to_i32()
    } else {
        p.y.spec_to_i32()
    }
}

/// The least `as i32` coordinate along one axis (`i32::MAX` for no points).
pub open spec fn min_coord(pts: Seq<SuPoint2F>, on_x: bool) -> int
    decreases pts.len(),
{
    if pts.len() == 0 {
        i32::MAX as int
    } else {
        let m = min_coord(pts.drop_last(), on_x);
        let c = coord_i32(pts.last(), on_x);
        if c < m {
            c
        } else {
            m
        }
    }
}

/// The greatest `as i32` coordinate along one axis (`i32::MIN` for no points).
pub open spec fn max_coord(pts: Seq<SuPoint2F>, on_x: bool) -> int
    decreases pts.len(),
{
    if pts.len() == 0 {
        i32::MIN as int
    } else {
        let m = max_coord(pts.drop_last(), on_x);
        let c = coord_i32(pts.last(), on_x);
        if c > m {
            c
        } else {
            m
        }
    }
}

/// First pixel of the crop along one axis: the bounding box start, clamped
/// to the image.
pub open spec fn crop_start(pts: Seq<SuPoint2F>, on_x: bool) -> int {
    let m = min_coord(pts, on_x);
    if m < 0 {
        0
    } else {
        m
    }
}

/// Last pixel of the crop along one axis: the bounding box end, clamped to
/// an image that is `extent` pixels long.
pub open spec fn crop_end(pts: Seq<SuPoint2F>, extent: usize, on_x: bool) -> int {
    let m = max_coord(pts, on_x);
    let last = extent as int - 1;
    if m > last {
        last
    } else {
        m
    }
}

/// The crop length along one axis: `(end - start + 1) as usize`.
pub open spec fn crop_extent(pts: Seq<SuPoint2F>, extent: usize, on_x: bool) -> usize {
    ((crop_end(pts, extent, on_x) - crop_start(pts, on_x) + 1) as i32) as usize
}

proof fn lemma_min_max_coord(pts: Seq<SuPoint2F>, on_x: bool)
    ensures
        i32::MIN <= min_coord(pts, on_x) <= i32::MAX,
        i32::MIN <= max_coord(pts, on_x) <= i32::MAX,
        pts.len() > 0 ==> min_coord(pts, on_x) <= max_coord(pts, on_x),
    decreases pts.len(),
{
    if pts.len() > 0 {
        lemma_min_max_coord(pts.drop_last(), on_x);
    }
}

/// Over a non-empty list of points, `min_coord` and `max_coord` are the least
/// and the greatest `as i32` coordinate of all of the points: every point lies
/// between them, and some point attains each of them.
pub proof fn lemma_coord_extremes(pts: Seq<SuPoint2F>)
    requires
        pts.len() > 0,
    ensures
        forall|i: int|
            0 <= i < pts.len() ==> min_coord(pts, true) <= (#[trigger] pts[i]).x.spec_to_i32() <= max_coord(
                pts,
                true,
            ) && min_coord(pts, false) <= pts[i].y.spec_to_i32() <= max_coord(pts, false),
        exists|i: int| 0 <= i < pts.len() && (#[trigger] pts[i]).x.spec_to_i32() == min_coord(pts, true),
        exists|i: int| 0 <= i < pts.len() && (#[trigger] pts[i]).y.spec_to_i32() == min_coord(pts, false),
        exists|i: int| 0 <= i < pts.len() && (#[trigger] pts[i]).x.spec_to_i32() == max_coord(pts, true),
        exists|i: int| 0 <= i < pts.len() && (#[trigger] pts[i]).y.spec_to_i32() == max_coord(pts, false),
{
    lemma_coord_extremes_axis(pts, true);
    lemma_coord_extremes_axis(pts, false);
}

proof fn lemma_coord_extremes_axis(pts: Seq<SuPoint2F>, on_x: bool)
    ensures
        forall|i: int|
            0 <= i < pts.len() ==> min_coord(pts, on_x) <= coord_i32(#[trigger] pts[i], on_x) <= max_coord(
                pts,
                on_x,
            ),
        pts.len() > 0 ==> exists|i: int|
            0 <= i < pts.len() && coord_i32(#[trigger] pts[i], on_x) == min_coord(pts, on_x),
        pts.len() > 0 ==> exists|i: int|
            0 <= i < pts.len() && coord_i32(#[trigger] pts[i], on_x) == max_coord(pts, on_x),
    decreases pts.len(),
{
    if pts.len() > 0 {
        let init = pts.drop_last();
        let last = pts.len() - 1;
        lemma_coord_extremes_axis(init, on_x);
        assert(pts[last] == pts.last());
        assert forall|i: int| 0 <= i < pts.len() implies min_coord(pts, on_x) <= coord_i32(
            #[trigger] pts[i],
            on_x,
        ) <= max_coord(pts, on_x) by {
            if i < last {
                assert(init[i] == pts[i]);
            }
        }
        if init.len() == 0 || coord_i32(pts.last(), on_x) < min_coord(init, on_x) {
            assert(coord_i32(pts[last], on_x) == min_coord(pts, on_x));
        } else {
            let w = choose|w: int| 0 <= w < init.len() && coord_i32(#[trigger] init[w], on_x) == min_coord(init, on_x);
            assert(init[w] == pts[w]);
            assert(coord_i32(pts[w], on_x) == min_coord(pts, on_x));
        }
        if init.len() == 0 || coord_i32(pts.last(), on_x) > max_coord(init, on_x) {
            assert(coord_i32(pts[last], on_x) == max_coord(pts, on_x));
        } else {
            let w = choose|w: int| 0 <= w < init.len() && coord_i32(#[trigger] init[w], on_x) == max_coord(init, on_x);
            assert(init[w] == pts[w]);
            assert(coord_i32(pts[w], on_x) == max_coord(pts, on_x));
        }
    }
}

/// The bounding box of `points` after casting each coordinate with
/// `as i32`: `(min_x, min_y, max_x, max_y)`. Every point lies inside it, and
/// each of its four sides touches some point.
pub fn contour_bbox(points: &Vec<SuPoint2F>) -> (r: (i32, i32, i32, i32))
    ensures
        r.0 == min_coord(points@, true),
        r.1 == min_coord(points@, false),
        r.2 == max_coord(points@, true),
        r.3 == max_coord(points@, false),
        forall|i: int|
            0 <= i < points@.len() ==> r.0 <= (#[trigger] points@[i]).x.spec_to_i32() <= r.2 && r.1
                <= points@[i].y.spec_to_i32() <= r.3,
        points@.len() > 0 ==> exists|i: int| 0 <= i < points@.len() && (#[trigger] points@[i]).x.spec_to_i32() == r.0,
        points@.len() > 0 ==> exists|i: int| 0 <= i < points@.len() && (#[trigger] points@[i]).y.spec_to_i32() == r.1,
        points@.len() > 0 ==> exists|i: int| 0 <= i < points@.len() && (#[trigger] points@[i]).x.spec_to_i32() == r.2,
        points@.len() > 0 ==> exists|i: int| 0 <= i < points@.len() && (#[trigger] points@[i]).y.spec_to_i32() == r.3,
{
    let mut min_x: i32 = i32::MAX;
    let mut min_y: i32 = i32::MAX;
    let mut max_x: i32 = i32::MIN;
    let mut max_y: i32 = i32::MIN;
    let n: usize = points.len();
    let mut i: usize = 0;
    while i < n
        invariant
            i <= n,
            n == points@.len(),
            min_x == min_coord(points@.take(i as int), true),
            min_y == min_coord(points@.take(i as int), false),
            max_x == max_coord(points@.take(i as int), true),
            max_y == max_coord(points@.take(i as int), false),
        decreases n - i,
    {
        let p: SuPoint2F = points[i];
        let x: i32 = p.x.to_i32();
        let y: i32 = p.y.to_i32();
        assert(points@.take(i + 1).drop_last() =~= points@.take(i as int));
        assert(points@.take(i + 1).last() == p);
        if x < min_x {
            min_x = x;
        }
        if y < min_y {
            min_y = y;
        }
        if x > max_x {
            max_x = x;
        }
        if y > max_y {
            max_y = y;
        }
        i = i + 1;
    }
    assert(points@.take(n as int) =~= points@);
    proof {
        lemma_coord_extremes_axis(points@, true);
        lemma_coord_extremes_axis(points@, false);
    }
    (min_x, min_y, max_x, max_y)
}

/// The crop limits along one axis: the start is a non-negative `i32`, the
/// end lies before `extent`, and their difference plus one is an `i32`.
pub proof fn lemma_crop_bounds(pts: Seq<SuPoint2F>, extent: usize, on_x: bool)
    requires
        pts.len() > 0,
        extent <= i32::MAX,
    ensures
        0 <= crop_start(pts, on_x) <= i32::MAX,
        crop_end(pts, extent, on_x) <= extent - 1,
        i32::MIN <= crop_end(pts, extent, on_x) - crop_start(pts, on_x) + 1 <= i32::MAX,
{
    lemma_min_max_coord(pts, on_x);
}

/// Along one axis of an image `extent` pixels long, when some point lies in
/// the image, the crop starts at or after pixel 0, ends within the image,
/// holds every point that lies in the image, and is no larger than that: its
/// first pixel is 0 or a point's, its last pixel the image's last or a
/// point's.
pub proof fn lemma_crop_covers(pts: Seq<SuPoint2F>, extent: usize, on_x: bool)
    requires
        extent <= i32::MAX,
        exists|i: int| 0 <= i < pts.len() && 0 <= #[trigger] coord_i32(pts[i], on_x) < extent,
    ensures
        0 <= crop_start(pts, on_x),
        crop_start(pts, on_x) + crop_extent(pts, extent, on_x) <= extent,
        forall|i: int|
            0 <= i < pts.len() && 0 <= #[trigger] coord_i32(pts[i], on_x) < extent ==> crop_start(pts, on_x)
                <= coord_i32(pts[i], on_x) < crop_start(pts, on_x) + crop_extent(pts, extent, on_x),
        crop_start(pts, on_x) == 0 || exists|i: int|
            0 <= i < pts.len() && #[trigger] coord_i32(pts[i], on_x) == crop_start(pts, on_x),
        crop_start(pts, on_x) + crop_extent(pts, extent, on_x) == extent || exists|i: int|
            0 <= i < pts.len() && #[trigger] coord_i32(pts[i], on_x) == crop_start(pts, on_x)
                + crop_extent(pts, extent, on_x) - 1,
{
    lemma_coord_extremes_axis(pts, on_x);
    lemma_min_max_coord(pts, on_x);
    let w = choose|i: int| 0 <= i < pts.len() && 0 <= #[trigger] coord_i32(pts[i], on_x) < extent;
    assert(min_coord(pts, on_x) <= coord_i32(pts[w], on_x) <= max_coord(pts, on_x));
    let len = crop_end(pts, extent, on_x) - crop_start(pts, on_x) + 1;
    assert(1 <= len <= i32::MAX);
    assert(crop_extent(pts, extent, on_x) == len);
}

/// Both dimensions of `size` stay non-negative when cast with `as i32`.
pub open spec fn crop_fits_i32(size: RectSize) -> bool {
    size.width <= i32::MAX && size.height <= i32::MAX
}

/// The crop rectangle around `points` in an image of `size`: its offset, its
/// size, and the shift `(dx, dy)` that moves image coordinates into crop
/// coordinates. The bounding box is clamped to the image; a box that misses
/// the image gets a length cast from a negative `i32`.
pub fn crop_rect(size: RectSize, points: &Vec<SuPoint2F>) -> (r: (SuPoint, RectSize, i32, i32))
    requires
        points@.len() > 0,
        crop_fits_i32(size),
    ensures
        r.2 == crop_start(points@, true),
        r.3 == crop_start(points@, false),
        r.0.x == crop_start(points@, true),
        r.0.y == crop_start(points@, false),
        r.1.width == crop_extent(points@, size.width, true),
        r.1.height == crop_extent(points@, size.height, false),
        (exists|i: int| 0 <= i < points@.len() && 0 <= (#[trigger] points@[i]).x.spec_to_i32() < size.width)
            ==> r.0.x + r.1.width <= size.width && (forall|i: int|
            0 <= i < points@.len() && 0 <= (#[trigger] points@[i]).x.spec_to_i32() < size.width ==> r.0.x
                <= points@[i].x.spec_to_i32() < r.0.x + r.1.width) && (r.0.x == 0 || exists|i: int|
            0 <= i < points@.len() && (#[trigger] points@[i]).x.spec_to_i32() == r.0.x) && (r.0.x
            + r.1.width == size.width || exists|i: int|
            0 <= i < points@.len() && (#[trigger] points@[i]).x.spec_to_i32() == r.0.x + r.1.width - 1),
        (exists|i: int| 0 <= i < points@.len() && 0 <= (#[trigger] points@[i]).y.spec_to_i32() < size.height)
            ==> r.0.y + r.1.height <= size.height && (forall|i: int|
            0 <= i < points@.len() && 0 <= (#[trigger] points@[i]).y.spec_to_i32() < size.height ==> r.0.y
                <= points@[i].y.spec_to_i32() < r.0.y + r.1.height) && (r.0.y == 0 || exists|i: int|
            0 <= i < points@.len() && (#[trigger] points@[i]).y.spec_to_i32() == r.0.y) && (r.0.y
            + r.1.height == size.height || exists|i: int|
            0 <= i < points@.len() && (#[trigger] points@[i]).y.spec_to_i32() == r.0.y + r.1.height - 1),
{
    proof {
        if exists|i: int| 0 <= i < points@.len() && 0 <= (#[trigger] points@[i]).x.spec_to_i32() < size.width {
            let w = choose|i: int| 0 <= i < points@.len() && 0 <= (#[trigger] points@[i]).x.spec_to_i32() < size.width;
            assert(0 <= coord_i32(points@[w], true) < size.width);
            lemma_crop_covers(points@, size.width, true);
        }
        if exists|i: int| 0 <= i < points@.len() && 0 <= (#[trigger] points@[i]).y.spec_to_i32() < size.height {
            let w = choose|i: int| 0 <= i < points@.len() && 0 <= (#[trigger] points@[i]).y.spec_to_i32() < size.height;
            assert(0 <= coord_i32(points@[w], false) < size.height);
            lemma_crop_covers(points@, size.height, false);
        }
    }
    let (min_x, min_y, max_x, max_y) = contour_bbox(points);
    proof {
        lemma_min_max_coord(points@, true);
        lemma_min_max_coord(points@, false);
    }
    let min_x: i32 = if min_x < 0 { 0 } else { min_x };
    let min_y: i32 = if min_y < 0 { 0 } else { min_y };
    let last_x: i32 = size.width as i32 - 1;
    let last_y: i32 = size.height as i32 - 1;
    let max_x: i32 = if max_x > last_x { last_x } else { max_x };
    let max_y: i32 = if max_y > last_y { last_y } else { max_y };
    let width: usize = (max_x - min_x + 1) as usize;
    let height: usize = (max_y - min_y + 1) as usize;
    let offset = SuPoint { x: min_x as usize, y: min_y as usize };
    (offset, RectSize { width, height }, min_x, min_y)
}


// ---------------------------------------------------------------------------
// Grouping contours by label
// ---------------------------------------------------------------------------

/// Where a group of contours is cut out of the image: the group index, the
/// position of its outer contour and of its inner contours in the input, and
/// the crop rectangle around the outer contour.
#[derive(Debug)]
pub struct CropLayout {
    pub idx: usize,
    pub outer: usize,
    pub inners: Vec<usize>,
    pub offset: SuPoint,
    pub size: RectSize,
    /// Shift from image to crop coordinates: a point `(x, y)` of the group
    /// lands at `(x - shift_x, y - shift_y)`.
    pub shift_x: i32,
    pub shift_y: i32,
}

/// The label of contour `k` parses.
pub open spec fn label_ok(shapes: Seq<Contour>, k: int) -> bool {
    spec_parse_label(shapes[k].label@) is Ok
}

/// Contour `k` is labelled as an outer contour.
pub open spec fn label_outer(shapes: Seq<Contour>, k: int) -> bool {
    match spec_parse_label(shapes[k].label@) {
        Ok((outer, _, _)) => outer,
        Err(_) => false,
    }
}

/// The group index in the label of contour `k`.
pub open spec fn label_idx(shapes: Seq<Contour>, k: int) -> nat {
    match spec_parse_label(shapes[k].label@) {
        Ok((_, _, n)) => n,
        Err(_) => 0,
    }
}

/// Contour `k` stops the grouping: its label does not parse, or it is a
/// second outer contour for its group.
pub open spec fn bad_at(shapes: Seq<Contour>, k: int) -> bool {
    ||| !label_ok(shapes, k)
    ||| label_outer(shapes, k) && exists|j: int|
        #![trigger label_idx(shapes, j)]
        0 <= j < k && label_ok(shapes, j) && label_outer(shapes, j) && label_idx(shapes, j)
            == label_idx(shapes, k)
}

/// The first of the contours `0..n` that stops the grouping.
pub open spec fn first_bad(shapes: Seq<Contour>, n: int) -> Option<int>
    decreases n,
{
    if n <= 0 {
        None
    } else {
        match first_bad(shapes, n - 1) {
            Some(b) => Some(b),
            None => if bad_at(shapes, n - 1) {
                Some(n - 1)
            } else {
                None
            },
        }
    }
}

/// The error that contour `k` stops the grouping with.
pub open spec fn bad_error(shapes: Seq<Contour>, k: int) -> PipelineError {
    match spec_parse_label(shapes[k].label@) {
        Err(e) => e,
        Ok((_, _, n)) => PipelineError::DuplicateOuter { idx: n as usize },
    }
}

/// The last of the contours `0..n` that is the outer contour of group `idx`.
pub open spec fn outer_pos(shapes: Seq<Contour>, idx: nat, n: int) -> Option<int>
    decreases n,
{
    if n <= 0 {
        None
    } else if label_ok(shapes, n - 1) && label_outer(shapes, n - 1) && label_idx(shapes, n - 1)
        == idx {
        Some(n - 1)
    } else {
        outer_pos(shapes, idx, n - 1)
    }
}

/// The positions, in increasing order, of the contours `0..n` that are inner
/// contours of group `idx`.
pub open spec fn inner_positions(shapes: Seq<Contour>, idx: nat, n: int) -> Seq<usize>
    decreases n,
{
    if n <= 0 {
        Seq::empty()
    } else {
        let rest = inner_positions(shapes, idx, n - 1);
        if label_ok(shapes, n - 1) && !label_outer(shapes, n - 1) && label_idx(shapes, n - 1)
            == idx {
            rest.push((n - 1) as usize)
        } else {
            rest
        }
    }
}

/// Group `idx` has contours but no outer contour.
pub open spec fn is_orphan(shapes: Seq<Contour>, idx: nat) -> bool {
    &&& exists|j: int| 0 <= j < shapes.len() && #[trigger] label_idx(shapes, j) == idx
    &&& outer_pos(shapes, idx, shapes.len() as int) is None
}

/// Some group has contours but no outer contour.
pub open spec fn has_orphan(shapes: Seq<Contour>) -> bool {
    exists|j: int| 0 <= j < shapes.len() && is_orphan(shapes, #[trigger] label_idx(shapes, j))
}

/// What `build_contours` refuses `shapes` with, if anything.
pub open spec fn grouping_refused(shapes: Seq<Contour>, skip_undefined_outer: bool) -> bool {
    first_bad(shapes, shapes.len() as int) is Some || (!skip_undefined_outer && has_orphan(shapes))
}

/// `layout` is the crop of the group whose outer contour is `shapes[layout.outer]`.
pub open spec fn layout_matches(size: RectSize, shapes: Seq<Contour>, layout: CropLayout) -> bool {
    let k = layout.outer as int;
    let pts = shapes[k].points@;
    &&& 0 <= k < shapes.len()
    &&& label_ok(shapes, k)
    &&& label_outer(shapes, k)
    &&& label_idx(shapes, k) == layout.idx
    &&& layout.inners@ == inner_positions(shapes, layout.idx as nat, shapes.len() as int)
    &&& layout.offset.x == crop_start(pts, true)
    &&& layout.offset.y == crop_start(pts, false)
    &&& layout.shift_x == crop_start(pts, true)
    &&& layout.shift_y == crop_start(pts, false)
    &&& layout.size.width == crop_extent(pts, size.width, true)
    &&& layout.size.height == crop_extent(pts, size.height, false)
}

/// `layouts` holds exactly one crop for each group that has an outer
/// contour, and each crop matches its group.
pub open spec fn layouts_correct(size: RectSize, shapes: Seq<Contour>, layouts: Seq<CropLayout>) -> bool {
    &&& forall|t: int| 0 <= t < layouts.len() ==> layout_matches(size, shapes, #[trigger] layouts[t])
    &&& forall|t: int, u: int|
        0 <= t < u < layouts.len() ==> #[trigger] layouts[t].idx != #[trigger] layouts[u].idx
    &&& forall|k: int|
        0 <= k < shapes.len() && label_outer(shapes, k) ==> exists|t: int|
            0 <= t < layouts.len() && #[trigger] layouts[t].outer == k
}

proof fn lemma_first_bad_none(shapes: Seq<Contour>, n: int, k: int)
    requires
        first_bad(shapes, n) is None,
        0 <= k < n,
    ensures
        !bad_at(shapes, k),
    decreases n,
{
    if k < n - 1 {
        lemma_first_bad_none(shapes, n - 1, k);
    }
}

proof fn lemma_first_bad_some(shapes: Seq<Contour>, n: int)
    requires
        first_bad(shapes, n) is Some,
    ensures
        0 <= first_bad(shapes, n)->0 < n,
        bad_at(shapes, first_bad(shapes, n)->0),
    decreases n,
{
    if first_bad(shapes, n - 1) is Some {
        lemma_first_bad_some(shapes, n - 1);
    }
}

proof fn lemma_outer_pos(shapes: Seq<Contour>, idx: nat, n: int)
    ensures
        outer_pos(shapes, idx, n) matches Some(p) ==> 0 <= p < n && label_ok(shapes, p)
            && label_outer(shapes, p) && label_idx(shapes, p) == idx,
        outer_pos(shapes, idx, n) is None ==> forall|j: int|
            #![trigger label_idx(shapes, j)]
            0 <= j < n ==> !(label_ok(shapes, j) && label_outer(shapes, j) && label_idx(shapes, j)
                == idx),
    decreases n,
{
    if n > 0 {
        lemma_outer_pos(shapes, idx, n - 1);
    }
}

/// Without a second outer contour for a group, its outer contour is the one
/// `outer_pos` finds.
proof fn lemma_outer_unique(shapes: Seq<Contour>, k: int)
    requires
        first_bad(shapes, shapes.len() as int) is None,
        0 <= k < shapes.len(),
        label_ok(shapes, k),
        label_outer(shapes, k),
    ensures
        outer_pos(shapes, label_idx(shapes, k), shapes.len() as int) == Some(k),
{
    let n = shapes.len() as int;
    let idx = label_idx(shapes, k);
    lemma_outer_pos(shapes, idx, n);
    match outer_pos(shapes, idx, n) {
        Some(p) => {
            if p < k {
                lemma_first_bad_none(shapes, n, k);
                assert(label_idx(shapes, p) == idx);
            } else if p > k {
                lemma_first_bad_none(shapes, n, p);
                assert(label_idx(shapes, k) == idx);
            }
        },
        None => {
            assert(label_idx(shapes, k) == idx);
        },
    }
}

proof fn lemma_outer_pos_other(shapes: Seq<Contour>, idx: nat, n: int)
    requires
        n >= 0,
        !(label_ok(shapes, n) && label_outer(shapes, n) && label_idx(shapes, n) == idx),
    ensures
        outer_pos(shapes, idx, n + 1) == outer_pos(shapes, idx, n),
{
}

/// `flags[j]` and `idxs[j]` hold whether the label of contour `j` is an outer
/// label and its group index, for each of the first `n` contours, and each of
/// those labels parses.
pub open spec fn parsed_upto(shapes: Seq<Contour>, flags: Seq<bool>, idxs: Seq<usize>, n: int) -> bool {
    &&& flags.len() == n
    &&& idxs.len() == n
    &&& forall|j: int| 0 <= j < n ==> #[trigger] label_ok(shapes, j)
    &&& forall|j: int| 0 <= j < n ==> #[trigger] flags[j] == label_outer(shapes, j)
    &&& forall|j: int| 0 <= j < n ==> #[trigger] idxs[j] == label_idx(shapes, j)
}

/// Position of `idx` in `keys`, if present.
fn key_position(keys: &Vec<usize>, idx: usize) -> (r: Option<usize>)
    ensures
        r matches Some(g) ==> g < keys@.len() && keys@[g as int] == idx,
        r is None ==> forall|g: int| 0 <= g < keys@.len() ==> keys@[g] != idx,
{
    let n: usize = keys.len();
    let mut g: usize = 0;
    while g < n
        invariant
            g <= n,
            n == keys@.len(),
            forall|h: int| 0 <= h < g ==> keys@[h] != idx,
        decreases n - g,
    {
        if keys[g] == idx {
            return Some(g);
        }
        g = g + 1;
    }
    None
}

/// Positions of the inner contours of group `idx`, from the parsed labels.
fn collect_inners(shapes: &Vec<Contour>, flags: &Vec<bool>, idxs: &Vec<usize>, idx: usize) -> (r: Vec<usize>)
    requires
        parsed_upto(shapes@, flags@, idxs@, shapes@.len() as int),
    ensures
        r@ == inner_positions(shapes@, idx as nat, shapes@.len() as int),
{
    let n: usize = flags.len();
    let mut inners: Vec<usize> = Vec::new();
    let mut j: usize = 0;
    while j < n
        invariant
            j <= n,
            n == shapes@.len(),
            parsed_upto(shapes@, flags@, idxs@, shapes@.len() as int),
            inners@ == inner_positions(shapes@, idx as nat, j as int),
        decreases n - j,
    {
        if !flags[j] && idxs[j] == idx {
            inners.push(j);
        }
        j = j + 1;
    }
    inners
}

/// What the scan of the first `k` contours knows: their parsed labels, the
/// distinct group indices seen (`keys`), and the outer contour found so far
/// for each (`outers`).
pub open spec fn grouping_inv(
    s: Seq<Contour>,
    flags: Seq<bool>,
    idxs: Seq<usize>,
    keys: Seq<usize>,
    outers: Seq<Option<usize>>,
    k: int,
) -> bool {
    &&& first_bad(s, k) is None
    &&& parsed_upto(s, flags, idxs, k)
    &&& keys.len() == outers.len()
    &&& forall|g: int, h: int| 0 <= g < h < keys.len() ==> #[trigger] keys[g] != #[trigger] keys[h]
    &&& forall|g: int|
        0 <= g < keys.len() ==> (#[trigger] outers[g] is Some <==> outer_pos(s, keys[g] as nat, k) is Some)
    &&& forall|g: int|
        0 <= g < keys.len() && #[trigger] outers[g] is Some ==> outers[g]->0 as int == outer_pos(
            s,
            keys[g] as nat,
            k,
        )->0
    &&& forall|j: int|
        #![trigger label_idx(s, j)]
        0 <= j < k ==> exists|g: int| 0 <= g < keys.len() && #[trigger] keys[g] == label_idx(s, j)
    &&& forall|g: int|
        0 <= g < keys.len() ==> exists|j: int| 0 <= j < k && label_idx(s, j) == #[trigger] keys[g]
}

/// One step of the label scan keeps `grouping_inv`: contour `k` parses and
/// does not stop the scan; its group index is added to `keys` if new, and it
/// becomes the outer contour of its group if it is one.
proof fn lemma_grouping_step(
    s: Seq<Contour>,
    flags: Seq<bool>,
    idxs: Seq<usize>,
    keys: Seq<usize>,
    outers: Seq<Option<usize>>,
    k: int,
    flags2: Seq<bool>,
    idxs2: Seq<usize>,
    keys2: Seq<usize>,
    outers2: Seq<Option<usize>>,
)
    requires
        grouping_inv(s, flags, idxs, keys, outers, k),
        0 <= k < s.len(),
        k < usize::MAX,
        label_ok(s, k),
        !bad_at(s, k),
        label_idx(s, k) <= usize::MAX,
        flags2 == flags.push(label_outer(s, k)),
        idxs2 == idxs.push(label_idx(s, k) as usize),
        keys2.len() == outers2.len(),
        (keys2 == keys && exists|g: int| 0 <= g < keys.len() && keys[g] == label_idx(s, k)) || (
        keys2 == keys.push(label_idx(s, k) as usize) && forall|g: int|
            0 <= g < keys.len() ==> keys[g] != label_idx(s, k)),
        forall|g: int|
            0 <= g < keys2.len() ==> #[trigger] outers2[g] == (if keys2[g] == label_idx(s, k)
                && label_outer(s, k) {
                Some(k as usize)
            } else if g < keys.len() {
                outers[g]
            } else {
                None
            }),
    ensures
        grouping_inv(s, flags2, idxs2, keys2, outers2, k + 1),
{
    let idx = label_idx(s, k);
    let is_outer = label_outer(s, k);
    assert(first_bad(s, k + 1) is None);
    assert forall|j: int| 0 <= j < k + 1 implies #[trigger] flags2[j] == label_outer(s, j) by {
        if j < k {
            assert(flags2[j] == flags[j]);
        }
    }
    assert forall|j: int| 0 <= j < k + 1 implies #[trigger] idxs2[j] == label_idx(s, j) by {
        if j < k {
            assert(idxs2[j] == idxs[j]);
        }
    }
    assert forall|j: int| 0 <= j < k + 1 implies #[trigger] label_ok(s, j) by {
        if j < k {
            assert(label_ok(s, j));
        }
    }
    assert(parsed_upto(s, flags2, idxs2, k + 1));
    assert forall|g: int, h: int| 0 <= g < h < keys2.len() implies #[trigger] keys2[g] != #[trigger] keys2[h] by {
        assert(keys2[g] == keys[g]);
        if h < keys.len() {
            assert(keys2[h] == keys[h]);
        }
    }
    assert forall|g: int| 0 <= g < keys2.len() implies (#[trigger] outers2[g] is Some <==> outer_pos(s, keys2[g] as nat, k + 1) is Some) && (outers2[g] is Some ==> outers2[g]->0 as int == outer_pos(s, keys2[g] as nat, k + 1)->0) by {
        if keys2[g] != idx || !is_outer {
            lemma_outer_pos_other(s, keys2[g] as nat, k);
        }
        if g < keys.len() {
            assert(keys2[g] == keys[g]);
            if keys2[g] == idx && is_outer {
                lemma_outer_pos(s, idx, k);
                assert(outers[g] is None);
            }
        } else {
            lemma_outer_pos(s, idx, k);
            if outer_pos(s, idx, k) is Some {
                let p = outer_pos(s, idx, k)->0;
                assert(label_idx(s, p) == idx);
            }
        }
    }
    assert forall|j: int| #![trigger label_idx(s, j)] 0 <= j < k + 1 implies exists|g: int| 0 <= g < keys2.len() && #[trigger] keys2[g] == label_idx(s, j) by {
        if j < k {
            let g = choose|g: int| 0 <= g < keys.len() && #[trigger] keys[g] == label_idx(s, j);
            assert(keys2[g] == keys[g]);
        } else if keys2.len() > keys.len() {
            assert(keys2[keys.len() as int] == idx);
        } else {
            let g = choose|g: int| 0 <= g < keys.len() && keys[g] == idx;
            assert(keys2[g] == idx);
        }
    }
    assert forall|g: int| 0 <= g < keys2.len() implies exists|j: int| 0 <= j < k + 1 && label_idx(s, j) == #[trigger] keys2[g] by {
        if g < keys.len() {
            assert(keys2[g] == keys[g]);
            let j = choose|j: int| 0 <= j < k && label_idx(s, j) == #[trigger] keys[g];
            assert(label_idx(s, j) == keys2[g]);
        } else {
            assert(label_idx(s, k) == keys2[g]);
        }
    }
}

/// Scans the labels of `shapes` in order: parses each, collects the distinct
/// group indices, and the outer contour of each group. Stops at the first
/// label that does not parse or that is a second outer contour of its group.
#[verifier::spinoff_prover]
fn group_labels(shapes: &Vec<Contour>) -> (r: Result<(Vec<bool>, Vec<usize>, Vec<usize>, Vec<Option<usize>>), PipelineError>)
    ensures
        first_bad(shapes@, shapes@.len() as int) matches Some(k) ==> (r matches Err(e) && e == bad_error(shapes@, k)),
        first_bad(shapes@, shapes@.len() as int) is None ==> (r matches Ok((flags, idxs, keys, outers)) && grouping_inv(
            shapes@,
            flags@,
            idxs@,
            keys@,
            outers@,
            shapes@.len() as int,
        )),
{
    let ghost s = shapes@;
    let n: usize = shapes.len();
    let mut flags: Vec<bool> = Vec::new();
    let mut idxs: Vec<usize> = Vec::new();
    let mut keys: Vec<usize> = Vec::new();
    let mut outers: Vec<Option<usize>> = Vec::new();
    let mut k: usize = 0;
    while k < n
        invariant
            k <= n,
            n == s.len(),
            s == shapes@,
            grouping_inv(s, flags@, idxs@, keys@, outers@, k as int),
        decreases n - k,
    {
        let parsed_label = parse_label(shapes[k].label.as_str());
        let ghost kk: int = k as int;
        match parsed_label {
            Err(e) => {
                proof {
                    assert(bad_at(s, kk));
                    lemma_first_bad_stable(s, kk + 1, n as int);
                }
                return Err(e);
            },
            Ok((is_outer, _name, idx)) => {
                assert(label_ok(s, kk));
                assert(label_outer(s, kk) == is_outer);
                assert(label_idx(s, kk) == idx);
                let ghost old_flags = flags@;
                let ghost old_idxs = idxs@;
                flags.push(is_outer);
                idxs.push(idx);
                let ghost old_keys = keys@;
                let ghost old_outers = outers@;
                match key_position(&keys, idx) {
                    Some(g) => {
                        if is_outer {
                            match outers[g] {
                                Some(p) => {
                                    proof {
                                        lemma_outer_pos(s, idx as nat, kk);
                                        let pp = outer_pos(s, idx as nat, kk)->0;
                                        assert(label_idx(s, pp) == label_idx(s, kk));
                                        assert(bad_at(s, kk));
                                        lemma_first_bad_stable(s, kk + 1, n as int);
                                    }
                                    return Err(PipelineError::DuplicateOuter { idx });
                                },
                                None => {
                                    proof {
                                        lemma_outer_pos(s, idx as nat, kk);
                                        assert(!bad_at(s, kk));
                                    }
                                    outers.set(g, Some(k));
                                },
                            }
                        }
                    },
                    None => {
                        proof {
                            assert forall|j: int| 0 <= j < kk implies #[trigger] label_idx(s, j) != idx by {
                                let g = choose|g: int| 0 <= g < old_keys.len() && #[trigger] old_keys[g] == label_idx(s, j);
                                assert(old_keys[g] != idx);
                            }
                            lemma_outer_pos(s, idx as nat, kk);
                            assert(!bad_at(s, kk));
                        }
                        keys.push(idx);
                        if is_outer {
                            outers.push(Some(k));
                        } else {
                            outers.push(None);
                        }
                    },
                }
                proof {
                    if !is_outer {
                        assert(!bad_at(s, kk));
                    }
                    lemma_grouping_step(s, old_flags, old_idxs, old_keys, old_outers, kk, flags@, idxs@, keys@, outers@);
                }
            },
        }
        k = k + 1;
    }
    Ok((flags, idxs, keys, outers))
}

/// Groups contours by the index in their labels (`outer_<n>` and the other
/// names `<name>_<n>`), and lays out a crop around the outer contour of each
/// group. Refuses a label that does not parse, a second outer contour of a
/// group, and, unless `skip_undefined_outer`, a group without outer contour;
/// with `skip_undefined_outer` such a group is left out.
pub fn build_contours(original_size: RectSize, shapes: &Vec<Contour>, skip_undefined_outer: bool) -> (r: Result<Vec<CropLayout>, PipelineError>)
    requires
        !grouping_refused(shapes@, skip_undefined_outer) ==> forall|k: int|
            0 <= k < shapes@.len() && label_outer(shapes@, k) ==> shapes@[k].points@.len() > 0
                && crop_fits_i32(original_size),
    ensures
        first_bad(shapes@, shapes@.len() as int) matches Some(k) ==> r == Err::<Vec<CropLayout>, PipelineError>(bad_error(shapes@, k)),
        first_bad(shapes@, shapes@.len() as int) is None && !skip_undefined_outer && has_orphan(shapes@)
            ==> (r matches Err(PipelineError::MissingOuter { idx }) && is_orphan(shapes@, idx as nat)),
        !grouping_refused(shapes@, skip_undefined_outer) ==> (r matches Ok(layouts) && layouts_correct(
            original_size,
            shapes@,
            layouts@,
        )),
        !grouping_refused(shapes@, skip_undefined_outer) ==> (r matches Ok(layouts) && forall|t: int, k: int|
            0 <= t < layouts@.len() && 0 <= k < shapes@.len() ==> ((#[trigger] layouts@[t]).outer == k
                || layouts@[t].inners@.contains(k as usize) <==> (spec_parse_label(
                (#[trigger] shapes@[k]).label@,
            ) matches Ok((_, _, n)) && n == layouts@[t].idx))),
{
    let ghost s = shapes@;
    let n: usize = shapes.len();
    let (flags, idxs, keys, outers) = match group_labels(shapes) {
        Err(e) => {
            return Err(e);
        },
        Ok(grouping) => grouping,
    };
    let key_count: usize = keys.len();
    if !skip_undefined_outer {
        let mut g: usize = 0;
        #[verifier::loop_isolation(false)]
        while g < key_count
            invariant
                g <= key_count,
                key_count == keys@.len(),
                keys@.len() == outers@.len(),
                forall|h: int| 0 <= h < g ==> #[trigger] outers@[h] is Some,
            decreases key_count - g,
        {
            if outers[g].is_none() {
                proof {
                    let j = choose|j: int| 0 <= j < n && label_idx(s, j) == #[trigger] keys@[g as int];
                    assert(is_orphan(s, keys@[g as int] as nat));
                }
                return Err(PipelineError::MissingOuter { idx: keys[g] });
            }
            g = g + 1;
        }
        proof {
            assert forall|j: int| 0 <= j < n implies !is_orphan(s, #[trigger] label_idx(s, j)) by {
                let g = choose|g: int| 0 <= g < keys@.len() && #[trigger] keys@[g] == label_idx(s, j);
                assert(outers@[g] is Some);
            }
        }
    }
    assert(!grouping_refused(s, skip_undefined_outer));
    let mut layouts: Vec<CropLayout> = Vec::new();
    let ghost mut src: Seq<int> = Seq::empty();
    let mut g: usize = 0;
    while g < key_count
        invariant
            g <= key_count,
            key_count == keys@.len(),
            keys@.len() == outers@.len(),
            n == s.len(),
            s == shapes@,
            !grouping_refused(s, skip_undefined_outer),
            forall|k: int|
                0 <= k < s.len() && label_outer(s, k) ==> s[k].points@.len() > 0 && crop_fits_i32(
                    original_size,
                ),
            first_bad(s, n as int) is None,
            parsed_upto(s, flags@, idxs@, n as int),
            forall|a: int, b: int|
                0 <= a < b < keys@.len() ==> #[trigger] keys@[a] != #[trigger] keys@[b],
            forall|h: int|
                0 <= h < keys@.len() ==> (#[trigger] outers@[h] is Some <==> outer_pos(
                    s,
                    keys@[h] as nat,
                    n as int,
                ) is Some),
            forall|h: int|
                0 <= h < keys@.len() && #[trigger] outers@[h] is Some ==> outers@[h]->0 as int
                    == outer_pos(s, keys@[h] as nat, n as int)->0,
            src.len() == layouts@.len(),
            forall|t: int| 0 <= t < layouts@.len() ==> layout_matches(original_size, s, #[trigger] layouts@[t]),
            forall|t: int| 0 <= t < layouts@.len() ==> 0 <= #[trigger] src[t] < g && layouts@[t].idx == keys@[src[t]],
            forall|t: int, u: int| 0 <= t < u < layouts@.len() ==> #[trigger] src[t] < #[trigger] src[u],
            forall|h: int| 0 <= h < g && #[trigger] outers@[h] is Some ==> exists|t: int| 0 <= t < layouts@.len() && #[trigger] layouts@[t].outer == outers@[h]->0,
        decreases key_count - g,
    {
        match outers[g] {
            Some(p) => {
                let idx: usize = keys[g];
                proof {
                    lemma_outer_pos(s, idx as nat, n as int);
                    assert(label_outer(s, p as int));
                }
                let inners: Vec<usize> = collect_inners(shapes, &flags, &idxs, idx);
                let (offset, size, shift_x, shift_y) = crop_rect(original_size, &shapes[p].points);
                let ghost old_layouts = layouts@;
                layouts.push(CropLayout { idx, outer: p, inners, offset, size, shift_x, shift_y });
                proof {
                    src = src.push(g as int);
                    assert forall|h: int| 0 <= h < g + 1 && #[trigger] outers@[h] is Some implies exists|t: int| 0 <= t < layouts@.len() && #[trigger] layouts@[t].outer == outers@[h]->0 by {
                        if h < g {
                            let t = choose|t: int| 0 <= t < old_layouts.len() && #[trigger] old_layouts[t].outer == outers@[h]->0;
                            assert(layouts@[t] == old_layouts[t]);
                        } else {
                            assert(layouts@[old_layouts.len() as int].outer == p);
                        }
                    }
                    assert forall|t: int| 0 <= t < layouts@.len() implies layout_matches(original_size, s, #[trigger] layouts@[t]) by {
                        if t < old_layouts.len() {
                            assert(layouts@[t] == old_layouts[t]);
                        }
                    }
                }
            },
            None => {},
        }
        g = g + 1;
    }
    proof {
        assert forall|t: int, u: int| 0 <= t < u < layouts@.len() implies #[trigger] layouts@[t].idx != #[trigger] layouts@[u].idx by {
            assert(src[t] < src[u]);
        }
        assert forall|kk: int| 0 <= kk < n && label_outer(s, kk) implies exists|t: int| 0 <= t < layouts@.len() && #[trigger] layouts@[t].outer == kk by {
            lemma_outer_unique(s, kk);
            let h = choose|h: int| 0 <= h < keys@.len() && #[trigger] keys@[h] == label_idx(s, kk);
            assert(outers@[h] is Some);
        }
        assert(layouts_correct(original_size, s, layouts@));
        lemma_crop_holds_group(original_size, s, layouts@);
    }
    Ok(layouts)
}

proof fn lemma_first_bad_stable(shapes: Seq<Contour>, n: int, m: int)
    requires
        1 <= n <= m,
        first_bad(shapes, n - 1) is None,
        bad_at(shapes, n - 1),
    ensures
        first_bad(shapes, m) == Some(n - 1),
    decreases m - n,
{
    if m > n {
        lemma_first_bad_stable(shapes, n, m - 1);
    }
}


// ---------------------------------------------------------------------------
// Dropping contours that left the image
// ---------------------------------------------------------------------------

/// The point lies inside an image of `size`: `0 <= x < width` and
/// `0 <= y < height`.
pub open spec fn point_inside(p: SuPoint2F, size: RectSize) -> bool {
    &&& p.x.is_non_negative()
    &&& p.x.is_below(size.width as int)
    &&& p.y.is_non_negative()
    &&& p.y.is_below(size.height as int)
}

/// How many of `pts` lie inside an image of `size`.
pub open spec fn inside_count(pts: Seq<SuPoint2F>, size: RectSize) -> nat
    decreases pts.len(),
{
    if pts.len() == 0 {
        0
    } else {
        inside_count(pts.drop_last(), size) + if point_inside(pts.last(), size) {
            1nat
        } else {
            0nat
        }
    }
}

/// A contour stays visible when at least three of its points lie inside
/// the image.
pub open spec fn stays_visible(c: Contour, size: RectSize) -> bool {
    inside_count(c.points@, size) >= 3
}

/// The contours of `cs` that stay visible, in their order.
pub open spec fn visible_contours(cs: Seq<Contour>, size: RectSize) -> Seq<Contour>
    decreases cs.len(),
{
    if cs.len() == 0 {
        Seq::empty()
    } else {
        let rest = visible_contours(cs.drop_last(), size);
        if stays_visible(cs.last(), size) {
            rest.push(cs.last())
        } else {
            rest
        }
    }
}

fn count_inside(points: &Vec<SuPoint2F>, size: RectSize) -> (r: usize)
    ensures
        r == inside_count(points@, size),
{
    let n: usize = points.len();
    let mut count: usize = 0;
    let mut i: usize = 0;
    while i < n
        invariant
            i <= n,
            n == points@.len(),
            count == inside_count(points@.take(i as int), size),
            count <= i,
        decreases n - i,
    {
        let p: SuPoint2F = points[i];
        assert(points@.take(i + 1).drop_last() =~= points@.take(i as int));
        if p.x.floor >= 0 && p.x.floor < size.width as i128 && p.y.floor >= 0 && p.y.floor
            < size.height as i128 {
            count = count + 1;
        }
        i = i + 1;
    }
    assert(points@.take(n as int) =~= points@);
    count
}

/// Some contours leave the image after a transformation and are no longer
/// visible: drops every contour with fewer than three points inside the
/// image.
pub fn clean(image: RawImage) -> (r: Result<RawImage, PipelineError>)
    ensures
        r matches Ok(cleaned) && cleaned.size == image.size && cleaned.contours@ == visible_contours(
            image.contours@,
            image.size,
        ),
        r matches Ok(cleaned) ==> (forall|i: int|
            0 <= i < cleaned.contours@.len() ==> (#[trigger] cleaned.contours@[i]).points@.filter(
                |p: SuPoint2F|
                    p.x.floor >= 0 && p.x.floor < image.size.width && p.y.floor >= 0 && p.y.floor
                        < image.size.height,
            ).len() >= 3) && (forall|i: int|
            0 <= i < image.contours@.len() && (#[trigger] image.contours@[i]).points@.filter(
                |p: SuPoint2F|
                    p.x.floor >= 0 && p.x.floor < image.size.width && p.y.floor >= 0 && p.y.floor
                        < image.size.height,
            ).len() >= 3 ==> cleaned.contours@.contains(image.contours@[i])),
        r matches Ok(cleaned) ==> cleaned.contours@ == image.contours@.filter(
            |c: Contour|
                c.points@.filter(
                    |p: SuPoint2F|
                        p.x.floor >= 0 && p.x.floor < image.size.width && p.y.floor >= 0 && p.y.floor
                            < image.size.height,
                ).len() >= 3,
        ),
{
    let size: RectSize = image.size;
    let ghost all = image.contours@;
    let mut contours: Vec<Contour> = Vec::new();
    for c in it: image.contours
        invariant
            all == it.seq(),
            contours@ == visible_contours(it.seq().take(it.index() as int), size),
    {
        assert(it.seq().take(it.index() + 1).drop_last() =~= it.seq().take(it.index() as int));
        if count_inside(&c.points, size) >= 3 {
            contours.push(c);
        }
    }
    assert(all.take(all.len() as int) =~= all);
    proof {
        lemma_clean_keeps_inside(all, size);
        lemma_visible_contours_filter(all, size);
    }
    Ok(RawImage { size, contours })
}

/// The number of points counted inside an image is the number of points `p`
/// with `0 <= p.x < width` and `0 <= p.y < height`; in particular a list
/// whose points all lie at or below the bottom edge counts none.
pub proof fn lemma_inside_count(pts: Seq<SuPoint2F>, size: RectSize)
    ensures
        inside_count(pts, size) == pts.filter(
            |p: SuPoint2F|
                p.x.floor >= 0 && p.x.floor < size.width && p.y.floor >= 0 && p.y.floor < size.height,
        ).len(),
        (forall|i: int| 0 <= i < pts.len() ==> (#[trigger] pts[i]).y.floor >= size.height) ==> inside_count(
            pts,
            size,
        ) == 0,
    decreases pts.len(),
{
    reveal(Seq::filter);
    if pts.len() > 0 {
        lemma_inside_count(pts.drop_last(), size);
        if forall|i: int| 0 <= i < pts.len() ==> (#[trigger] pts[i]).y.floor >= size.height {
            assert forall|i: int| 0 <= i < pts.drop_last().len() implies (
            #[trigger] pts.drop_last()[i]).y.floor >= size.height by {
                assert(pts.drop_last()[i] == pts[i]);
            }
            assert(pts[pts.len() - 1] == pts.last());
        }
    }
}

/// Cleaning keeps exactly the contours with at least three points `p` inside
/// the image, `0 <= p.x < width` and `0 <= p.y < height`: every kept contour
/// has them, and every contour of the input that has them is kept.
pub proof fn lemma_clean_keeps_inside(cs: Seq<Contour>, size: RectSize)
    ensures
        forall|i: int|
            0 <= i < visible_contours(cs, size).len() ==> (#[trigger] visible_contours(cs, size)[i]).points@.filter(
                |p: SuPoint2F|
                    p.x.floor >= 0 && p.x.floor < size.width && p.y.floor >= 0 && p.y.floor < size.height,
            ).len() >= 3,
        forall|i: int|
            0 <= i < cs.len() && (#[trigger] cs[i]).points@.filter(
                |p: SuPoint2F|
                    p.x.floor >= 0 && p.x.floor < size.width && p.y.floor >= 0 && p.y.floor < size.height,
            ).len() >= 3 ==> visible_contours(cs, size).contains(cs[i]),
{
    lemma_clean_keeps_visible(cs, size);
    assert forall|c: Contour| #[trigger] stays_visible(c, size) <==> c.points@.filter(
        |p: SuPoint2F|
            p.x.floor >= 0 && p.x.floor < size.width && p.y.floor >= 0 && p.y.floor < size.height,
    ).len() >= 3 by {
        lemma_inside_count(c.points@, size);
    }
}

/// The contours that cleaning keeps are those of the input, in their order,
/// that have at least three points `p` with `0 <= p.x < width` and
/// `0 <= p.y < height`.
pub proof fn lemma_visible_contours_filter(cs: Seq<Contour>, size: RectSize)
    ensures
        visible_contours(cs, size) == cs.filter(
            |c: Contour|
                c.points@.filter(
                    |p: SuPoint2F|
                        p.x.floor >= 0 && p.x.floor < size.width && p.y.floor >= 0 && p.y.floor
                            < size.height,
                ).len() >= 3,
        ),
    decreases cs.len(),
{
    reveal(Seq::filter);
    if cs.len() > 0 {
        lemma_visible_contours_filter(cs.drop_last(), size);
        lemma_inside_count(cs.last().points@, size);
    }
}

/// Cleaning twice keeps what cleaning once keeps.
pub proof fn lemma_clean_idempotent(cs: Seq<Contour>, size: RectSize)
    ensures
        visible_contours(visible_contours(cs, size), size) == visible_contours(cs, size),
    decreases cs.len(),
{
    if cs.len() > 0 {
        lemma_clean_idempotent(cs.drop_last(), size);
        let rest = visible_contours(cs.drop_last(), size);
        if stays_visible(cs.last(), size) {
            assert(rest.push(cs.last()).drop_last() =~= rest);
        }
    }
}

/// Every contour that cleaning keeps stays visible, and every contour of the
/// input that stays visible is kept.
pub proof fn lemma_clean_keeps_visible(cs: Seq<Contour>, size: RectSize)
    ensures
        forall|i: int|
            0 <= i < visible_contours(cs, size).len() ==> stays_visible(
                #[trigger] visible_contours(cs, size)[i],
                size,
            ),
        forall|i: int|
            0 <= i < cs.len() && stays_visible(#[trigger] cs[i], size) ==> visible_contours(
                cs,
                size,
            ).contains(cs[i]),
    decreases cs.len(),
{
    if cs.len() > 0 {
        let init = cs.drop_last();
        lemma_clean_keeps_visible(init, size);
        let rest = visible_contours(init, size);
        assert forall|i: int|
            0 <= i < cs.len() && stays_visible(#[trigger] cs[i], size) implies visible_contours(
            cs,
            size,
        ).contains(cs[i]) by {
            if i < cs.len() - 1 {
                assert(init[i] == cs[i]);
                let w = choose|w: int| 0 <= w < rest.len() && rest[w] == init[i];
                if stays_visible(cs.last(), size) {
                    assert(rest.push(cs.last())[w] == cs[i]);
                }
            } else {
                assert(rest.push(cs.last())[rest.len() as int] == cs[i]);
            }
        }
    }
}


proof fn lemma_inner_positions_contains(shapes: Seq<Contour>, idx: nat, n: int, x: int)
    requires
        0 <= n <= shapes.len(),
        n <= usize::MAX + 1,
    ensures
        inner_positions(shapes, idx, n).contains(x as usize) && 0 <= x <= usize::MAX <==> (0 <= x < n
            && label_ok(shapes, x) && !label_outer(shapes, x) && label_idx(shapes, x) == idx),
    decreases n,
{
    if n > 0 {
        lemma_inner_positions_contains(shapes, idx, n - 1, x);
        let rest = inner_positions(shapes, idx, n - 1);
        if label_ok(shapes, n - 1) && !label_outer(shapes, n - 1) && label_idx(shapes, n - 1) == idx {
            if rest.push((n - 1) as usize).contains(x as usize) && 0 <= x <= usize::MAX {
                let ext = rest.push((n - 1) as usize);
                let w = choose|w: int| 0 <= w < ext.len() && #[trigger] ext[w] == x as usize;
                if w < rest.len() {
                    assert(rest.contains(x as usize));
                }
            }
            if 0 <= x < n && label_ok(shapes, x) && !label_outer(shapes, x) && label_idx(shapes, x) == idx {
                if x == n - 1 {
                    assert(rest.push((n - 1) as usize)[rest.len() as int] == x as usize);
                } else {
                    let w = choose|w: int| 0 <= w < rest.len() && #[trigger] rest[w] == x as usize;
                    assert(rest.push((n - 1) as usize)[w] == x as usize);
                }
            }
        }
    } else {
        assert(inner_positions(shapes, idx, n) =~= Seq::<usize>::empty());
    }
}

/// The crop that contour `k` belongs to: it is the crop's outer contour or
/// one of its inner contours.
pub open spec fn crop_holds(layout: CropLayout, k: int) -> bool {
    layout.outer == k || layout.inners@.contains(k as usize)
}

/// When grouping succeeds and every group has an outer contour, each
/// contour belongs to exactly one crop.
pub proof fn lemma_each_contour_in_one_crop(size: RectSize, shapes: Seq<Contour>, layouts: Seq<CropLayout>, k: int)
    requires
        layouts_correct(size, shapes, layouts),
        first_bad(shapes, shapes.len() as int) is None,
        !has_orphan(shapes),
        0 <= k < shapes.len(),
        shapes.len() <= usize::MAX,
    ensures
        exists|t: int| 0 <= t < layouts.len() && crop_holds(#[trigger] layouts[t], k),
        forall|t: int, u: int|
            0 <= t < layouts.len() && 0 <= u < layouts.len() && crop_holds(#[trigger] layouts[t], k)
                && crop_holds(#[trigger] layouts[u], k) ==> t == u,
{
    let n = shapes.len() as int;
    lemma_first_bad_none(shapes, n, k);
    let idx = label_idx(shapes, k);
    if label_outer(shapes, k) {
        let t = choose|t: int| 0 <= t < layouts.len() && #[trigger] layouts[t].outer == k;
        assert(crop_holds(layouts[t], k));
    } else {
        assert(!is_orphan(shapes, label_idx(shapes, k)));
        lemma_outer_pos(shapes, idx, n);
        let p = outer_pos(shapes, idx, n)->0;
        let t = choose|t: int| 0 <= t < layouts.len() && #[trigger] layouts[t].outer == p;
        assert(layout_matches(size, shapes, layouts[t]));
        lemma_inner_positions_contains(shapes, idx, n, k);
        assert(crop_holds(layouts[t], k));
    }
    assert forall|t: int, u: int|
        0 <= t < layouts.len() && 0 <= u < layouts.len() && crop_holds(#[trigger] layouts[t], k)
            && crop_holds(#[trigger] layouts[u], k) implies t == u by {
        assert(layout_matches(size, shapes, layouts[t]));
        assert(layout_matches(size, shapes, layouts[u]));
        lemma_inner_positions_contains(shapes, layouts[t].idx as nat, n, k);
        lemma_inner_positions_contains(shapes, layouts[u].idx as nat, n, k);
        assert(layouts[t].idx == layouts[u].idx);
        if t != u {
            if t < u {
                assert(layouts[t].idx != layouts[u].idx);
            } else {
                assert(layouts[u].idx != layouts[t].idx);
            }
        }
    }
}

/// Each crop of a correct layout holds exactly the contours of its group:
/// those whose label parses with the crop's group index.
pub proof fn lemma_crop_holds_group(size: RectSize, shapes: Seq<Contour>, layouts: Seq<CropLayout>)
    requires
        layouts_correct(size, shapes, layouts),
        shapes.len() <= usize::MAX,
    ensures
        forall|t: int, k: int|
            0 <= t < layouts.len() && 0 <= k < shapes.len() ==> ((#[trigger] layouts[t]).outer == k
                || layouts[t].inners@.contains(k as usize) <==> (spec_parse_label(
                (#[trigger] shapes[k]).label@,
            ) matches Ok((_, _, n)) && n == layouts[t].idx)),
{
    let n = shapes.len() as int;
    assert forall|t: int, k: int|
        0 <= t < layouts.len() && 0 <= k < shapes.len() implies ((#[trigger] layouts[t]).outer == k
            || layouts[t].inners@.contains(k as usize) <==> (spec_parse_label(
            (#[trigger] shapes[k]).label@,
        ) matches Ok((_, _, n)) && n == layouts[t].idx)) by {
        assert(layout_matches(size, shapes, layouts[t]));
        lemma_inner_positions_contains(shapes, layouts[t].idx as nat, n, k);
        if label_ok(shapes, k) && label_idx(shapes, k) == layouts[t].idx && label_outer(shapes, k) {
            let u = choose|u: int| 0 <= u < layouts.len() && #[trigger] layouts[u].outer == k;
            assert(layout_matches(size, shapes, layouts[u]));
            if u != t {
                if t < u {
                    assert(layouts[t].idx != layouts[u].idx);
                } else {
                    assert(layouts[u].idx != layouts[t].idx);
                }
            }
        }
    }
}

} // verus!
