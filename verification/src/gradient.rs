use vstd::prelude::*;
use vstd::string::*;
use crate::configuration::INNER_LABEL;
use crate::text::starts_with_text;
use crate::types::{Contour, ContourGroup};

verus! {

/// The label begins with the inner label name.
pub open spec fn is_inner_label(label: Seq<char>) -> bool {
    "inner"@.len() <= label.len() && label.take("inner"@.len() as int) == "inner"@
}

/// The positions, in order, of the first `n` contours whose label begins
/// with the inner label name.
pub open spec fn inner_mask_positions(inners: Seq<Contour>, n: int) -> Seq<usize>
    decreases n,
{
    if n <= 0 {
        Seq::empty()
    } else if is_inner_label(inners[n - 1].label@) {
        inner_mask_positions(inners, n - 1).push((n - 1) as usize)
    } else {
        inner_mask_positions(inners, n - 1)
    }
}

/// The inner mask positions of the first `n` contours are increasing, lie
/// below `n`, and hold a position exactly when the label of the contour there
/// begins with `inner`, the last of the `n` included.
pub proof fn lemma_inner_mask_positions(inners: Seq<Contour>, n: int)
    requires
        0 <= n <= inners.len(),
        inners.len() <= usize::MAX,
    ensures
        forall|j: int| 0 <= j < inner_mask_positions(inners, n).len() ==> #[trigger] inner_mask_positions(
            inners,
            n,
        )[j] < n,
        forall|j: int, k: int|
            0 <= j < k < inner_mask_positions(inners, n).len() ==> #[trigger] inner_mask_positions(
                inners,
                n,
            )[j] < #[trigger] inner_mask_positions(inners, n)[k],
        forall|i: int|
            0 <= i < n ==> (inner_mask_positions(inners, n).contains(i as usize) <==> (#[trigger] inners[i]).label@.len()
                >= 5 && inners[i].label@.take(5) == seq!['i', 'n', 'n', 'e', 'r']),
    decreases n,
{
    reveal_strlit("inner");
    if n > 0 {
        lemma_inner_mask_positions(inners, n - 1);
        let prev = inner_mask_positions(inners, n - 1);
        let cur = inner_mask_positions(inners, n);
        assert("inner"@ =~= seq!['i', 'n', 'n', 'e', 'r']);
        if is_inner_label(inners[n - 1].label@) {
            assert(cur == prev.push((n - 1) as usize));
            assert forall|j: int| 0 <= j < cur.len() implies #[trigger] cur[j] < n by {
                if j < prev.len() {
                    assert(cur[j] == prev[j]);
                }
            }
            assert forall|j: int, k: int| 0 <= j < k < cur.len() implies #[trigger] cur[j] < #[trigger] cur[k] by {
                assert(cur[j] == prev[j]);
                if k < prev.len() {
                    assert(cur[k] == prev[k]);
                }
            }
        }
        assert forall|i: int| 0 <= i < n implies (cur.contains(i as usize) <==> (#[trigger] inners[i]).label@.len()
            >= 5 && inners[i].label@.take(5) == seq!['i', 'n', 'n', 'e', 'r']) by {
            if i < n - 1 {
                if cur.contains(i as usize) {
                    let w = choose|w: int| 0 <= w < cur.len() && cur[w] == i as usize;
                    if w < prev.len() {
                        assert(prev[w] == cur[w]);
                    }
                }
                if prev.contains(i as usize) {
                    let w = choose|w: int| 0 <= w < prev.len() && prev[w] == i as usize;
                    if is_inner_label(inners[n - 1].label@) {
                        assert(cur[w] == prev[w]);
                    }
                }
            } else {
                if is_inner_label(inners[n - 1].label@) {
                    assert(cur[prev.len() as int] == (n - 1) as usize);
                } else if cur.contains(i as usize) {
                    let w = choose|w: int| 0 <= w < cur.len() && cur[w] == i as usize;
                }
            }
        }
    }
}

/// Which contours of a group are filled into its inner mask (the outer
/// contour alone makes the outer mask): the inner contours whose label
/// begins with `inner`, by position.
pub fn inner_mask_contours(group: &ContourGroup) -> (r: Vec<usize>)
    ensures
        r@ == inner_mask_positions(group.inners@, group.inners@.len() as int),
        forall|j: int, k: int| 0 <= j < k < r@.len() ==> r@[j] < r@[k],
        forall|j: int| 0 <= j < r@.len() ==> r@[j] < group.inners@.len(),
        forall|i: int|
            0 <= i < group.inners@.len() ==> (r@.contains(i as usize) <==> (
            #[trigger] group.inners@[i]).label@.len() >= 5 && group.inners@[i].label@.take(5) == seq![
                'i',
                'n',
                'n',
                'e',
                'r',
            ]),
{
    let n: usize = group.inners.len();
    let mut positions: Vec<usize> = Vec::new();
    let mut i: usize = 0;
    while i < n
        invariant
            i <= n,
            n == group.inners@.len(),
            positions@ == inner_mask_positions(group.inners@, i as int),
        decreases n - i,
    {
        if starts_with_text(group.inners[i].label.as_str(), INNER_LABEL) {
            positions.push(i);
        }
        i = i + 1;
    }
    proof {
        lemma_inner_mask_positions(group.inners@, n as int);
    }
    positions
}

} // verus!
