use vstd::prelude::*;

verus! {

/// One output point of Catmull–Rom smoothing: the positions of the four
/// control points in the closed polygon and the sample step; the point lies
/// at `t = step / smooth_factor` on the segment from `p1` to `p2`.
#[derive(Debug, Clone, Copy, PartialEq, Eq, Structural)]
pub struct SplineSample {
    pub p0: usize,
    pub p1: usize,
    pub p2: usize,
    pub p3: usize,
    pub step: usize,
}

/// Number of points of the polygon once it is closed: a polygon whose last
/// point differs from its first gets the first point appended.
pub open spec fn closed_len(count: nat, closed: bool) -> nat {
    if closed {
        count
    } else {
        count + 1
    }
}

/// The sample at step `j` of segment `i` of a closed polygon of `m` points:
/// control points `i - 1`, `i`, `i + 1`, `i + 2`, wrapping around.
pub open spec fn sample_for(m: int, i: int, j: int) -> SplineSample {
    SplineSample {
        p0: ((i + m - 1) % m) as usize,
        p1: i as usize,
        p2: ((i + 1) % m) as usize,
        p3: ((i + 2) % m) as usize,
        step: j as usize,
    }
}

/// Segment `i` of a closed polygon of `m` points runs from point `i` to point
/// `i + 1`; its outer control points are the point before `i` (the last
/// point, for the first segment) and the point after `i + 1` (the first
/// point, for the last segment).
pub proof fn lemma_sample_for(m: int, i: int, j: int)
    requires
        4 <= m <= usize::MAX,
        0 <= i < m - 1,
        0 <= j <= usize::MAX,
    ensures
        sample_for(m, i, j).p0 == (if i == 0 { m - 1 } else { i - 1 }),
        sample_for(m, i, j).p1 == i,
        sample_for(m, i, j).p2 == i + 1,
        sample_for(m, i, j).p3 == (if i + 2 < m { i + 2 } else { 0 }),
        sample_for(m, i, j).step == j,
{
    if i == 0 {
        assert((i + m - 1) % m == m - 1) by (nonlinear_arith)
            requires
                i == 0,
                m >= 4,
        ;
    } else {
        assert((i + m - 1) % m == i - 1) by (nonlinear_arith)
            requires
                1 <= i < m,
        ;
    }
    assert((i + 1) % m == i + 1) by (nonlinear_arith)
        requires
            0 <= i < m - 1,
    ;
    if i + 2 < m {
        assert((i + 2) % m == i + 2) by (nonlinear_arith)
            requires
                0 <= i,
                i + 2 < m,
        ;
    } else {
        assert((i + 2) % m == 0) by (nonlinear_arith)
            requires
                i + 2 == m,
                m >= 4,
        ;
    }
}

/// How a polygon of `count` points is smoothed with `smooth_factor` samples
/// per segment; `closed` tells whether its last point equals its first.
/// A polygon of fewer than four points stays as it is (`None`). Otherwise
/// every segment `i` of the closed polygon, in order, gives the samples at
/// steps `0..smooth_factor`.
pub fn smoothing_samples(count: usize, closed: bool, smooth_factor: usize) -> (r: Option<Vec<SplineSample>>)
    requires
        count < usize::MAX / 2,
        count >= 4 ==> smooth_factor * closed_len(count as nat, closed) <= usize::MAX,
    ensures
        count < 4 ==> r is None,
        count >= 4 ==> (r matches Some(samples) && {
            let m = closed_len(count as nat, closed) as int;
            &&& samples@.len() == smooth_factor * (m - 1)
            &&& forall|i: int, j: int|
                0 <= i < m - 1 && 0 <= j < smooth_factor ==> #[trigger] samples@[i * smooth_factor + j]
                    == sample_for(m, i, j)
            &&& forall|i: int, j: int|
                0 <= i < m - 1 && 0 <= j < smooth_factor ==> {
                    let sample = #[trigger] samples@[i * smooth_factor + j];
                    &&& sample.p0 == (if i == 0 { m - 1 } else { i - 1 })
                    &&& sample.p1 == i
                    &&& sample.p2 == i + 1
                    &&& sample.p3 == (if i + 2 < m { i + 2 } else { 0 })
                    &&& sample.step == j
                }
        }),
{
    if count < 4 {
        return None;
    }
    let m: usize = if closed { count } else { count + 1 };
    let s: usize = smooth_factor;
    let mut samples: Vec<SplineSample> = Vec::new();
    let mut i: usize = 0;
    while i < m - 1
        invariant
            4 <= m,
            m <= usize::MAX / 2,
            m == closed_len(count as nat, closed),
            s == smooth_factor,
            s * m <= usize::MAX,
            i <= m - 1,
            samples@.len() == i * s,
            forall|a: int, b: int|
                0 <= a < i && 0 <= b < s ==> #[trigger] samples@[a * s + b] == sample_for(m as int, a, b),
        decreases m - 1 - i,
    {
        let p0: usize = (i + m - 1) % m;
        let p2: usize = (i + 1) % m;
        let p3: usize = (i + 2) % m;
        let mut j: usize = 0;
        proof {
            assert(i * s + s <= s * m) by (nonlinear_arith)
                requires
                    i < m,
            ;
        }
        while j < s
            invariant
                4 <= m,
                m == closed_len(count as nat, closed),
                s == smooth_factor,
                s * m <= usize::MAX,
                i < m - 1,
                i * s + s <= s * m,
                j <= s,
                p0 == (i + m - 1) % (m as int),
                p2 == (i + 1) % (m as int),
                p3 == (i + 2) % (m as int),
                samples@.len() == i * s + j,
                forall|a: int, b: int|
                    0 <= a < i && 0 <= b < s ==> #[trigger] samples@[a * s + b] == sample_for(m as int, a, b),
                forall|b: int| 0 <= b < j ==> #[trigger] samples@[i * s + b] == sample_for(m as int, i as int, b),
            decreases s - j,
        {
            let ghost old = samples@;
            samples.push(SplineSample { p0, p1: i, p2, p3, step: j });
            proof {
                assert forall|a: int, b: int|
                    0 <= a < i && 0 <= b < s implies #[trigger] samples@[a * s + b] == sample_for(m as int, a, b) by {
                    assert(a * s + b < i * s) by (nonlinear_arith)
                        requires
                            a < i,
                            b < s,
                    ;
                    assert(samples@[a * s + b] == old[a * s + b]);
                }
            }
            j = j + 1;
        }
        proof {
            assert((i + 1) * s == i * s + s) by (nonlinear_arith);
            assert forall|a: int, b: int|
                0 <= a < i + 1 && 0 <= b < s implies #[trigger] samples@[a * s + b] == sample_for(m as int, a, b) by {
                if a == i {
                }
            }
        }
        i = i + 1;
    }
    proof {
        assert((m - 1) * s == s * (m - 1)) by (nonlinear_arith);
        assert forall|a: int, b: int| 0 <= a < m - 1 && 0 <= b < s implies {
            let sample = #[trigger] samples@[a * s + b];
            &&& sample.p0 == (if a == 0 { m - 1 } else { a - 1 })
            &&& sample.p1 == a
            &&& sample.p2 == a + 1
            &&& sample.p3 == (if a + 2 < m { a + 2 } else { 0 })
            &&& sample.step == b
        } by {
            lemma_sample_for(m as int, a, b);
        }
    }
    Some(samples)
}

/// Smoothing with at least two samples per segment gives more points than
/// the polygon had.
pub proof fn lemma_smoothing_adds_points(count: nat, closed: bool, smooth_factor: nat)
    requires
        count >= 4,
        smooth_factor >= 2,
    ensures
        smooth_factor * (closed_len(count, closed) - 1) > count,
{
    let m = closed_len(count, closed);
    assert(smooth_factor * (m - 1) >= 2 * (m - 1)) by (nonlinear_arith)
        requires
            smooth_factor >= 2,
            m >= 4,
    ;
}

} // verus!
