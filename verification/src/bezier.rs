//! Adaptive subdivision of a Bezier control polygon into a polyline.
use vstd::prelude::*;
use crate::fixed::{lemma_blend_between, lemma_mid_between};
use crate::point::Pos2;

verus! {

/// The squared length, in squared raw units, up to which the second
/// difference of three neighbouring control points counts as flat: four
/// times the square of a quarter.
pub const FLATNESS_LIMIT: u128 = 0x4000_0000_0000;

/// How often a control polygon is halved at most; a polygon at this depth is
/// approximated as it is.
pub const MAX_DEPTH: u32 = 16;

/// A sequence of `len` zero points.
pub open spec fn zeros(len: nat) -> Seq<Pos2> {
    Seq::new(len, |i: int| Pos2::zero())
}

/// The second difference `prev - 2 * curr + next`.
pub open spec fn second_difference(prev: Pos2, curr: Pos2, next: Pos2) -> Pos2 {
    prev.sub(curr.scale_int(2)).add(next)
}

/// The squared length of the second difference of the three control points
/// that start at index `i`.
pub open spec fn bend(points: Seq<Pos2>, i: int) -> nat {
    second_difference(points[i], points[i + 1], points[i + 2]).spec_norm_sq()
}

/// Whether every three neighbouring control points are flat.
pub open spec fn is_flat_enough(points: Seq<Pos2>) -> bool {
    forall|i: int| 0 <= i < points.len() - 2 ==> #[trigger] bend(points, i) <= FLATNESS_LIMIT
}

/// The midpoints of the spans of a polygon.
pub open spec fn midpoints(points: Seq<Pos2>) -> Seq<Pos2> {
    if points.len() == 0 {
        points
    } else {
        Seq::new((points.len() - 1) as nat, |j: int| points[j].midpoint(points[j + 1]))
    }
}

/// The polygon after `k` rounds of taking midpoints.
pub open spec fn level(points: Seq<Pos2>, k: nat) -> Seq<Pos2>
    decreases k,
{
    if k == 0 {
        points
    } else {
        midpoints(level(points, (k - 1) as nat))
    }
}

/// Control polygon of the first half of the curve: the first point of each
/// round.
pub open spec fn left_half(points: Seq<Pos2>) -> Seq<Pos2> {
    Seq::new(points.len(), |k: int| level(points, k as nat)[0])
}

/// Control polygon of the second half of the curve: the last point of each
/// round, from the last round to the first.
pub open spec fn right_half(points: Seq<Pos2>) -> Seq<Pos2> {
    Seq::new(points.len(), |i: int| level(points, (points.len() - 1 - i) as nat)[i])
}

/// Both halves in a row, the point that they share taken once.
pub open spec fn joined(left: Seq<Pos2>, right: Seq<Pos2>) -> Seq<Pos2> {
    left + right.subrange(1, right.len() as int)
}

/// The polyline that stands for a flat control polygon: its first point,
/// then for each inner point the weighted mean around every second point of
/// the joined halves.
pub open spec fn flat_piece(points: Seq<Pos2>) -> Seq<Pos2> {
    if points.len() == 0 {
        points
    } else {
        let both = joined(left_half(points), right_half(points));
        Seq::new(
            if points.len() >= 2 {
                (points.len() - 1) as nat
            } else {
                1
            },
            |i: int|
                if i == 0 {
                    points[0]
                } else {
                    both[2 * i].blend(both[2 * i - 1], both[2 * i + 1])
                },
        )
    }
}

/// The polyline of a control polygon that may be halved `depth` times more:
/// a flat polygon gives its flat piece, any other the polylines of its two
/// halves in a row.
pub open spec fn flattened(points: Seq<Pos2>, depth: nat) -> Seq<Pos2>
    decreases depth,
{
    if depth == 0 || is_flat_enough(points) {
        flat_piece(points)
    } else {
        flattened(left_half(points), (depth - 1) as nat) + flattened(
            right_half(points),
            (depth - 1) as nat,
        )
    }
}

/// The polyline that approximates the Bezier curve of a control polygon; it
/// ends in the last control point.
pub open spec fn approximated(points: Seq<Pos2>) -> Seq<Pos2> {
    if points.len() == 0 {
        points
    } else {
        flattened(points, MAX_DEPTH as nat).push(points.last())
    }
}

/// Each round of midpoints is one point shorter.
pub proof fn lemma_level_len(points: Seq<Pos2>, k: nat)
    requires
        k < points.len(),
    ensures
        level(points, k).len() == points.len() - k,
    decreases k,
{
    if k > 0 {
        lemma_level_len(points, (k - 1) as nat);
    }
}

/// The polyline of a control polygon starts at its first point.
pub proof fn lemma_flattened_start(points: Seq<Pos2>, depth: nat)
    requires
        points.len() > 0,
    ensures
        flattened(points, depth).len() > 0,
        flattened(points, depth)[0] == points[0],
    decreases depth,
{
    if depth == 0 || is_flat_enough(points) {
    } else {
        lemma_flattened_start(left_half(points), (depth - 1) as nat);
    }
}

/// Whether every point lies in the box with the corners `lo` and `hi`.
pub open spec fn all_within(points: Seq<Pos2>, lo: Pos2, hi: Pos2) -> bool {
    forall|i: int| 0 <= i < points.len() ==> (#[trigger] points[i]).within(lo, hi)
}

/// The midpoints of a polygon in a box lie in the box, round after round.
pub proof fn lemma_level_within(points: Seq<Pos2>, k: nat, lo: Pos2, hi: Pos2)
    requires
        all_within(points, lo, hi),
    ensures
        all_within(level(points, k), lo, hi),
    decreases k,
{
    if k > 0 {
        lemma_level_within(points, (k - 1) as nat, lo, hi);
        let below = level(points, (k - 1) as nat);
        let here = level(points, k);
        assert forall|i: int| 0 <= i < here.len() implies (#[trigger] here[i]).within(lo, hi) by {
            assert(below[i].within(lo, hi));
            assert(below[i + 1].within(lo, hi));
            lemma_mid_between(below[i].x, below[i + 1].x);
            lemma_mid_between(below[i].y, below[i + 1].y);
        }
    }
}

/// Both halves of a control polygon in a box lie in the box.
pub proof fn lemma_halves_within(points: Seq<Pos2>, lo: Pos2, hi: Pos2)
    requires
        all_within(points, lo, hi),
    ensures
        all_within(left_half(points), lo, hi),
        all_within(right_half(points), lo, hi),
{
    let left = left_half(points);
    let right = right_half(points);
    assert forall|i: int| 0 <= i < left.len() implies (#[trigger] left[i]).within(lo, hi) by {
        lemma_level_within(points, i as nat, lo, hi);
        lemma_level_len(points, i as nat);
        assert(level(points, i as nat)[0].within(lo, hi));
    }
    assert forall|i: int| 0 <= i < right.len() implies (#[trigger] right[i]).within(lo, hi) by {
        let k = (points.len() - 1 - i) as nat;
        lemma_level_within(points, k, lo, hi);
        lemma_level_len(points, k);
        assert(level(points, k)[i].within(lo, hi));
    }
}

/// The flat piece of a control polygon in a box lies in the box.
pub proof fn lemma_flat_piece_within(points: Seq<Pos2>, lo: Pos2, hi: Pos2)
    requires
        all_within(points, lo, hi),
    ensures
        all_within(flat_piece(points), lo, hi),
{
    if points.len() > 0 {
        lemma_halves_within(points, lo, hi);
        let left = left_half(points);
        let right = right_half(points);
        let both = joined(left, right);
        assert forall|m: int| 0 <= m < both.len() implies (#[trigger] both[m]).within(lo, hi) by {
            if m < left.len() {
                assert(both[m] == left[m]);
            } else {
                assert(both[m] == right[m - left.len() + 1]);
            }
        }
        let piece = flat_piece(points);
        assert forall|i: int| 0 <= i < piece.len() implies (#[trigger] piece[i]).within(lo, hi) by {
            if i == 0 {
                assert(points[0].within(lo, hi));
            } else {
                let prev = both[2 * i - 1];
                let curr = both[2 * i];
                let next = both[2 * i + 1];
                assert(prev.within(lo, hi) && curr.within(lo, hi) && next.within(lo, hi));
                lemma_blend_between(curr.x, prev.x, next.x);
                lemma_blend_between(curr.y, prev.y, next.y);
            }
        }
    }
}

/// The polyline of a control polygon in a box lies in the box.
pub proof fn lemma_flattened_within(points: Seq<Pos2>, depth: nat, lo: Pos2, hi: Pos2)
    requires
        all_within(points, lo, hi),
    ensures
        all_within(flattened(points, depth), lo, hi),
    decreases depth,
{
    if depth == 0 || is_flat_enough(points) {
        lemma_flat_piece_within(points, lo, hi);
    } else {
        lemma_halves_within(points, lo, hi);
        lemma_flattened_within(left_half(points), (depth - 1) as nat, lo, hi);
        lemma_flattened_within(right_half(points), (depth - 1) as nat, lo, hi);
        let first = flattened(left_half(points), (depth - 1) as nat);
        let second = flattened(right_half(points), (depth - 1) as nat);
        assert forall|i: int| 0 <= i < (first + second).len() implies (#[trigger] (first
            + second)[i]).within(lo, hi) by {
            if i < first.len() {
                assert(first[i].within(lo, hi));
            } else {
                assert(second[i - first.len()].within(lo, hi));
            }
        }
    }
}

/// A vector of `len` zero points.
pub fn zero_points(len: usize) -> (r: Vec<Pos2>)
    ensures
        r@ == zeros(len as nat),
{
    let mut r: Vec<Pos2> = Vec::new();
    let mut i: usize = 0;
    while i < len
        invariant
            i <= len,
            r@ == zeros(i as nat),
        decreases len - i,
    {
        r.push(Pos2::zero());
        i = i + 1;
    }
    r
}

/// Scratch space for the subdivision of control polygons.
pub struct BezierBuffers {
    pub buf1: Vec<Pos2>,
    pub buf2: Vec<Pos2>,
    pub buf3: Vec<Pos2>,
}

impl BezierBuffers {
    /// Whether each buffer has room for `len` points.
    pub open spec fn fits(&self, len: nat) -> bool {
        &&& self.buf1@.len() >= len
        &&& self.buf2@.len() >= len
        &&& self.buf3@.len() >= len
    }

    /// Buffers of `len` zero points each.
    pub fn new(len: usize) -> (r: Self)
        ensures
            r.buf1@ == zeros(len as nat),
            r.buf2@ == zeros(len as nat),
            r.buf3@ == zeros(len as nat),
            r.fits(len as nat),
    {
        BezierBuffers { buf1: zero_points(len), buf2: zero_points(len), buf3: zero_points(len) }
    }
}

/// Whether the control polygon is flat enough to be approximated as it is.
pub fn bezier_is_flat_enough(points: &Vec<Pos2>) -> (r: bool)
    ensures
        r == is_flat_enough(points@),
{
    let n: usize = points.len();
    if n < 3 {
        return true;
    }
    let mut i: usize = 0;
    while i < n - 2
        invariant
            n == points@.len(),
            n >= 3,
            i <= n - 2,
            forall|j: int| 0 <= j < i ==> #[trigger] bend(points@, j) <= FLATNESS_LIMIT,
        decreases n - i,
    {
        let d: Pos2 = points[i].sub(points[i + 1].scale_int(2)).add(points[i + 2]);
        if d.norm_sq() > FLATNESS_LIMIT {
            assert(bend(points@, i as int) > FLATNESS_LIMIT);
            return false;
        }
        i = i + 1;
    }
    true
}

/// Halves the control polygon `points` at its middle parameter: the first
/// `points.len()` entries of `l` and `r` become the control polygons of the
/// two halves, and their other entries stay as they are. `midpoints` is
/// scratch space.
pub fn bezier_subdivide(
    points: &Vec<Pos2>,
    l: &mut Vec<Pos2>,
    r: &mut Vec<Pos2>,
    midpoints: &mut Vec<Pos2>,
)
    requires
        points@.len() <= old(l)@.len(),
        points@.len() <= old(r)@.len(),
        points@.len() <= old(midpoints)@.len(),
    ensures
        final(l)@.len() == old(l)@.len(),
        final(r)@.len() == old(r)@.len(),
        final(midpoints)@.len() == old(midpoints)@.len(),
        final(l)@.take(points@.len() as int) == left_half(points@),
        final(r)@.take(points@.len() as int) == right_half(points@),
        forall|i: int| points@.len() <= i < old(l)@.len() ==> final(l)@[i] == old(l)@[i],
        forall|i: int| points@.len() <= i < old(r)@.len() ==> final(r)@[i] == old(r)@[i],
{
    let count: usize = points.len();
    if count == 0 {
        assert(l@.take(0) == left_half(points@));
        assert(r@.take(0) == right_half(points@));
        return;
    }
    let mut c: usize = 0;
    while c < count
        invariant
            c <= count,
            count == points@.len(),
            midpoints@.len() == old(midpoints)@.len(),
            count <= midpoints@.len(),
            forall|m: int| 0 <= m < c ==> midpoints@[m] == points@[m],
        decreases count - c,
    {
        midpoints.set(c, points[c]);
        c = c + 1;
    }
    let mut k: usize = 0;
    while k + 1 < count
        invariant
            k < count,
            count == points@.len(),
            l@.len() == old(l)@.len(),
            r@.len() == old(r)@.len(),
            midpoints@.len() == old(midpoints)@.len(),
            count <= l@.len(),
            count <= r@.len(),
            count <= midpoints@.len(),
            forall|m: int| count <= m < l@.len() ==> l@[m] == old(l)@[m],
            forall|m: int| count <= m < r@.len() ==> r@[m] == old(r)@[m],
            forall|m: int| 0 <= m < count - k ==> midpoints@[m] == level(points@, k as nat)[m],
            forall|m: int| 0 <= m < k ==> l@[m] == level(points@, m as nat)[0],
            forall|m: int|
                count - k <= m < count ==> r@[m] == level(points@, (count - 1 - m) as nat)[m],
        decreases count - k,
    {
        let i: usize = count - 1 - k;
        l.set(k, midpoints[0]);
        r.set(i, midpoints[i]);
        proof {
            lemma_level_len(points@, k as nat);
        }
        let mut j: usize = 0;
        while j < i
            invariant
                j <= i,
                i == count - 1 - k,
                k + 1 < count,
                count == points@.len(),
                midpoints@.len() == old(midpoints)@.len(),
                count <= midpoints@.len(),
                level(points@, k as nat).len() == count - k,
                forall|m: int|
                    0 <= m < j ==> midpoints@[m] == level(points@, (k + 1) as nat)[m],
                forall|m: int| j <= m <= i ==> midpoints@[m] == level(points@, k as nat)[m],
            decreases i - j,
        {
            let mid: Pos2 = midpoints[j].midpoint(midpoints[j + 1]);
            midpoints.set(j, mid);
            j = j + 1;
        }
        k = k + 1;
    }
    l.set(count - 1, midpoints[0]);
    r.set(0, midpoints[0]);
    proof {
        assert(l@.take(count as int) =~= left_half(points@));
        assert(r@.take(count as int) =~= right_half(points@));
    }
}

/// The point at index `m` of the two halves in a row.
fn joined_at(l: &Vec<Pos2>, r: &Vec<Pos2>, count: usize, m: u128) -> (p: Pos2)
    requires
        1 <= count <= l@.len(),
        count <= r@.len(),
        m < 2 * count - 1,
    ensures
        p == joined(l@.take(count as int), r@.take(count as int))[m as int],
{
    if m < count as u128 {
        l[m as usize]
    } else {
        r[(m - count as u128 + 1) as usize]
    }
}

/// Appends to `path` the polyline that stands for the flat control polygon
/// `points`.
pub fn bezier_approximate(points: &Vec<Pos2>, path: &mut Vec<Pos2>, bufs: &mut BezierBuffers)
    requires
        old(bufs).fits(points@.len()),
    ensures
        final(path)@ == old(path)@ + flat_piece(points@),
        final(bufs).fits(points@.len()),
        final(bufs).buf1@.len() == old(bufs).buf1@.len(),
        final(bufs).buf2@.len() == old(bufs).buf2@.len(),
        final(bufs).buf3@.len() == old(bufs).buf3@.len(),
{
    let count: usize = points.len();
    if count == 0 {
        assert(path@ == path@ + flat_piece(points@));
        return;
    }
    bezier_subdivide(points, &mut bufs.buf1, &mut bufs.buf2, &mut bufs.buf3);
    let ghost before = path@;
    let ghost both = joined(left_half(points@), right_half(points@));
    path.push(points[0]);
    let mut i: usize = 1;
    while i < count - 1
        invariant
            1 <= i <= count,
            i <= count - 1 || count == 1,
            count == points@.len(),
            count <= bufs.buf1@.len(),
            count <= bufs.buf2@.len(),
            bufs.buf1@.take(count as int) == left_half(points@),
            bufs.buf2@.take(count as int) == right_half(points@),
            both == joined(left_half(points@), right_half(points@)),
            path@.len() == before.len() + i,
            forall|m: int| 0 <= m < before.len() ==> path@[m] == before[m],
            forall|m: int| 0 <= m < i ==> path@[before.len() + m] == flat_piece(points@)[m],
        decreases count - i,
    {
        let idx: u128 = 2 * (i as u128);
        let prev: Pos2 = joined_at(&bufs.buf1, &bufs.buf2, count, idx - 1);
        let curr: Pos2 = joined_at(&bufs.buf1, &bufs.buf2, count, idx);
        let next: Pos2 = joined_at(&bufs.buf1, &bufs.buf2, count, idx + 1);
        path.push(curr.blend(prev, next));
        i = i + 1;
    }
    assert(path@ =~= before + flat_piece(points@));
}

/// A control polygon that waits on the stack, and how often it may still be
/// halved.
pub struct Pending {
    pub points: Vec<Pos2>,
    pub budget: u32,
}

/// The polyline that the polygons on the stack will give, the top of the
/// stack first.
pub open spec fn pending_output(stack: Seq<Pending>) -> Seq<Pos2>
    decreases stack.len(),
{
    if stack.len() == 0 {
        Seq::empty()
    } else {
        flattened(stack.last().points@, stack.last().budget as nat) + pending_output(
            stack.drop_last(),
        )
    }
}

/// An upper bound of the number of polygons that a polygon with the given
/// budget brings to the stack, itself counted.
pub open spec fn work_of(budget: nat) -> nat {
    (vstd::arithmetic::power2::pow2(budget + 1) - 1) as nat
}

/// An upper bound of the number of polygons that are still to be taken from
/// the stack.
pub open spec fn pending_work(stack: Seq<Pending>) -> nat
    decreases stack.len(),
{
    if stack.len() == 0 {
        0
    } else {
        work_of(stack.last().budget as nat) + pending_work(stack.drop_last())
    }
}

/// A polygon costs one step more than its two halves.
pub proof fn lemma_work_of_halves(budget: nat)
    requires
        budget > 0,
    ensures
        work_of(budget) == 1 + 2 * work_of((budget - 1) as nat),
        work_of(budget) >= 1,
{
    vstd::arithmetic::power2::lemma_pow2_unfold(budget + 1);
    vstd::arithmetic::power2::lemma_pow2_pos(budget);
}

/// A copy of `points`.
pub fn copy_points(points: &Vec<Pos2>) -> (r: Vec<Pos2>)
    ensures
        r@ == points@,
{
    let mut r: Vec<Pos2> = Vec::new();
    let mut i: usize = 0;
    while i < points.len()
        invariant
            i <= points@.len(),
            r@ == points@.take(i as int),
        decreases points@.len() - i,
    {
        r.push(points[i]);
        assert(points@.take(i + 1) == points@.take(i as int).push(points@[i as int]));
        i = i + 1;
    }
    assert(points@.take(i as int) == points@);
    r
}

/// Appends to `result` the polyline of the control polygon `points`, up
/// to, but not including, its last point. Polygons that are not flat yet
/// wait on a stack, the first half on top, so that the polyline grows from
/// its start to its end.
pub fn bezier_subpath(result: &mut Vec<Pos2>, points: &Vec<Pos2>, bufs: &mut BezierBuffers)
    requires
        old(bufs).fits(points@.len()),
    ensures
        final(result)@ == old(result)@ + flattened(points@, MAX_DEPTH as nat),
        final(bufs).fits(points@.len()),
        final(bufs).buf1@.len() == old(bufs).buf1@.len(),
        final(bufs).buf2@.len() == old(bufs).buf2@.len(),
        final(bufs).buf3@.len() == old(bufs).buf3@.len(),
{
    let p: usize = points.len();
    let ghost before = result@;
    let ghost len1 = bufs.buf1@.len();
    let ghost len2 = bufs.buf2@.len();
    let ghost len3 = bufs.buf3@.len();
    let mut to_flatten: Vec<Pending> = Vec::new();
    let whole: Pending = Pending { points: copy_points(points), budget: MAX_DEPTH };
    to_flatten.push(whole);
    proof {
        assert(to_flatten@.len() == 1);
        assert(to_flatten@.last() == whole);
        assert(to_flatten@.drop_last().len() == 0);
        assert(pending_output(to_flatten@.drop_last()) == Seq::<Pos2>::empty());
        assert(pending_output(to_flatten@) == flattened(whole.points@, whole.budget as nat)
            + pending_output(to_flatten@.drop_last()));
        assert(pending_output(to_flatten@) =~= flattened(points@, MAX_DEPTH as nat));
    }
    while to_flatten.len() > 0
        invariant
            p == points@.len(),
            bufs.fits(p as nat),
            bufs.buf1@.len() == len1,
            bufs.buf2@.len() == len2,
            bufs.buf3@.len() == len3,
            forall|m: int|
                0 <= m < to_flatten@.len() ==> (#[trigger] to_flatten@[m]).points@.len() == p,
            result@ + pending_output(to_flatten@) == before + flattened(
                points@,
                MAX_DEPTH as nat,
            ),
        decreases pending_work(to_flatten@),
    {
        let ghost stack = to_flatten@;
        let ghost rest = to_flatten@.drop_last();
        let ghost done = result@;
        let parent: Pending = to_flatten.pop().unwrap();
        assert(to_flatten@ == rest);
        if parent.budget == 0 || bezier_is_flat_enough(&parent.points) {
            bezier_approximate(&parent.points, result, bufs);
            proof {
                assert(flattened(parent.points@, parent.budget as nat) == flat_piece(
                    parent.points@,
                ));
                assert(pending_output(stack) == flattened(
                    parent.points@,
                    parent.budget as nat,
                ) + pending_output(rest));
                assert(pending_work(stack) == work_of(parent.budget as nat) + pending_work(rest));
                assert(result@ + pending_output(rest) =~= done + pending_output(stack));
                if parent.budget > 0 {
                    lemma_work_of_halves(parent.budget as nat);
                } else {
                    vstd::arithmetic::power2::lemma2_to64();
                }
            }
        } else {
            let mut left_child: Vec<Pos2> = zero_points(p);
            let mut right_child: Vec<Pos2> = zero_points(p);
            bezier_subdivide(&parent.points, &mut left_child, &mut right_child, &mut bufs.buf1);
            proof {
                assert(left_child@.take(p as int) == left_child@);
                assert(right_child@.take(p as int) == right_child@);
            }
            let right: Pending = Pending { points: right_child, budget: parent.budget - 1 };
            let left: Pending = Pending { points: left_child, budget: parent.budget - 1 };
            to_flatten.push(right);
            to_flatten.push(left);
            proof {
                let with_right = rest.push(right);
                let less = (parent.budget - 1) as nat;
                assert(with_right.drop_last() == rest);
                assert(to_flatten@.drop_last() == with_right);
                assert(pending_output(with_right) == flattened(right_half(parent.points@), less)
                    + pending_output(rest));
                assert(pending_output(to_flatten@) == flattened(left_half(parent.points@), less)
                    + pending_output(with_right));
                assert(pending_output(stack) == flattened(
                    parent.points@,
                    parent.budget as nat,
                ) + pending_output(rest));
                assert(pending_output(to_flatten@) =~= pending_output(stack));
                lemma_work_of_halves(parent.budget as nat);
                assert(pending_work(with_right) == work_of(less) + pending_work(rest));
                assert(pending_work(to_flatten@) == work_of(less) + pending_work(with_right));
                assert(pending_work(stack) == work_of(parent.budget as nat) + pending_work(rest));
            }
        }
    }
    proof {
        assert(pending_output(to_flatten@) == Seq::<Pos2>::empty());
        assert(result@ =~= before + flattened(points@, MAX_DEPTH as nat));
    }
}

/// Appends to `path` the polyline that approximates the Bezier curve with
/// the control polygon `points`; it ends in the last control point.
pub fn approximate_bspline(path: &mut Vec<Pos2>, points: &Vec<Pos2>, bufs: &mut BezierBuffers)
    requires
        old(bufs).fits(points@.len()),
    ensures
        final(path)@ == old(path)@ + approximated(points@),
        final(bufs).fits(points@.len()),
{
    let p: usize = points.len();
    if p == 0 {
        assert(path@ == path@ + approximated(points@));
        return;
    }
    let ghost before = path@;
    bezier_subpath(path, points, bufs);
    path.push(points[p - 1]);
    assert(path@ =~= before + approximated(points@));
}

/// Appends to `path` the Bezier approximation of the control polygon
/// `points`.
pub fn approximate_bezier(path: &mut Vec<Pos2>, points: &Vec<Pos2>)
    ensures
        final(path)@ == old(path)@ + approximated(points@),
{
    let mut bufs: BezierBuffers = BezierBuffers::new(points.len());
    approximate_bspline(path, points, &mut bufs);
}

} // verus!
