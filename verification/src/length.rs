//! The table of cumulative arc lengths of a polyline, and its correction to
//! a declared total length.
use vstd::prelude::*;
use crate::fixed::Fixed;
use crate::path::{ends_coincide, PathControlPoint};
use crate::point::Pos2;

verus! {

/// Arc length from the first vertex to each vertex of `path`, summed with
/// saturation.
pub open spec fn cumulative_lengths(path: Seq<Pos2>) -> Seq<Fixed>
    decreases path.len(),
{
    if path.len() == 0 {
        Seq::empty()
    } else if path.len() == 1 {
        seq![Fixed::zero()]
    } else {
        let before = cumulative_lengths(path.drop_last());
        before.push(before.last().add(path[path.len() - 2].distance(path[path.len() - 1])))
    }
}

/// How many leading entries of `lengths` stay when trailing entries greater
/// than `limit` are dropped one by one.
pub open spec fn retained(lengths: Seq<Fixed>, limit: Fixed) -> nat
    decreases lengths.len(),
{
    if lengths.len() == 0 {
        0
    } else if lengths.last().raw > limit.raw {
        retained(lengths.drop_last(), limit)
    } else {
        lengths.len()
    }
}

/// The index of the vertex that ends the corrected polyline: every complete
/// span that ends at or before `expected` stays.
pub open spec fn end_index(path: Seq<Pos2>, expected: Fixed) -> nat {
    let table = cumulative_lengths(path);
    if table.last().raw > expected.raw {
        retained(table.drop_last(), expected)
    } else {
        (table.len() - 1) as nat
    }
}

/// The vertex at distance `expected` along the polyline, on the ray from
/// vertex `end - 1` through vertex `end` of `path`: vertex `end - 1` plus
/// the vector of the span, stretched by the ratio of the length that is
/// still due to the length of the span.
pub open spec fn relocated_end(path: Seq<Pos2>, end: int, expected: Fixed) -> Pos2 {
    let prev = path[end - 1];
    let span = path[end].sub(prev);
    prev.add(span.scale_ratio(expected.sub(cumulative_lengths(path)[end - 1]), span.length()))
}

/// The polyline and its table of cumulative lengths after correction to the
/// total length `expected`.
///
/// A table whose last entry is within the tolerance of `expected` stays. If
/// `coincide` holds and the polyline is shorter than `expected`, its length
/// is entered once more and nothing is moved. Otherwise the spans that end
/// beyond `expected` are dropped and the last vertex is moved along its
/// span so that the table ends in `expected`; a polyline left with a single
/// vertex gets the table `[0]`.
pub open spec fn corrected(coincide: bool, path: Seq<Pos2>, expected: Fixed) -> (
    Seq<Pos2>,
    Seq<Fixed>,
) {
    let table = cumulative_lengths(path);
    if path.len() == 0 {
        (path, table)
    } else if expected.near(table.last()) {
        (path, table)
    } else if coincide && expected.raw > table.last().raw {
        (path, table.push(table.last()))
    } else {
        let end = end_index(path, expected) as int;
        if end == 0 {
            (path.take(1), seq![Fixed::zero()])
        } else {
            (
                path.take(end).push(relocated_end(path, end, expected)),
                table.take(end).push(expected),
            )
        }
    }
}

/// Whether no entry of `table` is smaller than an earlier one.
pub open spec fn non_decreasing(table: Seq<Fixed>) -> bool {
    forall|i: int, j: int| 0 <= i <= j < table.len() ==> table[i].raw <= table[j].raw
}

/// Whether the correction enters the uncorrected length a second time and
/// moves nothing: the last two control points coincide and the non-empty
/// polyline is shorter than `expected` by more than the tolerance.
pub open spec fn keeps_unextended(coincide: bool, path: Seq<Pos2>, expected: Fixed) -> bool {
    let table = cumulative_lengths(path);
    &&& path.len() > 0
    &&& !expected.near(table.last())
    &&& coincide
    &&& expected.raw > table.last().raw
}

/// A table of cumulative lengths starts at zero and never decreases.
pub proof fn lemma_cumulative_non_decreasing(path: Seq<Pos2>)
    ensures
        cumulative_lengths(path).len() == path.len(),
        non_decreasing(cumulative_lengths(path)),
        path.len() > 0 ==> cumulative_lengths(path)[0] == Fixed::zero(),
    decreases path.len(),
{
    if path.len() >= 2 {
        lemma_cumulative_non_decreasing(path.drop_last());
        let before = cumulative_lengths(path.drop_last());
        let step = path[path.len() - 2].distance(path[path.len() - 1]);
        assert(step.raw >= 0);
        assert(before.last().add(step).raw >= before.last().raw);
        let table = cumulative_lengths(path);
        assert forall|i: int, j: int| 0 <= i <= j < table.len() implies table[i].raw
            <= table[j].raw by {
            if j < before.len() {
                assert(table[i] == before[i] && table[j] == before[j]);
            } else if i < before.len() {
                assert(table[i] == before[i]);
                assert(before[i].raw <= before.last().raw);
            }
        }
    }
}

/// What stays of a table ends at or before the limit, and all that was
/// dropped lies beyond it.
pub proof fn lemma_retained_bounds(lengths: Seq<Fixed>, limit: Fixed)
    ensures
        retained(lengths, limit) <= lengths.len(),
        retained(lengths, limit) > 0 ==> lengths[retained(lengths, limit) - 1].raw <= limit.raw,
        forall|j: int|
            retained(lengths, limit) <= j < lengths.len() ==> (#[trigger] lengths[j]).raw
                > limit.raw,
    decreases lengths.len(),
{
    if lengths.len() > 0 && lengths.last().raw > limit.raw {
        lemma_retained_bounds(lengths.drop_last(), limit);
        let k = retained(lengths.drop_last(), limit);
        assert forall|j: int| k <= j < lengths.len() implies (#[trigger] lengths[j]).raw
            > limit.raw by {
            if j < lengths.len() - 1 {
                assert(lengths[j] == lengths.drop_last()[j]);
            }
        }
        if k > 0 {
            assert(lengths[k - 1] == lengths.drop_last()[k - 1]);
        }
    }
}

/// The shape of a corrected polyline and its table: the table never
/// decreases and starts at zero, it has one entry for each vertex and one
/// more exactly when the uncorrected length was entered twice, and the
/// polyline has lost vertices only at its end.
pub proof fn lemma_corrected_shape(coincide: bool, path: Seq<Pos2>, expected: Fixed)
    ensures
        ({
            let (fixed_path, table) = corrected(coincide, path, expected);
            &&& non_decreasing(table)
            &&& table.len() == fixed_path.len() + if keeps_unextended(coincide, path, expected) {
                1int
            } else {
                0int
            }
            &&& fixed_path.len() <= path.len()
            &&& (path.len() > 0 ==> fixed_path.len() > 0 && table[0] == Fixed::zero()
                && fixed_path[0] == path[0])
            &&& fixed_path.take(fixed_path.len() - 1) == path.take(fixed_path.len() - 1)
        }),
{
    lemma_cumulative_non_decreasing(path);
    let table = cumulative_lengths(path);
    let (fixed_path, fixed_table) = corrected(coincide, path, expected);
    if path.len() == 0 {
    } else if expected.near(table.last()) {
    } else if coincide && expected.raw > table.last().raw {
        assert(non_decreasing(fixed_table)) by {
            assert forall|i: int, j: int| 0 <= i <= j < fixed_table.len() implies fixed_table[i].raw
                <= fixed_table[j].raw by {
                if j < table.len() {
                } else if i < table.len() {
                    assert(table[i].raw <= table.last().raw);
                }
            }
        }
    } else {
        let end = end_index(path, expected) as int;
        lemma_retained_bounds(table.drop_last(), expected);
        assert(end <= table.len() - 1);
        if end == 0 {
            assert(fixed_path.take(0) == path.take(0));
        } else {
            assert(table[end - 1].raw <= expected.raw) by {
                if table.last().raw > expected.raw {
                    assert(table.drop_last()[end - 1] == table[end - 1]);
                } else {
                    assert(table[end - 1].raw <= table.last().raw);
                }
            }
            assert(non_decreasing(fixed_table)) by {
                assert forall|i: int, j: int| 0 <= i <= j < fixed_table.len() implies fixed_table[i].raw
                    <= fixed_table[j].raw by {
                    if j < end {
                        assert(table[i].raw <= table[j].raw);
                    } else if i < end {
                        assert(table[i].raw <= table[end - 1].raw);
                    }
                }
            }
            assert(fixed_path.take(fixed_path.len() - 1) == path.take(fixed_path.len() - 1));
        }
    }
}

/// Unless the uncorrected length was entered twice, a corrected table of a
/// polyline of two or more vertices ends within the tolerance of a
/// non-negative expected length.
pub proof fn lemma_corrected_total(coincide: bool, path: Seq<Pos2>, expected: Fixed)
    requires
        expected.raw >= 0,
        path.len() >= 2,
        !keeps_unextended(coincide, path, expected),
    ensures
        expected.near(corrected(coincide, path, expected).1.last()),
{
    lemma_cumulative_non_decreasing(path);
    let table = cumulative_lengths(path);
    if expected.near(table.last()) {
    } else {
        let end = end_index(path, expected) as int;
        if table.last().raw > expected.raw {
            assert(retained(table.drop_last(), expected) > 0) by {
                lemma_retained_bounds(table.drop_last(), expected);
                let k = retained(table.drop_last(), expected);
                if k == 0 {
                    assert(table.drop_last()[0].raw > expected.raw);
                }
            }
        }
        assert(end > 0);
        assert(corrected(coincide, path, expected).1.last() == expected);
    }
}

/// Computes the table of cumulative lengths of `path`.
pub fn cumulative(path: &Vec<Pos2>) -> (table: Vec<Fixed>)
    ensures
        table@ == cumulative_lengths(path@),
        table@.len() == path@.len(),
{
    let mut table: Vec<Fixed> = Vec::new();
    if path.len() == 0 {
        return table;
    }
    let mut total: Fixed = Fixed::zero();
    table.push(total);
    let mut i: usize = 1;
    assert(path@.take(1).len() == 1);
    while i < path.len()
        invariant
            1 <= i <= path.len(),
            table@ == cumulative_lengths(path@.take(i as int)),
            table@.len() == i,
            total == table@.last(),
        decreases path.len() - i,
    {
        let step: Fixed = path[i - 1].distance(path[i]);
        total = total.add(step);
        proof {
            let longer = path@.take(i + 1);
            assert(longer.drop_last() == path@.take(i as int));
            assert(longer[longer.len() - 2] == path@[i - 1]);
            assert(longer[longer.len() - 1] == path@[i as int]);
        }
        table.push(total);
        i = i + 1;
    }
    assert(path@.take(i as int) == path@);
    table
}

/// Corrects `path` to the total length `expected_len` and returns its table
/// of cumulative lengths. `coincide` says whether the control points that
/// gave the polyline end in two equal points.
pub fn correct_length(coincide: bool, path: &mut Vec<Pos2>, expected_len: Fixed) -> (lengths: Vec<
    Fixed,
>)
    ensures
        (final(path)@, lengths@) == corrected(coincide, old(path)@, expected_len),
{
    let ghost path0 = path@;
    let mut lengths: Vec<Fixed> = cumulative(path);
    let ghost table = lengths@;
    if path.len() == 0 {
        return lengths;
    }
    let calculated_len: Fixed = lengths[lengths.len() - 1];
    if expected_len.near(calculated_len) {
        return lengths;
    }
    if coincide && expected_len.raw > calculated_len.raw {
        lengths.push(calculated_len);
        return lengths;
    }
    // The last entry is replaced in any case.
    lengths.pop();
    assert(lengths@ == table.drop_last());
    if calculated_len.raw > expected_len.raw {
        while lengths.len() > 0 && lengths[lengths.len() - 1].raw > expected_len.raw
            invariant
                path0.len() == table.len(),
                lengths@ == table.take(lengths@.len() as int),
                path@ == path0.take(lengths@.len() as int + 1),
                lengths@.len() < table.len(),
                retained(lengths@, expected_len) == retained(table.drop_last(), expected_len),
            decreases lengths@.len(),
        {
            proof {
                assert(lengths@.drop_last() == table.take(lengths@.len() - 1));
                assert(path@.drop_last() == path0.take(lengths@.len() as int));
            }
            lengths.pop();
            path.pop();
        }
    } else {
        assert(path@ == path0.take(lengths@.len() as int + 1));
        assert(lengths@ == table.take(lengths@.len() as int));
    }
    let end: usize = lengths.len();
    assert(end == end_index(path0, expected_len));
    if end == 0 {
        lengths.push(Fixed::zero());
        assert(lengths@ == seq![Fixed::zero()]);
        return lengths;
    }
    // The last vertex moves along its span to the expected length.
    let prev: Pos2 = path[end - 1];
    let span: Pos2 = path[end].sub(prev);
    let moved: Pos2 = prev.add(span.scale_ratio(expected_len.sub(lengths[end - 1]), span.length()));
    path.set(end, moved);
    lengths.push(expected_len);
    proof {
        assert(moved == relocated_end(path0, end as int, expected_len));
        assert(path@ == path0.take(end as int).push(moved));
        assert(lengths@ == table.take(end as int).push(expected_len));
    }
    lengths
}

/// Corrects the polyline `path` of the control points `points` to the total
/// length `expected_len` and returns its table of cumulative lengths.
pub fn calculate_length(
    points: &Vec<PathControlPoint>,
    path: &mut Vec<Pos2>,
    expected_len: Fixed,
) -> (lengths: Vec<Fixed>)
    ensures
        (final(path)@, lengths@) == corrected(ends_coincide(points@), old(path)@, expected_len),
{
    let n: usize = points.len();
    let coincide: bool = n >= 2 && points[n - 2].pos == points[n - 1].pos;
    correct_length(coincide, path, expected_len)
}

} // verus!
