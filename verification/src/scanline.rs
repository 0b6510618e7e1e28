//! the damaged columns of each row, for renderers that draw a row at a time

use vstd::prelude::*;

use crate::geometry::{clamp_i32, PhysicalRect};

verus! {

/// `value` moved into `0..=limit`
pub open spec fn clamp_to(value: int, limit: int) -> int {
    if value < 0 {
        0
    } else if value > limit {
        limit
    } else {
        value
    }
}

/// the columns `start..end` that `region` damages on row `line` of a surface of
/// `width` by `height` pixels, or `None` where it damages none of that row
pub open spec fn row_interval(region: PhysicalRect, line: int, width: int, height: int) -> Option<(int, int)> {
    let top = clamp_to(region.y as int, height);
    let bottom = clamp_to(clamp_i32(region.y + region.height) as int, height);
    let start = clamp_to(region.x as int, width);
    let end = clamp_to(clamp_i32(region.x + region.width) as int, width);
    if bottom <= line || top > line || start >= end {
        None
    } else {
        Some((start, end))
    }
}

/// some region of `damage` damages column `x` of row `line`
pub open spec fn damaged(damage: Seq<PhysicalRect>, line: int, width: int, height: int, x: int) -> bool {
    exists|k: int| 0 <= k < damage.len() && interval_covers(#[trigger] row_interval(damage[k], line, width, height), x)
}

/// an interval holds column `x`
pub open spec fn interval_covers(interval: Option<(int, int)>, x: int) -> bool {
    match interval {
        Some((start, end)) => start <= x < end,
        None => false,
    }
}

/// some span covers column `x`
pub open spec fn spans_cover(spans: Seq<(usize, usize)>, x: int) -> bool {
    exists|i: int| 0 <= i < spans.len() && (#[trigger] spans[i]).0 <= x < spans[i].1
}

/// some span of `spans[from..to]` covers column `x`
pub open spec fn run_covers(spans: Seq<(usize, usize)>, from: int, to: int, x: int) -> bool {
    exists|i: int| from <= i < to && (#[trigger] spans[i]).0 <= x < spans[i].1
}

/// spans are non-empty, left to right, and neither overlap nor touch
pub open spec fn canonical(spans: Seq<(usize, usize)>) -> bool {
    &&& forall|i: int| 0 <= i < spans.len() ==> (#[trigger] spans[i]).0 < spans[i].1
    &&& forall|i: int, j: int| 0 <= i < j < spans.len() ==> (#[trigger] spans[i]).1 < (#[trigger] spans[j]).0
}

/// the first row below `line` at which the regions damaging rows start or stop,
/// no further than `height`
pub open spec fn boundary_before(damage: Seq<PhysicalRect>, line: int, height: int, count: int) -> int
    decreases count,
{
    if count <= 0 {
        height
    } else {
        let rest = boundary_before(damage, line, height, count - 1);
        let region = damage[count - 1];
        let top = clamp_to(region.y as int, height);
        let bottom = clamp_to(clamp_i32(region.y + region.height) as int, height);
        let edge = if bottom <= line {
            rest
        } else if top > line {
            top
        } else {
            bottom
        };
        if edge < rest {
            edge
        } else {
            rest
        }
    }
}

/// spans left of a span, the span, and spans right of it, none touching, are
/// canonical together
proof fn lemma_join_canonical(left: Seq<(usize, usize)>, middle: (usize, usize), right: Seq<(usize, usize)>)
    requires
        canonical(left),
        canonical(right),
        middle.0 < middle.1,
        forall|i: int| 0 <= i < left.len() ==> (#[trigger] left[i]).1 < middle.0,
        forall|i: int| 0 <= i < right.len() ==> middle.1 < (#[trigger] right[i]).0,
    ensures
        canonical(left.push(middle) + right),
        forall|x: int|
            spans_cover(left.push(middle) + right, x) <==> (spans_cover(left, x) || middle.0 <= x < middle.1
                || spans_cover(right, x)),
{
    let all = left.push(middle) + right;
    let n = left.len() as int;
    assert forall|i: int| 0 <= i < all.len() implies (#[trigger] all[i]).0 < all[i].1 by {
        if i < n {
            assert(all[i] == left[i]);
        } else if i > n {
            assert(all[i] == right[i - n - 1]);
        }
    }
    assert forall|i: int, j: int| 0 <= i < j < all.len() implies (#[trigger] all[i]).1 < (#[trigger] all[j]).0 by {
        if j < n {
            assert(all[i] == left[i] && all[j] == left[j]);
        } else if i > n {
            assert(all[i] == right[i - n - 1] && all[j] == right[j - n - 1]);
        } else if i < n && j == n {
            assert(all[i] == left[i]);
        } else if i == n {
            assert(all[j] == right[j - n - 1]);
        } else {
            assert(all[i] == left[i] && all[j] == right[j - n - 1]);
            assert(left[i].0 < left[i].1);
        }
    }
    assert forall|x: int| spans_cover(all, x) <==> (spans_cover(left, x) || middle.0 <= x < middle.1
        || spans_cover(right, x)) by {
        if spans_cover(all, x) {
            let i = choose|i: int| 0 <= i < all.len() && (#[trigger] all[i]).0 <= x < all[i].1;
            if i < n {
                assert(all[i] == left[i]);
            } else if i > n {
                assert(all[i] == right[i - n - 1]);
            }
        }
        if spans_cover(left, x) {
            let i = choose|i: int| 0 <= i < left.len() && (#[trigger] left[i]).0 <= x < left[i].1;
            assert(all[i] == left[i]);
        }
        if middle.0 <= x < middle.1 {
            assert(all[n] == middle);
        }
        if spans_cover(right, x) {
            let i = choose|i: int| 0 <= i < right.len() && (#[trigger] right[i]).0 <= x < right[i].1;
            assert(all[i + n + 1] == right[i]);
        }
    }
}

/// adds `start..end` to canonical spans, merging what it overlaps or touches
fn add_span(spans: &Vec<(usize, usize)>, start: usize, end: usize) -> (merged: Vec<(usize, usize)>)
    requires
        canonical(spans@),
        start < end,
    ensures
        canonical(merged@),
        forall|x: int| spans_cover(merged@, x) <==> (spans_cover(spans@, x) || start <= x < end),
{
    let mut merged: Vec<(usize, usize)> = Vec::new();
    let mut index: usize = 0;
    while index < spans.len() && spans[index].1 < start
        invariant
            canonical(spans@),
            index <= spans@.len(),
            merged@ == spans@.subrange(0, index as int),
            forall|i: int| 0 <= i < index ==> (#[trigger] spans@[i]).1 < start,
        decreases spans@.len() - index,
    {
        merged.push(spans[index]);
        index = index + 1;
    }
    let first = index;
    let mut low = start;
    let mut high = end;
    while index < spans.len() && spans[index].0 <= high
        invariant
            canonical(spans@),
            first <= index <= spans@.len(),
            merged@ == spans@.subrange(0, first as int),
            forall|i: int| 0 <= i < first ==> (#[trigger] spans@[i]).1 < start,
            forall|i: int| 0 <= i < first ==> (#[trigger] spans@[i]).1 < low,
            forall|i: int| first <= i < spans@.len() ==> (#[trigger] spans@[i]).1 >= start,
            low <= start,
            start < end,
            end <= high,
            forall|x: int|
                low <= x < high <==> (start <= x < end || #[trigger] run_covers(spans@, first as int, index as int, x)),
        decreases spans@.len() - index,
    {
        let span = spans[index];
        let ghost previous_low = low;
        let ghost previous_high = high;
        if span.0 < low {
            low = span.0;
        }
        if span.1 > high {
            high = span.1;
        }
        proof {
            assert(span.1 >= start);
            assert forall|i: int| 0 <= i < first implies (#[trigger] spans@[i]).1 < low by {
                assert(spans@[i].1 < spans@[index as int].0);
            }
            assert forall|x: int| low <= x < high <==> (start <= x < end || #[trigger] run_covers(
                spans@,
                first as int,
                index + 1,
                x,
            )) by {
                if span.0 <= x < span.1 {
                    assert(spans@[index as int] == span);
                }
                if run_covers(spans@, first as int, index + 1, x) {
                    let i = choose|i: int| first <= i < index + 1 && (#[trigger] spans@[i]).0 <= x < spans@[i].1;
                    if i < index {
                        assert(run_covers(spans@, first as int, index as int, x));
                        assert(previous_low <= x < previous_high);
                    }
                }
                if previous_low <= x < previous_high && !(start <= x < end) {
                    assert(run_covers(spans@, first as int, index as int, x));
                    let i = choose|i: int| first <= i < index && (#[trigger] spans@[i]).0 <= x < spans@[i].1;
                    assert(first <= i < index + 1 && spans@[i].0 <= x < spans@[i].1);
                }
            }
        }
        index = index + 1;
    }
    let stop = index;
    merged.push((low, high));
    while index < spans.len()
        invariant
            stop <= index <= spans@.len(),
            merged@ == spans@.subrange(0, first as int).push((low, high)) + spans@.subrange(stop as int, index as int),
        decreases spans@.len() - index,
    {
        merged.push(spans[index]);
        index = index + 1;
        proof {
            assert(merged@ =~= spans@.subrange(0, first as int).push((low, high)) + spans@.subrange(
                stop as int,
                index as int,
            ));
        }
    }
    proof {
        let left = spans@.subrange(0, first as int);
        let right = spans@.subrange(stop as int, spans@.len() as int);
        assert(merged@ =~= left.push((low, high)) + right);
        assert forall|i: int, j: int| 0 <= i < j < left.len() implies (#[trigger] left[i]).1 < (#[trigger] left[j]).0 by {
            assert(left[i] == spans@[i] && left[j] == spans@[j]);
        }
        assert forall|i: int, j: int| 0 <= i < j < right.len() implies (#[trigger] right[i]).1 < (#[trigger] right[j]).0 by {
            assert(right[i] == spans@[i + stop] && right[j] == spans@[j + stop]);
        }
        assert forall|i: int| 0 <= i < right.len() implies high < (#[trigger] right[i]).0 by {
            assert(right[i] == spans@[i + stop]);
            if i > 0 {
                assert(spans@[stop as int].1 < spans@[i + stop].0);
                assert(spans@[stop as int].0 < spans@[stop as int].1);
            }
        }
        lemma_join_canonical(left, (low, high), right);
        assert forall|x: int| spans_cover(merged@, x) <==> (spans_cover(spans@, x) || start <= x < end) by {
            if spans_cover(spans@, x) {
                let i = choose|i: int| 0 <= i < spans@.len() && (#[trigger] spans@[i]).0 <= x < spans@[i].1;
                if i < first {
                    assert(left[i] == spans@[i]);
                } else if i >= stop {
                    assert(right[i - stop] == spans@[i]);
                } else {
                    assert(run_covers(spans@, first as int, stop as int, x));
                    assert(low <= x < high);
                }
            }
            if spans_cover(left, x) {
                let i = choose|i: int| 0 <= i < left.len() && (#[trigger] left[i]).0 <= x < left[i].1;
                assert(spans@[i] == left[i]);
            }
            if spans_cover(right, x) {
                let i = choose|i: int| 0 <= i < right.len() && (#[trigger] right[i]).0 <= x < right[i].1;
                assert(spans@[i + stop] == right[i]);
            }
            if low <= x < high && !(start <= x < end) {
                assert(run_covers(spans@, first as int, stop as int, x));
                let i = choose|i: int| first <= i < stop && (#[trigger] spans@[i]).0 <= x < spans@[i].1;
                assert(0 <= i < spans@.len());
            }
        }
    }
    merged
}

/// `value` moved into `0..=limit`
fn clamp_column(value: i32, limit: i32) -> (clamped: i32)
    requires
        0 <= limit,
    ensures
        clamped == clamp_to(value as int, limit as int),
{
    if value < 0 {
        0
    } else if value > limit {
        limit
    } else {
        value
    }
}

/// `a + b`, held within the range of `i32`
fn saturating(a: i32, b: i32) -> (sum: i32)
    ensures
        sum == clamp_i32(a + b),
{
    let wide = a as i64 + b as i64;
    if wide > i32::MAX as i64 {
        i32::MAX
    } else if wide < i32::MIN as i64 {
        i32::MIN
    } else {
        wide as i32
    }
}

/// the damaged columns of row `line` of a surface of `width` by `height` pixels
/// as canonical spans, and the first row below `line` at which they may change
///
/// every column that some region of `damage` covers on the row is in exactly
/// one span, and no other column is
pub fn row_spans(damage: &[PhysicalRect], line: i32, width: i32, height: i32) -> (result: (Vec<(usize, usize)>, i32))
    requires
        0 <= width,
        0 <= line < height,
    ensures
        canonical(result.0@),
        forall|x: int| spans_cover(result.0@, x) <==> damaged(damage@, line as int, width as int, height as int, x),
        result.1 == boundary_before(damage@, line as int, height as int, damage@.len() as int),
{
    let mut spans: Vec<(usize, usize)> = Vec::new();
    let mut boundary = height;
    let mut index: usize = 0;
    while index < damage.len()
        invariant
            0 <= width,
            0 <= line < height,
            index <= damage@.len(),
            canonical(spans@),
            forall|x: int|
                spans_cover(spans@, x) <==> damaged(
                    damage@.subrange(0, index as int),
                    line as int,
                    width as int,
                    height as int,
                    x,
                ),
            boundary == boundary_before(damage@, line as int, height as int, index as int),
        decreases damage@.len() - index,
    {
        let region = damage[index];
        let top = clamp_column(region.y, height);
        let bottom = clamp_column(saturating(region.y, region.height), height);
        let edge = if bottom <= line {
            boundary
        } else if top > line {
            top
        } else {
            bottom
        };
        if edge < boundary {
            boundary = edge;
        }
        let start = clamp_column(region.x, width);
        let end = clamp_column(saturating(region.x, region.width), width);
        let ghost prefix = damage@.subrange(0, index as int);
        let ghost next = damage@.subrange(0, index + 1);
        proof {
            assert(next.drop_last() =~= prefix);
            assert(next.last() == region);
            assert forall|x: int| damaged(next, line as int, width as int, height as int, x) <==> (damaged(
                prefix,
                line as int,
                width as int,
                height as int,
                x,
            ) || interval_covers(row_interval(region, line as int, width as int, height as int), x)) by {
                if damaged(next, line as int, width as int, height as int, x) {
                    let k = choose|k: int|
                        0 <= k < next.len() && interval_covers(
                            #[trigger] row_interval(next[k], line as int, width as int, height as int),
                            x,
                        );
                    if k < prefix.len() {
                        assert(prefix[k] == next[k]);
                    }
                }
                if damaged(prefix, line as int, width as int, height as int, x) {
                    let k = choose|k: int|
                        0 <= k < prefix.len() && interval_covers(
                            #[trigger] row_interval(prefix[k], line as int, width as int, height as int),
                            x,
                        );
                    assert(next[k] == prefix[k]);
                }
                if interval_covers(row_interval(region, line as int, width as int, height as int), x) {
                    assert(next[index as int] == region);
                }
            }
        }
        if bottom > line && top <= line && start < end {
            spans = add_span(&spans, start as usize, end as usize);
        }
        index = index + 1;
    }
    proof {
        assert(damage@.subrange(0, index as int) =~= damage@);
    }
    (spans, boundary)
}

/// the first span of canonical spans starts at the leftmost covered column and
/// every later one starts right of where the first ends
proof fn lemma_first_span(spans: Seq<(usize, usize)>, x: int)
    requires
        canonical(spans),
        spans.len() > 0,
        spans_cover(spans, x),
    ensures
        spans[0].0 <= x,
        x >= spans[0].1 ==> spans_cover(spans.drop_first(), x),
        spans_cover(spans.drop_first(), x) ==> x > spans[0].1,
{
    let i = choose|i: int| 0 <= i < spans.len() && (#[trigger] spans[i]).0 <= x < spans[i].1;
    if i > 0 {
        assert(spans[0].1 < spans[i].0);
        assert(spans[0].0 < spans[0].1);
        assert(spans.drop_first()[i - 1] == spans[i]);
    }
    if spans_cover(spans.drop_first(), x) {
        let j = choose|j: int| 0 <= j < spans.drop_first().len() && (#[trigger] spans.drop_first()[j]).0 <= x
            < spans.drop_first()[j].1;
        assert(spans.drop_first()[j] == spans[j + 1]);
        assert(spans[0].1 < spans[j + 1].0);
    }
}

/// the rest of canonical spans covers what they cover right of the first span
proof fn lemma_rest_cover(spans: Seq<(usize, usize)>, x: int)
    requires
        canonical(spans),
        spans.len() > 0,
    ensures
        spans_cover(spans.drop_first(), x) <==> (spans_cover(spans, x) && x >= spans[0].1),
        canonical(spans.drop_first()),
{
    let rest = spans.drop_first();
    if spans_cover(rest, x) {
        let j = choose|j: int| 0 <= j < rest.len() && (#[trigger] rest[j]).0 <= x < rest[j].1;
        assert(rest[j] == spans[j + 1]);
        assert(spans[0].1 < spans[j + 1].0);
        assert(spans_cover(spans, x));
    }
    if spans_cover(spans, x) && x >= spans[0].1 {
        lemma_first_span(spans, x);
    }
    assert forall|i: int| 0 <= i < rest.len() implies (#[trigger] rest[i]).0 < rest[i].1 by {
        assert(rest[i] == spans[i + 1]);
    }
    assert forall|i: int, j: int| 0 <= i < j < rest.len() implies (#[trigger] rest[i]).1 < (#[trigger] rest[j]).0 by {
        assert(rest[i] == spans[i + 1] && rest[j] == spans[j + 1]);
    }
}

/// canonical spans are the only canonical spans that cover what they cover
proof fn lemma_canonical_unique(a: Seq<(usize, usize)>, b: Seq<(usize, usize)>)
    requires
        canonical(a),
        canonical(b),
        forall|x: int| spans_cover(a, x) == spans_cover(b, x),
    ensures
        a == b,
    decreases a.len(),
{
    if a.len() == 0 {
        if b.len() > 0 {
            assert(spans_cover(b, b[0].0 as int));
        }
        assert(b =~= a);
    } else {
        assert(spans_cover(a, a[0].0 as int));
        assert(b.len() > 0);
        assert(spans_cover(b, b[0].0 as int));
        lemma_first_span(a, b[0].0 as int);
        lemma_first_span(b, a[0].0 as int);
        assert(a[0].0 == b[0].0);
        if a[0].1 < b[0].1 {
            assert(spans_cover(b, a[0].1 as int));
            lemma_first_span(a, a[0].1 as int);
            lemma_rest_cover(a, a[0].1 as int);
        }
        if b[0].1 < a[0].1 {
            assert(spans_cover(a, b[0].1 as int));
            lemma_first_span(b, b[0].1 as int);
            lemma_rest_cover(b, b[0].1 as int);
        }
        assert(a[0] == b[0]);
        assert forall|x: int| spans_cover(a.drop_first(), x) == spans_cover(b.drop_first(), x) by {
            lemma_rest_cover(a, x);
            lemma_rest_cover(b, x);
        }
        lemma_rest_cover(a, 0);
        lemma_rest_cover(b, 0);
        lemma_canonical_unique(a.drop_first(), b.drop_first());
        assert(a =~= seq![a[0]] + a.drop_first());
        assert(b =~= seq![b[0]] + b.drop_first());
    }
}

/// damage is read as the union of its rectangles: damage that covers the same
/// columns of a row gives that row the same spans, whatever its rectangles are
/// and in whatever order they come
pub proof fn law_row_spans_follow_the_union(
    first: Seq<PhysicalRect>,
    second: Seq<PhysicalRect>,
    first_spans: Seq<(usize, usize)>,
    second_spans: Seq<(usize, usize)>,
    line: int,
    width: int,
    height: int,
)
    requires
        canonical(first_spans),
        canonical(second_spans),
        forall|x: int| spans_cover(first_spans, x) <==> damaged(first, line, width, height, x),
        forall|x: int| spans_cover(second_spans, x) <==> damaged(second, line, width, height, x),
        forall|x: int| damaged(first, line, width, height, x) == damaged(second, line, width, height, x),
    ensures
        first_spans == second_spans,
{
    assert forall|x: int| spans_cover(first_spans, x) == spans_cover(second_spans, x) by {
        assert(damaged(first, line, width, height, x) == damaged(second, line, width, height, x));
    }
    lemma_canonical_unique(first_spans, second_spans);
}

/// strictly increasing
pub open spec fn increasing(s: Seq<usize>) -> bool {
    forall|i: int, j: int| 0 <= i < j < s.len() ==> (#[trigger] s[i]) < (#[trigger] s[j])
}

/// commands ordered by the first row their vertical bounds cover
pub open spec fn ordered_by_start(starts: Seq<usize>, vertical: Seq<(i32, i32)>) -> bool {
    &&& forall|k: int| 0 <= k < starts.len() ==> (#[trigger] starts[k]) < vertical.len()
    &&& forall|i: int, j: int|
        0 <= i < j < starts.len() ==> vertical[(#[trigger] starts[i]) as int].0 <= vertical[(#[trigger] starts[j]) as int].0
}

/// command `a` comes before command `b`: its vertical bounds start higher, or
/// at the same row with a lower index
pub open spec fn starts_before(vertical: Seq<(i32, i32)>, a: usize, b: usize) -> bool {
    vertical[a as int].0 < vertical[b as int].0 || (vertical[a as int].0 == vertical[b as int].0 && a < b)
}

/// every command index once, by where its vertical bounds start, ties by index
pub open spec fn start_order(starts: Seq<usize>, vertical: Seq<(i32, i32)>) -> bool {
    &&& starts.len() == vertical.len()
    &&& forall|k: int| 0 <= k < starts.len() ==> (#[trigger] starts[k]) < vertical.len()
    &&& forall|i: int, j: int| 0 <= i < j < starts.len() ==> starts_before(vertical, #[trigger] starts[i], #[trigger] starts[j])
}

/// the command indices ordered by the first row their vertical bounds cover,
/// ties broken by index
pub fn order_by_start(vertical: &[(i32, i32)]) -> (starts: Vec<usize>)
    ensures
        start_order(starts@, vertical@),
        ordered_by_start(starts@, vertical@),
        forall|c: usize| c < vertical@.len() ==> starts@.contains(c),
{
    let mut starts: Vec<usize> = Vec::new();
    let mut command: usize = 0;
    while command < vertical.len()
        invariant
            command <= vertical@.len(),
            starts@.len() == command,
            forall|k: int| 0 <= k < starts@.len() ==> (#[trigger] starts@[k]) < command,
            forall|i: int, j: int|
                0 <= i < j < starts@.len() ==> starts_before(vertical@, #[trigger] starts@[i], #[trigger] starts@[j]),
            forall|c: usize| c < command ==> starts@.contains(c),
        decreases vertical@.len() - command,
    {
        let start = vertical[command].0;
        let mut place: usize = 0;
        while place < starts.len() && vertical[starts[place]].0 <= start
            invariant
                command < vertical@.len(),
                start == vertical@[command as int].0,
                place <= starts@.len(),
                forall|k: int| 0 <= k < starts@.len() ==> (#[trigger] starts@[k]) < command,
                forall|k: int| 0 <= k < place ==> vertical@[(#[trigger] starts@[k]) as int].0 <= start,
            decreases starts@.len() - place,
        {
            place = place + 1;
        }
        let ghost before = starts@;
        assert(forall|c: usize| c < command ==> before.contains(c));
        starts.insert(place, command);
        proof {
            assert forall|i: int, j: int|
                0 <= i < j < starts@.len() implies starts_before(vertical@, #[trigger] starts@[i], #[trigger] starts@[j]) by {
                if j < place {
                    assert(starts@[i] == before[i] && starts@[j] == before[j]);
                } else if j == place {
                    assert(starts@[i] == before[i]);
                    assert(vertical@[before[i] as int].0 <= start);
                } else if i == place {
                    assert(starts@[j] == before[j - 1]);
                    assert(place < before.len());
                    assert(vertical@[before[place as int] as int].0 > start);
                    if j - 1 > place {
                        assert(starts_before(vertical@, before[place as int], before[j - 1]));
                    }
                } else if i < place {
                    assert(starts@[i] == before[i] && starts@[j] == before[j - 1]);
                } else {
                    assert(starts@[i] == before[i - 1] && starts@[j] == before[j - 1]);
                }
            }
            assert forall|c: usize| c < command + 1 implies starts@.contains(c) by {
                if c == command {
                    assert(starts@[place as int] == command);
                } else {
                    assert(before.contains(c));
                    let k = choose|k: int| 0 <= k < before.len() && before[k] == c;
                    if k < place {
                        assert(starts@[k] == c);
                    } else {
                        assert(starts@[k + 1] == c);
                    }
                }
            }
            assert forall|k: int| 0 <= k < starts@.len() implies (#[trigger] starts@[k]) < command + 1 by {
                if k < place {
                    assert(starts@[k] == before[k]);
                } else if k > place {
                    assert(starts@[k] == before[k - 1]);
                }
            }
        }
        command = command + 1;
    }
    starts
}

/// command `c` is on row `line` and its opaque span there covers `start..end`
pub open spec fn covers_range(
    vertical: Seq<(i32, i32)>,
    spans: Seq<Option<(i32, i32)>>,
    c: usize,
    line: int,
    start: int,
    end: int,
) -> bool {
    &&& c < vertical.len()
    &&& c < spans.len()
    &&& vertical[c as int].0 <= line < vertical[c as int].1
    &&& spans[c as int] matches Some(span) && span.0 <= start && span.1 >= end
}

/// the position in `active` of the last opaque command that covers
/// `start..end` on row `line`, drawing from there hides everything below it; 0
/// when none covers it
///
/// `spans` holds each command's opaque span on the row, if it has one
pub fn first_visible(
    active: &[usize],
    opaque: &[usize],
    vertical: &[(i32, i32)],
    spans: &[Option<(i32, i32)>],
    line: i32,
    start: i32,
    end: i32,
) -> (position: usize)
    requires
        forall|k: int|
            0 <= k < opaque@.len() && covers_range(vertical@, spans@, #[trigger] opaque@[k], line as int, start as int, end as int)
                ==> active@.contains(opaque@[k]),
    ensures
        (forall|k: int|
            0 <= k < opaque@.len() ==> !covers_range(vertical@, spans@, #[trigger] opaque@[k], line as int, start as int, end as int))
            ==> position == 0,
        (exists|k: int|
            0 <= k < opaque@.len() && covers_range(vertical@, spans@, #[trigger] opaque@[k], line as int, start as int, end as int))
            ==> exists|k: int|
            {
                &&& 0 <= k < opaque@.len()
                &&& covers_range(vertical@, spans@, #[trigger] opaque@[k], line as int, start as int, end as int)
                &&& forall|j: int|
                    k < j < opaque@.len() ==> !covers_range(vertical@, spans@, #[trigger] opaque@[j], line as int, start as int, end as int)
                &&& position < active@.len()
                &&& active@[position as int] == opaque@[k]
            },
{
    let mut index = opaque.len();
    while index > 0
        invariant
            index <= opaque@.len(),
            forall|k: int|
                0 <= k < opaque@.len() && covers_range(vertical@, spans@, #[trigger] opaque@[k], line as int, start as int, end as int)
                    ==> active@.contains(opaque@[k]),
            forall|j: int|
                index <= j < opaque@.len() ==> !covers_range(vertical@, spans@, #[trigger] opaque@[j], line as int, start as int, end as int),
        decreases index,
    {
        let command = opaque[index - 1];
        let covering = command < vertical.len() && command < spans.len() && vertical[command].0 <= line
            && vertical[command].1 > line && match spans[command] {
            Some(span) => span.0 <= start && span.1 >= end,
            None => false,
        };
        if covering {
            proof {
                assert(covers_range(vertical@, spans@, opaque@[index - 1], line as int, start as int, end as int));
                assert(active@.contains(command));
            }
            let mut position: usize = 0;
            while position < active.len() && active[position] != command
                invariant
                    position <= active@.len(),
                    active@.contains(command),
                    forall|p: int| 0 <= p < position ==> active@[p] != command,
                decreases active@.len() - position,
            {
                position = position + 1;
            }
            proof {
                if position == active@.len() {
                    let p = choose|p: int| 0 <= p < active@.len() && active@[p] == command;
                    assert(active@[p] != command);
                }
            }
            return position;
        }
        index = index - 1;
    }
    0
}

/// some command of `expensive` before `command` is on row `line` and overlaps
/// `start..end`
pub open spec fn hides_expensive(
    expensive: Seq<usize>,
    vertical: Seq<(i32, i32)>,
    horizontal: Seq<(i32, i32)>,
    command: usize,
    line: int,
    start: int,
    end: int,
) -> bool {
    exists|k: int|
        0 <= k < expensive.len() && (#[trigger] expensive[k]) < command && vertical[expensive[k] as int].0 <= line
            < vertical[expensive[k] as int].1 && horizontal[expensive[k] as int].0 < end
            && horizontal[expensive[k] as int].1 > start
}

/// opaque command `c` is on row `line` and its opaque span there covers at
/// least half of `start..end` while hiding an expensive command below it
pub open spec fn worth_splitting(
    expensive: Seq<usize>,
    vertical: Seq<(i32, i32)>,
    horizontal: Seq<(i32, i32)>,
    spans: Seq<Option<(i32, i32)>>,
    c: usize,
    line: int,
    start: int,
    end: int,
) -> bool {
    &&& c < vertical.len()
    &&& c < spans.len()
    &&& vertical[c as int].0 <= line < vertical[c as int].1
    &&& spans[c as int] matches Some(span) && {
        let from = if span.0 >= start { span.0 as int } else { start };
        let to = if span.1 <= end { span.1 as int } else { end };
        &&& from < to
        &&& (to - from) * 2 >= end - start
        &&& hides_expensive(expensive, vertical, horizontal, c, line, from, to)
    }
}

/// whether a range with no covering opaque command is split among partly
/// opaque ones: only when an expensive command exists and some opaque command
/// covers at least half the range while hiding an expensive command
pub fn should_split(
    first: usize,
    opaque: &[usize],
    expensive: &[usize],
    vertical: &[(i32, i32)],
    horizontal: &[(i32, i32)],
    spans: &[Option<(i32, i32)>],
    line: i32,
    start: i32,
    end: i32,
) -> (split: bool)
    requires
        start <= end,
        forall|k: int| 0 <= k < expensive@.len() ==> (#[trigger] expensive@[k]) < vertical@.len() && expensive@[k]
            < horizontal@.len(),
    ensures
        split == (first == 0 && expensive@.len() > 0 && exists|k: int|
            0 <= k < opaque@.len() && worth_splitting(
                expensive@,
                vertical@,
                horizontal@,
                spans@,
                #[trigger] opaque@[k],
                line as int,
                start as int,
                end as int,
            )),
{
    if first != 0 || expensive.len() == 0 {
        return false;
    }
    let mut index = opaque.len();
    while index > 0
        invariant
            index <= opaque@.len(),
            start <= end,
            first == 0,
            expensive@.len() > 0,
            forall|k: int| 0 <= k < expensive@.len() ==> (#[trigger] expensive@[k]) < vertical@.len() && expensive@[k]
                < horizontal@.len(),
            forall|j: int|
                index <= j < opaque@.len() ==> !worth_splitting(
                    expensive@,
                    vertical@,
                    horizontal@,
                    spans@,
                    #[trigger] opaque@[j],
                    line as int,
                    start as int,
                    end as int,
                ),
        decreases index,
    {
        let command = opaque[index - 1];
        if command < vertical.len() && command < spans.len() && vertical[command].0 <= line && vertical[command].1 > line {
            if let Some(span) = spans[command] {
                let from = if span.0 >= start { span.0 } else { start };
                let to = if span.1 <= end { span.1 } else { end };
                if from < to && (to as i64 - from as i64) * 2 >= end as i64 - start as i64 {
                    let mut probe: usize = 0;
                    let mut hidden = false;
                    while probe < expensive.len() && !hidden
                        invariant
                            probe <= expensive@.len(),
                            forall|k: int| 0 <= k < expensive@.len() ==> (#[trigger] expensive@[k]) < vertical@.len()
                                && expensive@[k] < horizontal@.len(),
                            hidden ==> hides_expensive(expensive@, vertical@, horizontal@, command, line as int, from as int, to as int),
                            !hidden ==> forall|k: int|
                                0 <= k < probe ==> !((#[trigger] expensive@[k]) < command && vertical@[expensive@[k] as int].0
                                    <= line < vertical@[expensive@[k] as int].1 && horizontal@[expensive@[k] as int].0 < to
                                    && horizontal@[expensive@[k] as int].1 > from),
                        decreases expensive@.len() - probe + if hidden { 0int } else { 1 },
                    {
                        let other = expensive[probe];
                        if other < command && vertical[other].0 <= line && vertical[other].1 > line
                            && horizontal[other].0 < to && horizontal[other].1 > from {
                            hidden = true;
                        } else {
                            probe = probe + 1;
                        }
                    }
                    if hidden {
                        proof {
                            assert(worth_splitting(expensive@, vertical@, horizontal@, spans@, opaque@[index - 1], line as int, start as int, end as int));
                        }
                        return true;
                    }
                }
            }
        }
        index = index - 1;
    }
    false
}

/// `command` is among `starts[from..to]`
pub open spec fn started_between(starts: Seq<usize>, from: int, to: int, command: usize) -> bool {
    exists|k: int| from <= k < to && #[trigger] starts[k] == command
}

/// inserts `command` into strictly increasing `active`, which lacks it
fn insert_sorted(active: &mut Vec<usize>, command: usize)
    requires
        increasing(old(active)@),
        !old(active)@.contains(command),
    ensures
        increasing(final(active)@),
        forall|c: usize| #[trigger] final(active)@.contains(c) <==> (old(active)@.contains(c) || c == command),
{
    let mut position: usize = 0;
    while position < active.len() && active[position] < command
        invariant
            position <= active@.len(),
            forall|i: int| 0 <= i < position ==> (#[trigger] active@[i]) < command,
        decreases active@.len() - position,
    {
        position = position + 1;
    }
    let ghost before = active@;
    active.insert(position, command);
    proof {
        if position < before.len() {
            assert(before[position as int] != command) by {
                if before[position as int] == command {
                    assert(before.contains(command));
                }
            }
        }
        assert forall|i: int, j: int| 0 <= i < j < active@.len() implies (#[trigger] active@[i]) < (
        #[trigger] active@[j]) by {
            if j < position {
            } else if i < position && j == position {
            } else if i < position {
                assert(active@[j] == before[j - 1]);
            } else if i == position {
                assert(active@[j] == before[j - 1]);
                assert(before[position as int] <= before[j - 1]);
            } else {
                assert(active@[i] == before[i - 1] && active@[j] == before[j - 1]);
            }
        }
        assert forall|c: usize| #[trigger] active@.contains(c) <==> (before.contains(c) || c == command) by {
            if active@.contains(c) {
                let i = active@.index_of(c);
                if i < position {
                    assert(before[i] == c);
                } else if i > position {
                    assert(before[i - 1] == c);
                }
            }
            if before.contains(c) {
                let i = before.index_of(c);
                if i < position {
                    assert(active@[i] == c);
                } else {
                    assert(active@[i + 1] == c);
                }
            }
            if c == command {
                assert(active@[position as int] == command);
            }
        }
    }
}

/// the commands of `commands` whose vertical bounds end below row `line`, in order
pub open spec fn still_drawn(commands: Seq<usize>, vertical: Seq<(i32, i32)>, line: int) -> Seq<usize>
    decreases commands.len(),
{
    if commands.len() == 0 {
        Seq::empty()
    } else {
        let rest = still_drawn(commands.drop_last(), vertical, line);
        if vertical[commands.last() as int].1 > line {
            rest.push(commands.last())
        } else {
            rest
        }
    }
}

/// keeping some commands of an increasing sequence keeps it increasing, and
/// keeps exactly the commands still drawn
proof fn lemma_still_drawn(commands: Seq<usize>, vertical: Seq<(i32, i32)>, line: int)
    requires
        increasing(commands),
    ensures
        increasing(still_drawn(commands, vertical, line)),
        forall|c: usize| #[trigger] still_drawn(commands, vertical, line).contains(c) <==> (commands.contains(c)
            && vertical[c as int].1 > line),
        forall|c: usize| #[trigger] still_drawn(commands, vertical, line).contains(c) ==> c <= commands.last(),
    decreases commands.len(),
{
    if commands.len() > 0 {
        let prefix = commands.drop_last();
        assert forall|i: int, j: int| 0 <= i < j < prefix.len() implies (#[trigger] prefix[i]) < (#[trigger] prefix[j]) by {
            assert(prefix[i] == commands[i] && prefix[j] == commands[j]);
        }
        lemma_still_drawn(prefix, vertical, line);
        let rest = still_drawn(prefix, vertical, line);
        let last = commands.last();
        assert forall|c: usize| #[trigger] rest.contains(c) implies c < last by {
            if prefix.len() > 0 {
                assert(c <= prefix.last());
                assert(prefix.last() == commands[commands.len() - 2]);
            }
        }
        assert forall|c: usize| #[trigger] commands.contains(c) <==> (prefix.contains(c) || c == last) by {
            if commands.contains(c) {
                let i = commands.index_of(c);
                if i < commands.len() - 1 {
                    assert(prefix[i] == c);
                }
            }
            if prefix.contains(c) {
                let i = prefix.index_of(c);
                assert(commands[i] == c);
            }
            if c == last {
                assert(commands[commands.len() - 1] == c);
            }
        }
        if vertical[last as int].1 > line {
            let result = rest.push(last);
            assert forall|i: int, j: int| 0 <= i < j < result.len() implies (#[trigger] result[i]) < (#[trigger] result[j]) by {
                if j < rest.len() {
                    assert(result[i] == rest[i] && result[j] == rest[j]);
                } else {
                    assert(result[i] == rest[i]);
                    assert(rest.contains(rest[i]));
                }
            }
            assert forall|c: usize| #[trigger] result.contains(c) <==> (rest.contains(c) || c == last) by {
                if result.contains(c) {
                    let i = result.index_of(c);
                    if i < rest.len() {
                        assert(rest[i] == c);
                    }
                }
                if rest.contains(c) {
                    let i = rest.index_of(c);
                    assert(result[i] == c);
                }
                if c == last {
                    assert(result[rest.len() as int] == c);
                }
            }
            assert forall|c: usize| #[trigger] result.contains(c) implies c <= commands.last() by {
                if rest.contains(c) {
                }
            }
        } else {
            assert forall|c: usize| #[trigger] rest.contains(c) implies c <= commands.last() by {}
        }
    }
}

/// brings the commands drawn on row `line` up to date: those whose vertical
/// bounds end at or above it leave, and those of `starts[next..]` that start
/// at or above it join unless they already ended; returns how far `starts`
/// has been taken
///
/// `vertical` gives each command's rows as `start..end`; `active` holds
/// commands in increasing order
pub fn advance_active(
    active: &mut Vec<usize>,
    starts: &[usize],
    next: usize,
    vertical: &[(i32, i32)],
    line: i32,
) -> (taken: usize)
    requires
        increasing(old(active)@),
        ordered_by_start(starts@, vertical@),
        starts@.no_duplicates(),
        next <= starts@.len(),
        forall|c: usize| #[trigger] old(active)@.contains(c) ==> started_between(starts@, 0, next as int, c),
    ensures
        next <= taken <= starts@.len(),
        forall|k: int| next <= k < taken ==> vertical@[(#[trigger] starts@[k]) as int].0 <= line,
        taken < starts@.len() ==> vertical@[starts@[taken as int] as int].0 > line,
        increasing(final(active)@),
        forall|c: usize|
            #[trigger] final(active)@.contains(c) <==> ((old(active)@.contains(c) || started_between(
                starts@,
                next as int,
                taken as int,
                c,
            )) && vertical@[c as int].1 > line),
        forall|c: usize| #[trigger] final(active)@.contains(c) ==> started_between(starts@, 0, taken as int, c),
{
    let ghost initial = active@;
    let mut kept: Vec<usize> = Vec::new();
    let mut index: usize = 0;
    proof {
        assert(initial.subrange(0, 0) =~= Seq::<usize>::empty());
    }
    while index < active.len()
        invariant
            active@ == initial,
            index <= initial.len(),
            next <= starts@.len(),
            ordered_by_start(starts@, vertical@),
            forall|c: usize| #[trigger] initial.contains(c) ==> started_between(starts@, 0, next as int, c),
            kept@ == still_drawn(initial.subrange(0, index as int), vertical@, line as int),
        decreases initial.len() - index,
    {
        let command = active[index];
        proof {
            assert(initial.contains(command));
            let k = choose|k: int| 0 <= k < next && #[trigger] starts@[k] == command;
            assert(starts@[k] < vertical@.len());
            assert(initial.subrange(0, index + 1).drop_last() =~= initial.subrange(0, index as int));
            assert(initial.subrange(0, index + 1).last() == command);
        }
        if vertical[command].1 > line {
            kept.push(command);
        }
        index = index + 1;
    }
    proof {
        assert(initial.subrange(0, index as int) =~= initial);
        lemma_still_drawn(initial, vertical@, line as int);
        assert forall|c: usize| #[trigger] kept@.contains(c) implies started_between(starts@, 0, next as int, c) by {}
    }
    let mut taken = next;
    while taken < starts.len() && vertical[starts[taken]].0 <= line
        invariant
            next <= taken <= starts@.len(),
            ordered_by_start(starts@, vertical@),
            starts@.no_duplicates(),
            increasing(kept@),
            forall|k: int| next <= k < taken ==> vertical@[(#[trigger] starts@[k]) as int].0 <= line,
            forall|c: usize|
                #[trigger] kept@.contains(c) <==> ((initial.contains(c) || started_between(
                    starts@,
                    next as int,
                    taken as int,
                    c,
                )) && vertical@[c as int].1 > line),
            forall|c: usize| #[trigger] kept@.contains(c) ==> started_between(starts@, 0, taken as int, c),
            forall|c: usize| #[trigger] initial.contains(c) ==> started_between(starts@, 0, next as int, c),
        decreases starts@.len() - taken,
    {
        let command = starts[taken];
        proof {
            assert(command < vertical@.len());
            assert(!kept@.contains(command)) by {
                if kept@.contains(command) {
                    let k = choose|k: int| 0 <= k < taken && #[trigger] starts@[k] == command;
                    assert(starts@[taken as int] == command);
                }
            }
        }
        if vertical[command].1 > line {
            insert_sorted(&mut kept, command);
        }
        taken = taken + 1;
        proof {
            assert(starts@[taken - 1] == command);
            assert forall|c: usize| started_between(starts@, next as int, taken as int, c) <==> (started_between(
                starts@,
                next as int,
                taken - 1,
                c,
            ) || c == command) by {
                if started_between(starts@, next as int, taken as int, c) {
                    let k = choose|k: int| next <= k < taken && #[trigger] starts@[k] == c;
                    if k < taken - 1 {
                        assert(started_between(starts@, next as int, taken - 1, c));
                    }
                }
                if started_between(starts@, next as int, taken - 1, c) {
                    let k = choose|k: int| next <= k < taken - 1 && #[trigger] starts@[k] == c;
                    assert(next <= k < taken && starts@[k] == c);
                }
            }
            assert forall|c: usize| #[trigger] kept@.contains(c) implies started_between(starts@, 0, taken as int, c) by {
                if c == command {
                    assert(starts@[taken - 1] == c);
                } else {
                    let k = choose|k: int| 0 <= k < taken - 1 && #[trigger] starts@[k] == c;
                    assert(0 <= k < taken && starts@[k] == c);
                }
            }
        }
    }
    *active = kept;
    taken
}

/// the next row worth drawing when no command covers row `line`: where the
/// next command not yet taken starts, but below `line` and no further than
/// `valid_until`, or `valid_until` when none is left
pub fn next_busy_line(starts: &[usize], taken: usize, vertical: &[(i32, i32)], line: i32, valid_until: i32) -> (row: i32)
    requires
        taken < starts@.len() ==> starts@[taken as int] < vertical@.len(),
        line < i32::MAX,
    ensures
        row == if taken < starts@.len() {
            let start = vertical@[starts@[taken as int] as int].0;
            let below = if start >= line + 1 { start as int } else { line + 1 };
            if below <= valid_until { below } else { valid_until as int }
        } else {
            valid_until as int
        },
{
    if taken < starts.len() {
        let start = vertical[starts[taken]].0;
        let below = if start >= line + 1 { start } else { line + 1 };
        if below <= valid_until {
            below
        } else {
            valid_until
        }
    } else {
        valid_until
    }
}

/// the most segments a damaged range of a row is split into
pub const MAX_SEGMENTS: usize = 32;

/// columns `start..end` of a damaged range, with the first drawn command where
/// an opaque command hides everything below it
#[derive(Clone, Copy, Debug, PartialEq, Eq, Structural)]
pub struct Segment {
    pub start: usize,
    pub end: usize,
    pub first: Option<usize>,
}

/// non-empty segments that follow each other without gaps from `low` to `high`
pub open spec fn partition(segments: Seq<Segment>, low: int, high: int) -> bool {
    &&& segments.len() > 0
    &&& segments[0].start == low
    &&& segments.last().end == high
    &&& forall|i: int| 0 <= i < segments.len() ==> (#[trigger] segments[i]).start < segments[i].end
    &&& forall|i: int| 0 <= i < segments.len() - 1 ==> #[trigger] joined(segments, i)
}

/// segment `i` ends where the next one starts
pub open spec fn joined(segments: Seq<Segment>, i: int) -> bool {
    segments[i].end == segments[i + 1].start
}

/// each of `pieces` lies inside the segment of `whole` that `parent` names, in order
pub open spec fn refines(pieces: Seq<Segment>, whole: Seq<Segment>, parent: Seq<int>) -> bool {
    &&& parent.len() == pieces.len()
    &&& forall|i: int|
        0 <= i < pieces.len() ==> {
            &&& 0 <= #[trigger] parent[i] < whole.len()
            &&& whole[parent[i]].start <= pieces[i].start
            &&& pieces[i].end <= whole[parent[i]].end
        }
    &&& forall|i: int, j: int| 0 <= i < j < pieces.len() ==> #[trigger] parent[i] <= #[trigger] parent[j]
}

/// what occluding `start..end` from `first` on makes of a piece of `whole`:
/// an assigned segment keeps its command; an unassigned one inside the
/// occluded columns takes `first`; a piece that takes `first` lies inside them
pub open spec fn occluded_piece(piece: Segment, whole: Segment, start: int, end: int, first: usize) -> bool {
    &&& whole.first is Some ==> piece.first == whole.first
    &&& whole.first is None ==> (piece.first is None || (piece.first == Some(first) && start <= piece.start
        && piece.end <= end))
    &&& whole.first is None && start <= whole.start && whole.end <= end ==> piece.first == Some(first)
}

/// a piece left unassigned lies outside the occluded columns
pub open spec fn outside(piece: Segment, start: int, end: int) -> bool {
    piece.first is None ==> piece.end <= start || piece.start >= end
}

/// replacing a segment of a partition by pieces that partition its columns
/// keeps the partition
proof fn lemma_replace_partition(segments: Seq<Segment>, low: int, high: int, index: int, pieces: Seq<Segment>)
    requires
        partition(segments, low, high),
        0 <= index < segments.len(),
        partition(pieces, segments[index].start as int, segments[index].end as int),
    ensures
        partition(segments.subrange(0, index) + pieces + segments.subrange(index + 1, segments.len() as int), low, high),
{
    let left = segments.subrange(0, index);
    let right = segments.subrange(index + 1, segments.len() as int);
    let all = left + pieces + right;
    let n = index;
    let m = pieces.len() as int;
    assert(all.len() == segments.len() - 1 + m);
    assert forall|i: int| 0 <= i < n implies #[trigger] all[i] == segments[i] by {
        assert(left[i] == segments[i]);
    }
    assert forall|i: int| n <= i < n + m implies #[trigger] all[i] == pieces[i - n] by {}
    assert forall|i: int| n + m <= i < all.len() implies #[trigger] all[i] == segments[i - m + 1] by {
        assert(right[i - n - m] == segments[i - m + 1]);
    }
    assert forall|i: int| 0 <= i < all.len() implies (#[trigger] all[i]).start < all[i].end by {
        if i < n {
            assert(all[i] == segments[i]);
        } else if i < n + m {
            assert(all[i] == pieces[i - n]);
        } else {
            assert(all[i] == segments[i - m + 1]);
        }
    }
    assert forall|i: int| 0 <= i < all.len() - 1 implies #[trigger] joined(all, i) by {
        if i < n - 1 {
            assert(all[i] == segments[i] && all[i + 1] == segments[i + 1]);
            assert(joined(segments, i));
        } else if i == n - 1 {
            assert(all[i] == segments[i] && all[i + 1] == pieces[0]);
            assert(joined(segments, i));
        } else if i < n + m - 1 {
            assert(all[i] == pieces[i - n] && all[i + 1] == pieces[i - n + 1]);
            assert(joined(pieces, i - n));
        } else if i == n + m - 1 {
            assert(all[i] == pieces[m - 1] && all[i + 1] == segments[index + 1]);
            assert(joined(segments, index));
        } else {
            assert(all[i] == segments[i - m + 1] && all[i + 1] == segments[i - m + 2]);
            assert(joined(segments, i - m + 1));
        }
    }
    if n == 0 {
        assert(all[0] == pieces[0]);
    } else {
        assert(all[0] == segments[0]);
    }
    if right.len() == 0 {
        assert(all[all.len() - 1] == pieces[m - 1]);
    } else {
        assert(all[all.len() - 1] == segments[segments.len() - 1]);
    }
}

/// hands the unassigned columns of `start..end` to the commands from `first`
/// on, splitting segments where the occluded columns begin or end inside them
///
/// a split that would make more than `MAX_SEGMENTS` segments is not made, and
/// its segment stays unassigned; where the segments end at least two short of
/// the limit no split was refused
#[verifier::spinoff_prover]
#[verifier::rlimit(80)]
pub fn occlude(segments: &mut Vec<Segment>, start: usize, end: usize, first: usize)
    requires
        partition(old(segments)@, old(segments)@[0].start as int, old(segments)@.last().end as int),
        old(segments)@.len() <= MAX_SEGMENTS,
        start < end,
    ensures
        partition(final(segments)@, old(segments)@[0].start as int, old(segments)@.last().end as int),
        final(segments)@.len() <= MAX_SEGMENTS,
        exists|parent: Seq<int>|
            {
                &&& #[trigger] refines(final(segments)@, old(segments)@, parent)
                &&& forall|i: int|
                    0 <= i < final(segments)@.len() ==> occluded_piece(
                        #[trigger] final(segments)@[i],
                        old(segments)@[parent[i]],
                        start as int,
                        end as int,
                        first,
                    )
                &&& final(segments)@.len() + 2 <= MAX_SEGMENTS ==> forall|i: int|
                    0 <= i < final(segments)@.len() ==> outside(#[trigger] final(segments)@[i], start as int, end as int)
            },
{
    let ghost initial = segments@;
    let ghost low = initial[0].start as int;
    let ghost high = initial.last().end as int;
    let ghost mut parent: Seq<int> = Seq::empty();
    let ghost mut done: int = 0;
    let ghost mut refused = false;
    let mut index: usize = 0;
    proof {
        assert(segments@.subrange(0, 0) =~= Seq::<Segment>::empty());
        assert(initial.subrange(0, initial.len() as int) =~= initial);
    }
    while index < segments.len()
        invariant
            0 <= done <= initial.len(),
            index <= segments@.len(),
            segments@.len() <= MAX_SEGMENTS,
            start < end,
            partition(segments@, low, high),
            segments@.subrange(index as int, segments@.len() as int) == initial.subrange(done, initial.len() as int),
            refines(segments@.subrange(0, index as int), initial, parent),
            forall|i: int| 0 <= i < index ==> #[trigger] parent[i] < done,
            forall|i: int|
                0 <= i < index ==> occluded_piece(
                    #[trigger] segments@[i],
                    initial[parent[i]],
                    start as int,
                    end as int,
                    first,
                ),
            !refused ==> forall|i: int| 0 <= i < index ==> outside(#[trigger] segments@[i], start as int, end as int),
            refused ==> segments@.len() + 2 > MAX_SEGMENTS,
        decreases initial.len() - done,
    {
        let ghost before = segments@;
        proof {
            assert(before.subrange(index as int, before.len() as int).len() == initial.subrange(
                done,
                initial.len() as int,
            ).len());
            assert(done < initial.len());
        }
        let ghost whole = initial[done];
        let segment = segments[index];
        proof {
            assert(before.subrange(index as int, before.len() as int)[0] == before[index as int]);
            assert(initial.subrange(done, initial.len() as int)[0] == initial[done]);
            assert(segment == whole);
        }
        let overlap_start = if start > segment.start { start } else { segment.start };
        let overlap_end = if end < segment.end { end } else { segment.end };
        let split_left = overlap_start > segment.start;
        let split_right = overlap_end < segment.end;
        let growth: usize = (if split_left { 1 } else { 0 }) + (if split_right { 1 } else { 0 });
        if segment.first.is_some() || overlap_start >= overlap_end || segments.len() + growth > MAX_SEGMENTS {
            proof {
                if segment.first.is_none() && overlap_start < overlap_end {
                    refused = true;
                }
            }
            index = index + 1;
        } else if !split_left && !split_right {
            segments.set(index, Segment { start: segment.start, end: segment.end, first: Some(first) });
            index = index + 1;
        } else if !split_left {
            segments.set(index, Segment { start: segment.start, end: overlap_end, first: Some(first) });
            segments.insert(index + 1, Segment { start: overlap_end, end: segment.end, first: None });
            index = index + 2;
        } else if !split_right {
            segments.set(index, Segment { start: segment.start, end: overlap_start, first: None });
            segments.insert(index + 1, Segment { start: overlap_start, end: segment.end, first: Some(first) });
            index = index + 2;
        } else {
            segments.set(index, Segment { start: segment.start, end: overlap_start, first: None });
            segments.insert(index + 1, Segment { start: overlap_start, end: overlap_end, first: Some(first) });
            segments.insert(index + 2, Segment { start: overlap_end, end: segment.end, first: None });
            index = index + 3;
        }
        proof {
            let added = segments@.len() - before.len() + 1;
            let start_index = index - added;
            let pieces = segments@.subrange(start_index, index as int);
            assert(segments@ =~= before.subrange(0, start_index) + pieces + before.subrange(
                start_index + 1,
                before.len() as int,
            ));
            assert(partition(pieces, segment.start as int, segment.end as int));
            lemma_replace_partition(before, low, high, start_index, pieces);
            let new_parent = parent + Seq::new(added as nat, |k: int| done);
            assert(segments@.subrange(index as int, segments@.len() as int) =~= initial.subrange(
                done + 1,
                initial.len() as int,
            )) by {
                assert(before.subrange(start_index + 1, before.len() as int) =~= initial.subrange(
                    done + 1,
                    initial.len() as int,
                )) by {
                    assert forall|k: int| 0 <= k < before.len() - start_index - 1 implies #[trigger] before.subrange(
                        start_index + 1,
                        before.len() as int,
                    )[k] == initial.subrange(done + 1, initial.len() as int)[k] by {
                        assert(before.subrange(start_index, before.len() as int)[k + 1] == initial.subrange(
                            done,
                            initial.len() as int,
                        )[k + 1]);
                    }
                }
            }
            assert forall|i: int| 0 <= i < index implies #[trigger] new_parent[i] < done + 1 by {
                if i >= start_index {
                    assert(new_parent[i] == done);
                }
            }
            assert(refines(segments@.subrange(0, index as int), initial, new_parent)) by {
                assert forall|i: int| 0 <= i < index implies {
                    &&& 0 <= #[trigger] new_parent[i] < initial.len()
                    &&& initial[new_parent[i]].start <= segments@.subrange(0, index as int)[i].start
                    &&& segments@.subrange(0, index as int)[i].end <= initial[new_parent[i]].end
                } by {
                    if i < start_index {
                        assert(segments@[i] == before[i]);
                        assert(before.subrange(0, start_index)[i] == before[i]);
                    } else {
                        assert(new_parent[i] == done);
                        assert(pieces[i - start_index] == segments@[i]);
                    }
                }
                assert forall|i: int, j: int| 0 <= i < j < index implies #[trigger] new_parent[i]
                    <= #[trigger] new_parent[j] by {
                    if j >= start_index {
                        assert(new_parent[j] == done);
                    }
                }
            }
            assert forall|i: int| 0 <= i < index implies occluded_piece(
                #[trigger] segments@[i],
                initial[new_parent[i]],
                start as int,
                end as int,
                first,
            ) by {
                if i < start_index {
                    assert(segments@[i] == before[i]);
                } else {
                    assert(new_parent[i] == done);
                }
            }
            if !refused {
                assert forall|i: int| 0 <= i < index implies outside(#[trigger] segments@[i], start as int, end as int) by {
                    if i < start_index {
                        assert(segments@[i] == before[i]);
                    }
                }
            }
            parent = new_parent;
            done = done + 1;
        }
    }
    proof {
        assert(segments@.subrange(0, index as int) =~= segments@);
        assert(done == initial.len()) by {
            if done < initial.len() {
                assert(segments@.subrange(index as int, segments@.len() as int).len() == 0);
            }
        }
        assert(refines(segments@, initial, parent));
    }
}

} // verus!
