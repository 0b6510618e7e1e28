//! bounded Myers search for the damage between two command lists
//!
//! - matching commands at the start and end are skipped first
//! - a wavefront grows by edit distance until both sequences are covered
//! - backtracking turns insertions and removals into damage
//! - reaching the edit limit falls back to positional comparison
//!
//! damage grows to the rectangle limit, then neighbouring insertion-order pairs
//! are unioned to halve the list

use vstd::prelude::*;

use crate::command_list::{CommandList, CommandValue, MAX_COMMANDS};
use crate::geometry::PhysicalRect;

verus! {

// ---------------------------------------------------------------------------
// damage rectangles

/// some damage rectangle encloses `r`
pub open spec fn covered(damage: Seq<PhysicalRect>, r: PhysicalRect) -> bool {
    exists|i: int| 0 <= i < damage.len() && #[trigger] damage[i].encloses(r)
}

pub open spec fn all_representable(damage: Seq<PhysicalRect>) -> bool {
    forall|i: int| 0 <= i < damage.len() ==> (#[trigger] damage[i]).is_representable()
}

pub open spec fn all_nonempty(damage: Seq<PhysicalRect>) -> bool {
    forall|i: int| 0 <= i < damage.len() ==> (#[trigger] damage[i]).is_nonempty()
}

/// neighbouring pairs unioned, with an odd last rectangle kept
pub open spec fn halved(damage: Seq<PhysicalRect>) -> Seq<PhysicalRect> {
    Seq::new(
        ((damage.len() + 1) / 2) as nat,
        |i: int|
            if 2 * i + 1 < damage.len() {
                damage[2 * i].union_spec(damage[2 * i + 1])
            } else {
                damage[2 * i]
            },
    )
}

/// the damage list after `bounds` is recorded with at most `max` rectangles
pub open spec fn pushed_damage(damage: Seq<PhysicalRect>, max: int, bounds: PhysicalRect) -> Seq<PhysicalRect> {
    if !bounds.is_nonempty() {
        damage
    } else if damage.len() < max {
        damage.push(bounds)
    } else if damage.len() == 1 {
        seq![damage[0].union_spec(bounds)]
    } else {
        halved(damage).push(bounds)
    }
}

/// the damage list after each of `rects` is recorded in turn
pub open spec fn pushed_all(damage: Seq<PhysicalRect>, max: int, rects: Seq<PhysicalRect>) -> Seq<PhysicalRect>
    decreases rects.len(),
{
    if rects.len() == 0 {
        damage
    } else {
        pushed_damage(pushed_all(damage, max, rects.drop_last()), max, rects.last())
    }
}

/// the non-empty rectangles of `rects`, in order
pub open spec fn nonempty_part(rects: Seq<PhysicalRect>) -> Seq<PhysicalRect>
    decreases rects.len(),
{
    if rects.len() == 0 {
        Seq::empty()
    } else if rects.last().is_nonempty() {
        nonempty_part(rects.drop_last()).push(rects.last())
    } else {
        nonempty_part(rects.drop_last())
    }
}

proof fn lemma_pushed_all_push(damage: Seq<PhysicalRect>, max: int, rects: Seq<PhysicalRect>, r: PhysicalRect)
    ensures
        pushed_all(damage, max, rects.push(r)) == pushed_damage(pushed_all(damage, max, rects), max, r),
{
    assert(rects.push(r).drop_last() =~= rects);
}

/// recording rectangles adds at most one rectangle each
proof fn lemma_pushed_all_len(damage: Seq<PhysicalRect>, max: int, rects: Seq<PhysicalRect>)
    requires
        0 < max,
    ensures
        pushed_all(damage, max, rects).len() <= damage.len() + rects.len(),
    decreases rects.len(),
{
    if rects.len() > 0 {
        lemma_pushed_all_len(damage, max, rects.drop_last());
    }
}


/// while the non-empty rectangles fit the limit, recording them only appends them
pub proof fn lemma_pushed_all_fits(damage: Seq<PhysicalRect>, max: int, rects: Seq<PhysicalRect>)
    requires
        damage.len() + nonempty_part(rects).len() <= max,
    ensures
        pushed_all(damage, max, rects) == damage + nonempty_part(rects),
    decreases rects.len(),
{
    if rects.len() == 0 {
        assert(damage + Seq::<PhysicalRect>::empty() =~= damage);
    } else {
        lemma_pushed_all_fits(damage, max, rects.drop_last());
        let before = nonempty_part(rects.drop_last());
        if rects.last().is_nonempty() {
            assert((damage + before).push(rects.last()) =~= damage + before.push(rects.last()));
        }
    }
}

proof fn lemma_halved_covers(damage: Seq<PhysicalRect>, r: PhysicalRect)
    requires
        all_representable(damage),
        covered(damage, r),
    ensures
        covered(halved(damage), r),
        all_representable(halved(damage)),
{
    let h = halved(damage);
    let i = choose|i: int| 0 <= i < damage.len() && #[trigger] damage[i].encloses(r);
    let j = i / 2;
    if 2 * j + 1 < damage.len() {
        crate::geometry::lemma_union_encloses(damage[2 * j], damage[2 * j + 1]);
        crate::geometry::lemma_encloses_transitive(h[j], damage[i], r);
    }
    assert(h[j].encloses(r));
    assert forall|k: int| 0 <= k < h.len() implies (#[trigger] h[k]).is_representable() by {
        if 2 * k + 1 < damage.len() {
            crate::geometry::lemma_union_encloses(damage[2 * k], damage[2 * k + 1]);
        }
    }
}

/// recording damage keeps everything recorded before covered and covers the new bounds
pub proof fn lemma_pushed_damage_covers(damage: Seq<PhysicalRect>, max: int, bounds: PhysicalRect)
    requires
        0 < max,
        damage.len() <= max,
        all_representable(damage),
        bounds.is_representable(),
    ensures
        all_representable(pushed_damage(damage, max, bounds)),
        pushed_damage(damage, max, bounds).len() <= max,
        bounds.is_nonempty() ==> covered(pushed_damage(damage, max, bounds), bounds),
        forall|r: PhysicalRect| covered(damage, r) ==> covered(pushed_damage(damage, max, bounds), r),
{
    let next = pushed_damage(damage, max, bounds);
    if bounds.is_nonempty() {
        if damage.len() < max {
            assert(next[damage.len() as int] == bounds);
            assert(next[damage.len() as int].encloses(bounds));
            assert forall|r: PhysicalRect| covered(damage, r) implies covered(next, r) by {
                let i = choose|i: int| 0 <= i < damage.len() && #[trigger] damage[i].encloses(r);
                assert(next[i] == damage[i]);
            }
        } else if damage.len() == 1 {
            crate::geometry::lemma_union_encloses(damage[0], bounds);
            assert(next[0].encloses(bounds));
            assert forall|r: PhysicalRect| covered(damage, r) implies covered(next, r) by {
                let i = choose|i: int| 0 <= i < damage.len() && #[trigger] damage[i].encloses(r);
                crate::geometry::lemma_encloses_transitive(next[0], damage[0], r);
            }
        } else {
            let h = halved(damage);
            assert(next[h.len() as int] == bounds);
            assert(next[h.len() as int].encloses(bounds));
            assert forall|r: PhysicalRect| covered(damage, r) implies covered(next, r) by {
                lemma_halved_covers(damage, r);
                let i = choose|i: int| 0 <= i < h.len() && #[trigger] h[i].encloses(r);
                assert(next[i] == h[i]);
            }
            if damage.len() > 0 {
                assert(damage[0].encloses(damage[0]));
                lemma_halved_covers(damage, damage[0]);
            }
            assert forall|k: int| 0 <= k < next.len() implies (#[trigger] next[k]).is_representable() by {
                if k < h.len() {
                    assert(next[k] == h[k]);
                }
            }
        }
    }
}

/// records `bounds` as damage, halving a full list by unioning neighbouring pairs
pub fn push_damage(damage: &mut Vec<PhysicalRect>, max_rectangles: usize, bounds: PhysicalRect)
    requires
        0 < max_rectangles,
        old(damage)@.len() <= max_rectangles,
    ensures
        final(damage)@ == pushed_damage(old(damage)@, max_rectangles as int, bounds),
        final(damage)@.len() <= max_rectangles,
        all_nonempty(old(damage)@) ==> all_nonempty(final(damage)@),
{
    if bounds.width <= 0 || bounds.height <= 0 {
        return;
    }
    if damage.len() < max_rectangles {
        damage.push(bounds);
        return;
    }
    if damage.len() == 1 {
        let merged = damage[0].union(bounds);
        damage.set(0, merged);
        proof {
            assert(damage@ =~= seq![old(damage)@[0].union_spec(bounds)]);
        }
        return;
    }
    let len = damage.len();
    let ghost start = damage@;
    let mut index: usize = 0;
    while index < len / 2
        invariant
            len == start.len(),
            len >= 2,
            damage@.len() == len,
            index <= len / 2,
            forall|i: int| 0 <= i < index ==> damage@[i] == halved(start)[i],
            forall|i: int| 2 * index <= i < len ==> damage@[i] == start[i],
        decreases len / 2 - index,
    {
        let merged = damage[index * 2].union(damage[index * 2 + 1]);
        damage.set(index, merged);
        index += 1;
    }
    if len % 2 == 1 {
        let last = damage[len - 1];
        damage.set(len / 2, last);
    }
    damage.truncate(len / 2 + len % 2);
    damage.push(bounds);
    proof {
        assert(damage@ =~= halved(start).push(bounds));
        assert forall|i: int| 0 <= i < damage@.len() && all_nonempty(start) implies (#[trigger] damage@[i]).is_nonempty() by {
            if i < halved(start).len() && 2 * i + 1 < len {
                assert(start[2 * i].is_nonempty());
            }
        }
    }
}


// ---------------------------------------------------------------------------
// search rows

/// the furthest point on diagonal `k` stored in the row of `e` edits
pub open spec fn row_at(row: Seq<int>, e: int, k: int) -> int {
    row[(k + e) / 2]
}

/// where the snake on diagonal `k` after `e` edits starts, chosen from the previous row
pub open spec fn snake_start(prev: Seq<int>, e: int, k: int) -> int {
    if e == 0 {
        0
    } else if k == -e || (k != e && row_at(prev, e - 1, k - 1) < row_at(prev, e - 1, k + 1)) {
        row_at(prev, e - 1, k + 1)
    } else {
        row_at(prev, e - 1, k - 1) + 1
    }
}

/// the snake from the start point to `x` on diagonal `k` follows equal elements
pub open spec fn reaches<V>(a: Seq<V>, b: Seq<V>, prev: Seq<int>, e: int, k: int, x: int) -> bool {
    let sx = snake_start(prev, e, k);
    &&& 0 <= sx <= x
    &&& 0 <= sx - k
    &&& x <= a.len() + e
    &&& x - k <= b.len() + e
    &&& snake_equal(a, b, sx, x, k)
}

/// the positions from `sx` up to `x` on diagonal `k` pair equal elements
pub open spec fn snake_equal<V>(a: Seq<V>, b: Seq<V>, sx: int, x: int, k: int) -> bool {
    forall|t: int|
        #![trigger a[t]]
        sx <= t && t < x ==> {
            &&& 0 <= t
            &&& t < a.len()
            &&& 0 <= t - k
            &&& t - k < b.len()
            &&& a[t] == b[t - k]
        }
}

/// the snake on diagonal `k` cannot go on past `x`: one sequence ends there or
/// the next elements differ
pub open spec fn stops<V>(a: Seq<V>, b: Seq<V>, k: int, x: int) -> bool {
    x >= a.len() || x - k >= b.len() || a[x] != b[x - k]
}

/// every stored row point ends its snake
pub open spec fn rows_stop<V>(a: Seq<V>, b: Seq<V>, rows: Seq<Seq<int>>) -> bool {
    forall|e: int, j: int| 0 <= e < rows.len() && 0 <= j <= e ==> stops(a, b, 2 * j - e, #[trigger] rows[e][j])
}

/// no stored row point is the end of both sequences
pub open spec fn rows_miss_end<V>(a: Seq<V>, b: Seq<V>, rows: Seq<Seq<int>>) -> bool {
    forall|e: int, j: int|
        0 <= e < rows.len() && 0 <= j <= e ==> !(#[trigger] rows[e][j] == a.len() && 2 * j - e == a.len() - b.len())
}

proof fn lemma_snake_extend<V>(a: Seq<V>, b: Seq<V>, sx: int, x: int, k: int)
    requires
        snake_equal(a, b, sx, x, k),
        0 <= sx <= x,
        0 <= sx - k,
        0 <= x < a.len(),
        0 <= x - k < b.len(),
        a[x] == b[x - k],
    ensures
        snake_equal(a, b, sx, x + 1, k),
{
}

pub open spec fn previous_row(rows: Seq<Seq<int>>, e: int) -> Seq<int> {
    if e == 0 {
        Seq::empty()
    } else {
        rows[e - 1]
    }
}

/// every stored row point is reached by a snake from its start point
#[verifier::opaque]
pub open spec fn rows_reach<V>(a: Seq<V>, b: Seq<V>, rows: Seq<Seq<int>>) -> bool {
    forall|e: int|
        #![trigger rows[e]]
        0 <= e < rows.len() ==> {
            &&& rows[e].len() == e + 1
            &&& forall|j: int|
                0 <= j <= e ==> reaches(a, b, previous_row(rows, e), e, 2 * j - e, #[trigger] rows[e][j])
        }
}

/// the rows laid out one after another
pub open spec fn flatten(rows: Seq<Seq<int>>) -> Seq<int>
    decreases rows.len(),
{
    if rows.len() == 0 {
        Seq::empty()
    } else {
        flatten(rows.drop_last()) + rows.last()
    }
}

proof fn lemma_flatten_index(rows: Seq<Seq<int>>, e: int, j: int)
    requires
        forall|i: int| 0 <= i < rows.len() ==> (#[trigger] rows[i]).len() == i + 1,
        0 <= e < rows.len(),
        0 <= j <= e,
    ensures
        flatten(rows).len() == rows.len() * (rows.len() + 1) / 2,
        e * (e + 1) / 2 + j < flatten(rows).len(),
        flatten(rows)[e * (e + 1) / 2 + j] == rows[e][j],
    decreases rows.len(),
{
    let n = rows.len();
    let init = rows.drop_last();
    assert forall|i: int| 0 <= i < init.len() implies (#[trigger] init[i]).len() == i + 1 by {
        assert(init[i] == rows[i]);
    }
    if e < n - 1 {
        lemma_flatten_index(init, e, j);
        assert(init[e] == rows[e]);
    } else {
        if n > 1 {
            lemma_flatten_index(init, 0, 0);
        }
        assert(rows.last() == rows[e]);
    }
    assert(flatten(rows).len() == n * (n + 1) / 2) by (nonlinear_arith)
        requires
            flatten(rows).len() == flatten(init).len() + n,
            n >= 1,
            n == 1 || flatten(init).len() == (n - 1) * n / 2,
            n > 1 || flatten(init).len() == 0,
    ;
    assert(e * (e + 1) / 2 + j < n * (n + 1) / 2) by (nonlinear_arith)
        requires
            0 <= e < n,
            0 <= j <= e,
    ;
    if e == n - 1 {
        assert(flatten(init).len() == e * (e + 1) / 2) by (nonlinear_arith)
            requires
                e == n - 1,
                n == 1 || flatten(init).len() == (n - 1) * n / 2,
                n > 1 || flatten(init).len() == 0,
        ;
    }
}


// ---------------------------------------------------------------------------
// matchings

/// increasing pairs of positions whose elements are equal
pub open spec fn is_matching<V>(a: Seq<V>, b: Seq<V>, m: Seq<(int, int)>) -> bool {
    &&& forall|p: int|
        #![trigger m[p]]
        0 <= p < m.len() ==> {
            &&& 0 <= m[p].0 < a.len()
            &&& 0 <= m[p].1 < b.len()
            &&& a[m[p].0] == b[m[p].1]
        }
    &&& forall|p: int, q: int|
        #![trigger m[p], m[q]]
        0 <= p < q < m.len() ==> m[p].0 < m[q].0 && m[p].1 < m[q].1
}

/// the length of a longest common subsequence of the first `x` elements of `a`
/// and the first `y` elements of `b`
pub open spec fn common_length<V>(a: Seq<V>, b: Seq<V>, x: int, y: int) -> int
    decreases x + y,
{
    if x <= 0 || y <= 0 {
        0
    } else if a[x - 1] == b[y - 1] {
        common_length(a, b, x - 1, y - 1) + 1
    } else {
        let left = common_length(a, b, x - 1, y);
        let up = common_length(a, b, x, y - 1);
        if left >= up {
            left
        } else {
            up
        }
    }
}

/// the fewest insertions and removals that turn the first `x` elements of `a`
/// into the first `y` elements of `b`
pub open spec fn edits_between<V>(a: Seq<V>, b: Seq<V>, x: int, y: int) -> int {
    x + y - 2 * common_length(a, b, x, y)
}

/// the fewest insertions and removals that turn `a` into `b`
pub open spec fn edit_distance<V>(a: Seq<V>, b: Seq<V>) -> int {
    edits_between(a, b, a.len() as int, b.len() as int)
}

/// a common subsequence is no longer than either prefix, and growing a prefix
/// by one element grows it by at most one
proof fn lemma_common_length<V>(a: Seq<V>, b: Seq<V>, x: int, y: int)
    requires
        0 <= x,
        0 <= y,
    ensures
        0 <= common_length(a, b, x, y) <= x,
        common_length(a, b, x, y) <= y,
        common_length(a, b, x, y) <= common_length(a, b, x + 1, y) <= common_length(a, b, x, y) + 1,
        common_length(a, b, x, y) <= common_length(a, b, x, y + 1) <= common_length(a, b, x, y) + 1,
    decreases x + y,
{
    if x > 0 && y > 0 {
        lemma_common_length(a, b, x - 1, y - 1);
        lemma_common_length(a, b, x - 1, y);
        lemma_common_length(a, b, x, y - 1);
    }
    if x > 0 {
        lemma_common_length(a, b, x - 1, y);
    }
    if y > 0 {
        lemma_common_length(a, b, x, y - 1);
    }
}

/// the edits a path from the start needs to reach `(x, y)`, where steps past
/// the end of a sequence are edits too
pub open spec fn cost<V>(a: Seq<V>, b: Seq<V>, x: int, y: int) -> int {
    let cx = if x <= a.len() { x } else { a.len() as int };
    let cy = if y <= b.len() { y } else { b.len() as int };
    edits_between(a, b, cx, cy) + (x - cx) + (y - cy)
}

/// one step right or down costs at most one edit, and a step along equal
/// elements costs none
proof fn lemma_cost_steps<V>(a: Seq<V>, b: Seq<V>, x: int, y: int)
    requires
        0 <= x,
        0 <= y,
    ensures
        cost(a, b, x + 1, y) <= cost(a, b, x, y) + 1,
        cost(a, b, x, y + 1) <= cost(a, b, x, y) + 1,
        x < a.len() && y < b.len() && a[x] == b[y] ==> cost(a, b, x + 1, y + 1) == cost(a, b, x, y),
        0 <= edits_between(a, b, x, y),
        x - y <= edits_between(a, b, x, y),
        y - x <= edits_between(a, b, x, y),
        (edits_between(a, b, x, y) + x - y) % 2 == 0,
{
    let cx = if x <= a.len() { x } else { a.len() as int };
    let cy = if y <= b.len() { y } else { b.len() as int };
    lemma_common_length(a, b, cx, cy);
    lemma_common_length(a, b, x, y);
}

/// every point on a snake costs no more than where the snake starts
proof fn lemma_snake_cost<V>(a: Seq<V>, b: Seq<V>, sx: int, x: int, k: int)
    requires
        0 <= sx <= x,
        0 <= sx - k,
        sx < x ==> x <= a.len() && x - k <= b.len(),
        forall|t: int| sx <= t < x ==> #[trigger] a[t] == b[t - k],
    ensures
        cost(a, b, x, x - k) <= cost(a, b, sx, sx - k),
    decreases x - sx,
{
    if sx < x {
        lemma_snake_cost(a, b, sx, x - 1, k);
        assert(a[x - 1] == b[x - 1 - k]);
        lemma_cost_steps(a, b, x - 1, x - 1 - k);
    }
}

/// every stored row point costs no more edits than its row number
proof fn lemma_rows_sound<V>(a: Seq<V>, b: Seq<V>, rows: Seq<Seq<int>>, e: int)
    requires
        rows_reach(a, b, rows),
        0 <= e < rows.len(),
    ensures
        forall|j: int| 0 <= j <= e ==> cost(a, b, #[trigger] rows[e][j], rows[e][j] - (2 * j - e)) <= e,
    decreases e,
{
    let prev = previous_row(rows, e);
    if e > 0 {
        lemma_rows_sound(a, b, rows, e - 1);
        lemma_row_reaches(a, b, rows, e - 1, 0);
        assert forall|j: int| 0 <= j < e implies 0 <= #[trigger] prev[j] && 0 <= prev[j] - (2 * j - (e - 1)) by {
            lemma_row_reaches(a, b, rows, e - 1, j);
        }
    }
    assert forall|j: int| 0 <= j <= e implies cost(a, b, #[trigger] rows[e][j], rows[e][j] - (2 * j - e)) <= e by {
        lemma_row_reaches(a, b, rows, e, j);
        lemma_point_sound(a, b, prev, e, 2 * j - e, rows[e][j]);
    }
}

/// following equal elements back along the diagonal of `(x, y)` keeps the
/// edits needed, and ends where a sequence starts or the elements differ
proof fn lemma_walk_back<V>(a: Seq<V>, b: Seq<V>, x: int, y: int) -> (x0: int)
    requires
        0 <= x <= a.len(),
        0 <= y <= b.len(),
    ensures
        0 <= x0 <= x,
        0 <= x0 - (x - y),
        edits_between(a, b, x0, x0 - (x - y)) == edits_between(a, b, x, y),
        forall|t: int| x0 <= t < x ==> #[trigger] a[t] == b[t - (x - y)],
        x0 == 0 || x0 - (x - y) == 0 || a[x0 - 1] != b[x0 - 1 - (x - y)],
    decreases x,
{
    if x > 0 && y > 0 && a[x - 1] == b[y - 1] {
        lemma_walk_back(a, b, x - 1, y - 1)
    } else {
        x
    }
}

/// a point that `e` edits reach, inside both sequences, lies no further along
/// its diagonal than the stored point of row `e`
proof fn lemma_point_complete<V>(a: Seq<V>, b: Seq<V>, rows: Seq<Seq<int>>, e: int, x: int, y: int)
    requires
        rows_reach(a, b, rows),
        rows_stop(a, b, rows),
        0 <= e < rows.len(),
        0 <= x <= a.len(),
        0 <= y <= b.len(),
        edits_between(a, b, x, y) <= e,
        (x - y + e) % 2 == 0,
    ensures
        -e <= x - y <= e,
        row_at(rows[e], e, x - y) >= x,
    decreases e,
{
    let k = x - y;
    lemma_cost_steps(a, b, x, y);
    let x0 = lemma_walk_back(a, b, x, y);
    let y0 = x0 - k;
    let j = (k + e) / 2;
    lemma_row_reaches(a, b, rows, e, j);
    assert(2 * j - e == k);
    let v = rows[e][j];
    assert(row_at(rows[e], e, k) == v);
    let prev = previous_row(rows, e);
    let sx = snake_start(prev, e, k);
    assert(stops(a, b, 2 * j - e, rows[e][j]));
    if e == 0 {
        if x0 > 0 && y0 > 0 {
            lemma_common_length(a, b, x0 - 1, y0);
            lemma_common_length(a, b, x0, y0 - 1);
        }
        assert(x0 == 0);
    } else if x0 > 0 || y0 > 0 {
        lemma_cost_steps(a, b, x0, y0);
        if x0 > 0 {
            lemma_cost_steps(a, b, x0 - 1, y0);
        }
        if y0 > 0 {
            lemma_cost_steps(a, b, x0, y0 - 1);
        }
        if x0 > 0 && y0 > 0 {
            lemma_common_length(a, b, x0 - 1, y0);
            lemma_common_length(a, b, x0, y0 - 1);
        }
        let left = x0 > 0 && (y0 == 0 || edits_between(a, b, x0 - 1, y0) <= e - 1);
        if left {
            if y0 == 0 {
                lemma_common_length(a, b, x0, 0);
                lemma_common_length(a, b, x0 - 1, 0);
            }
            lemma_point_complete(a, b, rows, e - 1, x0 - 1, y0);
            assert(row_at(prev, e - 1, k - 1) >= x0 - 1);
        } else {
            if x0 == 0 {
                lemma_common_length(a, b, 0, y0);
                lemma_common_length(a, b, 0, y0 - 1);
            }
            assert(edits_between(a, b, x0, y0 - 1) <= e - 1);
            lemma_point_complete(a, b, rows, e - 1, x0, y0 - 1);
            assert(row_at(prev, e - 1, k + 1) >= x0);
        }
        assert(sx >= x0);
    }
    if v < x {
        assert(a[v] == b[v - k]);
    }
}

/// rows that never reach the end of both sequences are fewer than the edits
/// needed to turn one into the other
proof fn lemma_rows_below_distance<V>(a: Seq<V>, b: Seq<V>, rows: Seq<Seq<int>>)
    requires
        rows_reach(a, b, rows),
        rows_stop(a, b, rows),
        rows_miss_end(a, b, rows),
    ensures
        edit_distance(a, b) >= rows.len(),
{
    let n = a.len() as int;
    let m = b.len() as int;
    let d = edit_distance(a, b);
    lemma_cost_steps(a, b, n, m);
    if d < rows.len() {
        lemma_point_complete(a, b, rows, d, n, m);
        let k = n - m;
        let j = (k + d) / 2;
        assert(2 * j - d == k);
        lemma_rows_sound(a, b, rows, d);
        let v = rows[d][j];
        assert(row_at(rows[d], d, k) == v);
        assert(cost(a, b, v, v - (2 * j - d)) <= d);
        assert(v == n);
        assert(!(rows[d][j] == a.len() && 2 * j - d == a.len() - b.len()));
    }
}

/// the end of both sequences reached after `d` edits, from sound rows, needs no
/// more than `d` edits
proof fn lemma_found_within<V>(a: Seq<V>, b: Seq<V>, rows: Seq<Seq<int>>, d: int)
    requires
        rows_reach(a, b, rows),
        rows.len() == d,
        -d <= a.len() - b.len() <= d,
        (a.len() - b.len() + d) % 2 == 0,
        reaches(a, b, previous_row(rows, d), d, a.len() - b.len(), a.len() as int),
    ensures
        edit_distance(a, b) <= d,
{
    let prev = previous_row(rows, d);
    if d > 0 {
        lemma_rows_sound(a, b, rows, d - 1);
        lemma_row_reaches(a, b, rows, d - 1, 0);
        assert forall|j: int| 0 <= j < d implies 0 <= #[trigger] prev[j] && 0 <= prev[j] - (2 * j - (d - 1)) by {
            lemma_row_reaches(a, b, rows, d - 1, j);
        }
    }
    lemma_point_sound(a, b, prev, d, a.len() - b.len(), a.len() as int);
}

/// a stored row point is reached from the row before
proof fn lemma_row_reaches<V>(a: Seq<V>, b: Seq<V>, rows: Seq<Seq<int>>, e: int, j: int)
    requires
        rows_reach(a, b, rows),
        0 <= e < rows.len(),
        0 <= j <= e,
    ensures
        rows[e].len() == e + 1,
        reaches(a, b, previous_row(rows, e), e, 2 * j - e, rows[e][j]),
        e > 0 ==> previous_row(rows, e) == rows[e - 1],
{
    reveal(rows_reach);
}

/// a point reached by a snake from a start chosen in a sound previous row costs
/// no more edits than its row number
proof fn lemma_point_sound<V>(a: Seq<V>, b: Seq<V>, prev: Seq<int>, e: int, k: int, x: int)
    requires
        0 <= e,
        -e <= k <= e,
        (k + e) % 2 == 0,
        reaches(a, b, prev, e, k, x),
        e > 0 ==> prev.len() == e,
        e > 0 ==> forall|j: int|
            0 <= j < e ==> cost(a, b, #[trigger] prev[j], prev[j] - (2 * j - (e - 1))) <= e - 1,
        e > 0 ==> forall|j: int| 0 <= j < e ==> 0 <= #[trigger] prev[j] && 0 <= prev[j] - (2 * j - (e - 1)),
    ensures
        cost(a, b, x, x - k) <= e,
{
    let sx = snake_start(prev, e, k);
    if sx < x {
        assert(a[x - 1] == b[x - 1 - k]);
    }
    lemma_snake_cost(a, b, sx, x, k);
    if e == 0 {
        lemma_common_length(a, b, 0, 0);
    } else if k == -e || (k != e && row_at(prev, e - 1, k - 1) < row_at(prev, e - 1, k + 1)) {
        let j = (k + 1 + e - 1) / 2;
        assert(row_at(prev, e - 1, k + 1) == prev[j]);
        assert(2 * j - (e - 1) == k + 1);
        lemma_cost_steps(a, b, sx, sx - k - 1);
    } else {
        let j = (k - 1 + e - 1) / 2;
        assert(row_at(prev, e - 1, k - 1) == prev[j]);
        assert(2 * j - (e - 1) == k - 1);
        lemma_cost_steps(a, b, sx - 1, sx - k);
    }
}

/// a matching whose pairs lie within the first `x` and `y` elements is no
/// longer than their longest common subsequence
proof fn lemma_matching_within<V>(a: Seq<V>, b: Seq<V>, m: Seq<(int, int)>, x: int, y: int)
    requires
        is_matching(a, b, m),
        0 <= x <= a.len(),
        0 <= y <= b.len(),
        forall|p: int| 0 <= p < m.len() ==> (#[trigger] m[p]).0 < x && m[p].1 < y,
    ensures
        m.len() <= common_length(a, b, x, y),
    decreases x + y,
{
    lemma_common_length(a, b, x, y);
    if m.len() > 0 {
        let last = m[m.len() - 1];
        let rest = m.drop_last();
        assert forall|p: int| 0 <= p < rest.len() implies (#[trigger] rest[p]).0 < last.0 && rest[p].1 < last.1 by {
            assert(rest[p] == m[p]);
        }
        assert(is_matching(a, b, rest)) by {
            assert forall|p: int| #![trigger rest[p]] 0 <= p < rest.len() implies {
                &&& 0 <= rest[p].0 < a.len()
                &&& 0 <= rest[p].1 < b.len()
                &&& a[rest[p].0] == b[rest[p].1]
            } by {
                assert(rest[p] == m[p]);
            }
            assert forall|p: int, q: int| #![trigger rest[p], rest[q]] 0 <= p < q < rest.len() implies rest[p].0 < rest[q].0
                && rest[p].1 < rest[q].1 by {
                assert(rest[p] == m[p]);
                assert(rest[q] == m[q]);
            }
        }
        lemma_common_length(a, b, x - 1, y);
        lemma_common_length(a, b, x, y - 1);
        lemma_common_length(a, b, x - 1, y - 1);
        if last.0 < x - 1 {
            assert forall|p: int| 0 <= p < m.len() implies (#[trigger] m[p]).0 < x - 1 && m[p].1 < y by {
                if p < m.len() - 1 {
                    assert(m[p].0 < last.0);
                }
            }
            lemma_matching_within(a, b, m, x - 1, y);
            assert(m.len() <= common_length(a, b, x, y));
        } else if last.1 < y - 1 {
            assert forall|p: int| 0 <= p < m.len() implies (#[trigger] m[p]).0 < x && m[p].1 < y - 1 by {
                if p < m.len() - 1 {
                    assert(m[p].1 < last.1);
                }
            }
            lemma_matching_within(a, b, m, x, y - 1);
            assert(m.len() <= common_length(a, b, x, y));
        } else {
            assert(a[x - 1] == b[y - 1]);
            lemma_matching_within(a, b, rest, x - 1, y - 1);
            assert(common_length(a, b, x, y) == common_length(a, b, x - 1, y - 1) + 1);
            assert(m.len() <= common_length(a, b, x, y));
        }
    }
}

/// no matching is longer than a longest common subsequence, so no matching
/// leaves fewer elements unmatched than the edit distance
pub proof fn law_matching_leaves_edit_distance<V>(a: Seq<V>, b: Seq<V>, m: Seq<(int, int)>)
    requires
        is_matching(a, b, m),
    ensures
        m.len() <= common_length(a, b, a.len() as int, b.len() as int),
        edit_distance(a, b) <= a.len() + b.len() - 2 * m.len(),
{
    lemma_matching_within(a, b, m, a.len() as int, b.len() as int);
}

/// sequences equal up to `p` have all of that prefix in common, also with a
/// longer other prefix
proof fn lemma_common_prefix<V>(a: Seq<V>, b: Seq<V>, p: int, j: int)
    requires
        0 <= p,
        0 <= j,
        forall|t: int| 0 <= t < p ==> #[trigger] a[t] == b[t],
    ensures
        common_length(a, b, p, p + j) == p,
        common_length(a, b, p + j, p) == p,
    decreases p + j,
{
    lemma_common_length(a, b, p, p + j);
    lemma_common_length(a, b, p + j, p);
    if j > 0 {
        lemma_common_prefix(a, b, p, j - 1);
        lemma_common_length(a, b, p, p + j - 1);
        lemma_common_length(a, b, p + j - 1, p);
    } else if p > 0 {
        assert(a[p - 1] == b[p - 1]);
        lemma_common_prefix(a, b, p - 1, 0);
    }
}

/// a common prefix of `p` elements adds `p` to what the rest have in common
proof fn lemma_common_shift<V>(a: Seq<V>, b: Seq<V>, a2: Seq<V>, b2: Seq<V>, p: int, i: int, j: int)
    requires
        0 <= p,
        0 <= i,
        0 <= j,
        forall|t: int| 0 <= t < p ==> #[trigger] a[t] == b[t],
        forall|t: int| 0 <= t < i ==> #[trigger] a2[t] == a[p + t],
        forall|t: int| 0 <= t < j ==> #[trigger] b2[t] == b[p + t],
    ensures
        common_length(a, b, p + i, p + j) == p + common_length(a2, b2, i, j),
    decreases i + j,
{
    if i == 0 || j == 0 {
        lemma_common_prefix(a, b, p, if i == 0 { j } else { i });
    } else {
        assert(a2[i - 1] == a[p + i - 1]);
        assert(b2[j - 1] == b[p + j - 1]);
        lemma_common_shift(a, b, a2, b2, p, i - 1, j - 1);
        lemma_common_shift(a, b, a2, b2, p, i - 1, j);
        lemma_common_shift(a, b, a2, b2, p, i, j - 1);
    }
}

/// a common suffix of `q` elements adds `q` to what the rest have in common
proof fn lemma_common_suffix<V>(a: Seq<V>, b: Seq<V>, n: int, m: int, q: int)
    requires
        0 <= q <= n,
        q <= m,
        forall|t: int| 0 <= t < q ==> #[trigger] a[n - 1 - t] == b[m - 1 - t],
    ensures
        common_length(a, b, n, m) == q + common_length(a, b, n - q, m - q),
    decreases q,
{
    if q > 0 {
        assert(a[n - 1 - 0] == b[m - 1 - 0]);
        assert forall|t: int| 0 <= t < q - 1 implies #[trigger] a[(n - 1) - 1 - t] == b[(m - 1) - 1 - t] by {
            assert(a[n - 1 - (t + 1)] == b[m - 1 - (t + 1)]);
        }
        lemma_common_suffix(a, b, n - 1, m - 1, q - 1);
    }
}

/// removing a common prefix and suffix keeps the edit distance
pub proof fn law_trimming_keeps_edit_distance<V>(a: Seq<V>, b: Seq<V>, p: int, q: int)
    requires
        trims(a, b, p, q),
    ensures
        edit_distance(a, b) == edit_distance(
            a.subrange(p, a.len() - q),
            b.subrange(p, b.len() - q),
        ),
{
    let n = a.len() as int;
    let m = b.len() as int;
    assert forall|t: int| 0 <= t < q implies #[trigger] a[n - 1 - t] == b[m - 1 - t] by {
        assert(a[a.len() - 1 - t] == b[b.len() - 1 - t]);
    }
    lemma_common_suffix(a, b, n, m, q);
    let a2 = a.subrange(p, n - q);
    let b2 = b.subrange(p, m - q);
    assert forall|t: int| 0 <= t < p implies #[trigger] a[t] == b[t] by {}
    lemma_common_shift(a, b, a2, b2, p, n - q - p, m - q - p);
}

/// position `i` of the first sequence is paired by `m`
pub open spec fn matched_first(m: Seq<(int, int)>, i: int) -> bool {
    exists|p: int| 0 <= p < m.len() && (#[trigger] m[p]).0 == i
}

/// position `j` of the second sequence is paired by `m`
pub open spec fn matched_second(m: Seq<(int, int)>, j: int) -> bool {
    exists|p: int| 0 <= p < m.len() && (#[trigger] m[p]).1 == j
}

/// every bounds of both lists lies in the non-negative quadrant with representable edges
pub open spec fn representable_lists(old: &CommandList, new: &CommandList) -> bool {
    &&& forall|i: int| 0 <= i < old.records().len() ==> (#[trigger] old.records()[i]).bounds.is_representable()
    &&& forall|i: int| 0 <= i < new.records().len() ==> (#[trigger] new.records()[i]).bounds.is_representable()
}

/// the bounds of command `i` are empty or enclosed by the damage
pub open spec fn settled(list: &CommandList, i: int, damage: Seq<PhysicalRect>) -> bool {
    list.records()[i].bounds.is_nonempty() ==> covered(damage, list.records()[i].bounds)
}

/// commands left out of the matching are covered by the damage
pub open spec fn damage_covers(old: &CommandList, new: &CommandList, m: Seq<(int, int)>, damage: Seq<PhysicalRect>) -> bool {
    &&& forall|i: int|
        0 <= i < old.records().len() && !matched_first(m, i) ==> #[trigger] settled(old, i, damage)
    &&& forall|j: int|
        0 <= j < new.records().len() && !matched_second(m, j) ==> #[trigger] settled(new, j, damage)
}

/// records `bounds`, keeping everything already covered covered
fn push_tracked(damage: &mut Vec<PhysicalRect>, max_rectangles: usize, bounds: PhysicalRect)
    requires
        0 < max_rectangles,
        old(damage)@.len() <= max_rectangles,
        all_nonempty(old(damage)@),
    ensures
        final(damage)@ == pushed_damage(old(damage)@, max_rectangles as int, bounds),
        final(damage)@.len() <= max_rectangles,
        all_nonempty(final(damage)@),
        all_representable(old(damage)@) && bounds.is_representable() ==> {
            &&& all_representable(final(damage)@)
            &&& bounds.is_nonempty() ==> covered(final(damage)@, bounds)
            &&& forall|r: PhysicalRect| #[trigger] covered(old(damage)@, r) ==> covered(final(damage)@, r)
        },
{
    proof {
        if all_representable(damage@) && bounds.is_representable() {
            lemma_pushed_damage_covers(damage@, max_rectangles as int, bounds);
        }
    }
    push_damage(damage, max_rectangles, bounds);
}


// ---------------------------------------------------------------------------
// the search

/// a sequence of machine integers as mathematical integers
pub open spec fn as_ints(s: Seq<isize>) -> Seq<int> {
    s.map_values(|v: isize| v as int)
}

/// the part of a list between the common prefix and suffix
pub open spec fn trimmed(list: &CommandList, start: int, end: int) -> Seq<CommandValue> {
    list.values().subrange(start, end)
}

/// the row entries are points with coordinates inside the extended grid
pub open spec fn row_bounded(row: Seq<int>, e: int, n: int, m: int) -> bool {
    forall|j: int|
        0 <= j < row.len() ==> {
            let x = #[trigger] row[j];
            let k = 2 * j - e;
            &&& 0 <= x
            &&& 0 <= x - k
            &&& x <= n + e
            &&& x - k <= m + e
        }
}

proof fn lemma_rows_bounded<V>(a: Seq<V>, b: Seq<V>, rows: Seq<Seq<int>>, e: int)
    requires
        rows_reach(a, b, rows),
        0 <= e < rows.len(),
    ensures
        rows[e].len() == e + 1,
        row_bounded(rows[e], e, a.len() as int, b.len() as int),
        forall|j: int| 0 <= j <= e ==> reaches(a, b, previous_row(rows, e), e, 2 * j - e, #[trigger] rows[e][j]),
{
    reveal(rows_reach);
    assert(rows[e].len() == e + 1);
    assert forall|j: int| 0 <= j < rows[e].len() implies {
        let x = #[trigger] rows[e][j];
        let k = 2 * j - e;
        &&& 0 <= x
        &&& 0 <= x - k
        &&& x <= a.len() + e
        &&& x - k <= b.len() + e
    } by {
        assert(reaches(a, b, previous_row(rows, e), e, 2 * j - e, rows[e][j]));
    }
}

/// the furthest point on `diagonal` after `edits` edits: the start point chosen
/// from the previous row, extended along equivalent commands
#[verifier::rlimit(40)]
fn furthest(
    before: &CommandList,
    after: &CommandList,
    start: usize,
    old_len: usize,
    new_len: usize,
    frontier: &Vec<isize>,
    offset: usize,
    edits: usize,
    diagonal: isize,
    Ghost(prev): Ghost<Seq<int>>,
) -> (x: isize)
    requires
        before.wf(),
        after.wf(),
        start + old_len <= before.records().len(),
        start + new_len <= after.records().len(),
        old_len + new_len <= 2 * MAX_COMMANDS,
        edits <= old_len + new_len,
        edits + 1 <= offset,
        offset + edits + 1 < frontier@.len(),
        offset <= 2 * MAX_COMMANDS + 1,
        -edits <= diagonal <= edits,
        (diagonal + edits) % 2 == 0,
        edits == 0 ==> frontier@[offset + 1] == 0,
        edits > 0 ==> prev.len() == edits,
        edits > 0 ==> forall|j: int|
            0 <= j < edits ==> frontier@[offset + 2 * j - (edits - 1)] == #[trigger] prev[j],
        edits > 0 ==> row_bounded(prev, edits - 1, old_len as int, new_len as int),
    ensures
        reaches(
            trimmed(before, start as int, (start + old_len) as int),
            trimmed(after, start as int, (start + new_len) as int),
            prev,
            edits as int,
            diagonal as int,
            x as int,
        ),
        stops(
            trimmed(before, start as int, (start + old_len) as int),
            trimmed(after, start as int, (start + new_len) as int),
            diagonal as int,
            x as int,
        ),
{
    let ghost a = trimmed(before, start as int, (start + old_len) as int);
    let ghost b = trimmed(after, start as int, (start + new_len) as int);
    proof {
        assert(usize::MAX as int == 2 * isize::MAX + 1);
    }
    let e = edits as isize;
    let index = (offset as isize + diagonal) as usize;
    proof {
        if edits > 0 {
            if diagonal > -e {
                let j = (diagonal - 1 + e - 1) / 2;
                assert(frontier@[offset + 2 * j - (edits - 1)] == prev[j]);
                assert(offset + 2 * j - (edits - 1) == index - 1);
                assert(row_at(prev, e - 1, diagonal - 1) == prev[j]);
                assert(0 <= prev[j] && prev[j] <= old_len + edits - 1);
            }
            if diagonal < e {
                let j = (diagonal + 1 + e - 1) / 2;
                assert(frontier@[offset + 2 * j - (edits - 1)] == prev[j]);
                assert(offset + 2 * j - (edits - 1) == index + 1);
                assert(row_at(prev, e - 1, diagonal + 1) == prev[j]);
                assert(0 <= prev[j] && prev[j] <= old_len + edits - 1);
            }
        }
    }
    let mut x = if diagonal == -e || (diagonal != e && frontier[index - 1] < frontier[index + 1]) {
        frontier[index + 1]
    } else {
        frontier[index - 1] + 1
    };
    let ghost sx = x as int;
    proof {
        assert(sx == snake_start(prev, e as int, diagonal as int));
        if edits > 0 {
            if sx == row_at(prev, e - 1, diagonal + 1) {
                let j = (diagonal + 1 + e - 1) / 2;
                assert(prev[j] == sx);
            } else {
                let j = (diagonal - 1 + e - 1) / 2;
                assert(prev[j] == sx - 1);
            }
        }
    }
    let mut y = x - diagonal;
    proof {
        assert(a.len() == old_len);
        assert(b.len() == new_len);
    }
    let mut extending = true;
    while extending
        invariant
            usize::MAX as int == 2 * isize::MAX + 1,
            a.len() == old_len,
            b.len() == new_len,
            before.wf(),
            after.wf(),
            start + old_len <= before.records().len(),
            start + new_len <= after.records().len(),
            a == trimmed(before, start as int, (start + old_len) as int),
            b == trimmed(after, start as int, (start + new_len) as int),
            old_len + new_len <= 2 * MAX_COMMANDS,
            0 <= sx <= x,
            0 <= sx - diagonal,
            y == x - diagonal,
            sx == snake_start(prev, edits as int, diagonal as int),
            x <= old_len + e,
            x - diagonal <= new_len + e,
            e <= old_len + new_len,
            -e <= diagonal <= e,
            snake_equal(a, b, sx, x as int, diagonal as int),
            !extending ==> stops(a, b, diagonal as int, x as int),
        decreases (if x <= old_len { old_len - x } else { 0int }) + (if extending { 1int } else { 0int }),
    {
        if x < old_len as isize && y < new_len as isize && before.equivalent(start + x as usize, after, start + y as usize) {
            let ghost x0 = x as int;
            proof {
                assert(old_len as isize as int == old_len as int);
                assert(x0 < old_len);
                assert(a[x0] == before.value(start + x0));
                assert(b[x0 - diagonal] == after.value(start + y));
            }
            proof {
                lemma_snake_extend(a, b, sx, x0, diagonal as int);
            }
            x += 1;
            y += 1;
        } else {
            proof {
                if x < old_len as isize && y < new_len as isize {
                    assert(a[x as int] == before.value(start + x));
                    assert(b[x - diagonal] == after.value(start + y));
                }
            }
            extending = false;
        }
    }
    proof {
        assert(a.len() == old_len);
        assert(b.len() == new_len);
    }
    x
}

/// grows the wavefront one edit at a time until it reaches the end of both
/// trimmed lists or the edit budget runs out; every finished row is appended to
/// `trace`
#[verifier::rlimit(60)]
fn search(
    before: &CommandList,
    after: &CommandList,
    start: usize,
    old_end: usize,
    new_end: usize,
    max_distance: usize,
    frontier: &mut Vec<isize>,
    trace: &mut Vec<isize>,
) -> (result: (Option<usize>, Ghost<Seq<Seq<int>>>))
    requires
        before.wf(),
        after.wf(),
        start < old_end <= before.records().len(),
        start < new_end <= after.records().len(),
        max_distance <= (old_end - start) + (new_end - start),
        old(trace)@.len() == 0,
    ensures
        ({
            let a = trimmed(before, start as int, old_end as int);
            let b = trimmed(after, start as int, new_end as int);
            let rows = result.1@;
            let n = a.len() as int;
            let m = b.len() as int;
            &&& rows_reach(a, b, rows)
            &&& as_ints(final(trace)@) == flatten(rows)
            &&& final(frontier)@.len() == 2 * max_distance + 3
            &&& match result.0 {
                Some(d) => {
                    &&& d <= max_distance
                    &&& rows.len() == d
                    &&& -d <= n - m <= d
                    &&& (n - m + d) % 2 == 0
                    &&& reaches(a, b, previous_row(rows, d as int), d as int, n - m, n)
                    &&& d == edit_distance(a, b)
                },
                None => rows.len() == max_distance + 1 && edit_distance(a, b) > max_distance,
            }
        }),
{
    let ghost a = trimmed(before, start as int, old_end as int);
    let ghost b = trimmed(after, start as int, new_end as int);
    let old_len = old_end - start;
    let new_len = new_end - start;
    proof {
        assert(usize::MAX as int == 2 * isize::MAX + 1);
    }
    let frontier_len = max_distance * 2 + 3;
    frontier.resize(frontier_len, 0);
    let offset = max_distance + 1;
    frontier.set(offset + 1, 0);
    let ghost mut rows: Seq<Seq<int>> = Seq::empty();
    let mut edits: usize = 0;
    let mut found = false;
    let mut distance: usize = 0;
    proof {
        reveal(rows_reach);
        assert(flatten(rows) =~= Seq::<int>::empty());
        assert(as_ints(trace@) =~= Seq::<int>::empty());
    }
    while edits <= max_distance && !found
        invariant
            before.wf(),
            after.wf(),
            start < old_end <= before.records().len(),
            start < new_end <= after.records().len(),
            old_len == old_end - start,
            new_len == new_end - start,
            a == trimmed(before, start as int, old_end as int),
            b == trimmed(after, start as int, new_end as int),
            max_distance <= old_len + new_len,
            old_len + new_len <= 2 * MAX_COMMANDS,
            usize::MAX as int == 2 * isize::MAX + 1,
            frontier_len == 2 * max_distance + 3,
            offset == max_distance + 1,
            frontier@.len() == frontier_len,
            edits <= max_distance + 1,
            rows_reach(a, b, rows),
            rows_stop(a, b, rows),
            rows_miss_end(a, b, rows),
            as_ints(trace@) == flatten(rows),
            !found ==> rows.len() == edits,
            !found && edits == 0 ==> frontier@[offset + 1] == 0,
            !found && edits > 0 ==> forall|j: int|
                0 <= j < edits ==> frontier@[offset + 2 * j - (edits - 1)] == #[trigger] rows[edits - 1][j],
            found ==> {
                &&& distance <= max_distance
                &&& rows.len() == distance
                &&& -distance <= old_len - new_len <= distance
                &&& (old_len - new_len + distance) % 2 == 0
                &&& reaches(a, b, previous_row(rows, distance as int), distance as int, old_len - new_len, old_len as int)
            },
        decreases max_distance + 1 - edits + (if found { 0int } else { 1int }),
    {
        let e = edits as isize;
        let mut diagonal: isize = -e;
        let ghost prev = previous_row(rows, edits as int);
        let ghost mut row: Seq<int> = Seq::empty();
        proof {
            if edits > 0 {
                lemma_rows_bounded(a, b, rows, edits - 1);
            }
        }
        while diagonal <= e && !found
            invariant
                before.wf(),
                after.wf(),
                start < old_end <= before.records().len(),
                start < new_end <= after.records().len(),
                old_len == old_end - start,
                new_len == new_end - start,
                a == trimmed(before, start as int, old_end as int),
                b == trimmed(after, start as int, new_end as int),
                old_len + new_len <= 2 * MAX_COMMANDS,
                usize::MAX as int == 2 * isize::MAX + 1,
                max_distance <= old_len + new_len,
                e == edits,
                edits <= max_distance,
                frontier_len == 2 * max_distance + 3,
                offset == max_distance + 1,
                frontier@.len() == frontier_len,
                rows.len() == edits,
                prev == previous_row(rows, edits as int),
                edits > 0 ==> prev.len() == edits,
                edits > 0 ==> row_bounded(prev, edits - 1, old_len as int, new_len as int),
                rows_reach(a, b, rows),
                rows_stop(a, b, rows),
                rows_miss_end(a, b, rows),
                as_ints(trace@) == flatten(rows),
                -e <= diagonal <= e + 2,
                (diagonal + e) % 2 == 0,
                !found ==> row.len() == (diagonal + e) / 2,
                edits == 0 ==> frontier@[offset + 1] == 0 || diagonal > 0,
                edits > 0 ==> forall|j: int|
                    0 <= j < edits ==> frontier@[offset + 2 * j - (edits - 1)] == #[trigger] prev[j],
                !found ==> forall|j: int|
                    0 <= j < row.len() ==> frontier@[offset + 2 * j - e] == #[trigger] row[j]
                        && reaches(a, b, prev, e as int, 2 * j - e, row[j]) && stops(a, b, 2 * j - e, row[j])
                        && !(row[j] == a.len() && 2 * j - e == a.len() - b.len()),
                found ==> {
                    &&& distance == edits
                    &&& -distance <= old_len - new_len <= distance
                    &&& (old_len - new_len + distance) % 2 == 0
                    &&& reaches(a, b, prev, distance as int, old_len - new_len, old_len as int)
                },
            decreases e + 2 - diagonal + (if found { 0int } else { 1int }),
        {
            let index = (offset as isize + diagonal) as usize;
            let x = furthest(before, after, start, old_len, new_len, frontier, offset, edits, diagonal, Ghost(prev));
            let ghost before_set = frontier@;
            frontier.set(index, x);
            proof {
                assert forall|j: int| 0 <= j < edits implies frontier@[offset + 2 * j - (edits - 1)] == #[trigger] prev[j] by {
                    assert(before_set[offset + 2 * j - (edits - 1)] == prev[j]);
                }
                row = row.push(x as int);
                let jj = (diagonal + e) / 2;
                assert(row[jj] == x);
                assert(offset + 2 * jj - e == index);
            }
            if x == old_len as isize && x - diagonal == new_len as isize {
                distance = edits;
                found = true;
            } else {
                diagonal += 2;
            }
        }
        if !found {
            let mut diagonal: isize = -e;
            let ghost base = as_ints(trace@);
            proof {
                assert(row.subrange(0, 0) =~= Seq::<int>::empty());
                assert(base + row.subrange(0, 0) =~= base);
            }
            while diagonal <= e
                invariant
                    e == edits,
                    edits <= max_distance,
                    usize::MAX as int == 2 * isize::MAX + 1,
                    max_distance <= 2 * MAX_COMMANDS,
                    offset == max_distance + 1,
                    frontier@.len() == 2 * max_distance + 3,
                    row.len() == edits + 1,
                    -e <= diagonal <= e + 2,
                    (diagonal + e) % 2 == 0,
                    as_ints(trace@) == base + row.subrange(0, (diagonal + e) / 2),
                    forall|j: int|
                        0 <= j < row.len() ==> frontier@[offset + 2 * j - e] == #[trigger] row[j],
                decreases e + 2 - diagonal,
            {
                let value = frontier[(offset as isize + diagonal) as usize];
                proof {
                    let j = (diagonal + e) / 2;
                    assert(frontier@[offset + 2 * j - e] == row[j]);
                    assert(row.subrange(0, j + 1) =~= row.subrange(0, j).push(row[j]));
                }
                let ghost before_push = trace@;
                trace.push(value);
                proof {
                    assert(as_ints(trace@) =~= as_ints(before_push).push(value as int));
                }
                diagonal += 2;
            }
            proof {
                reveal(rows_reach);
                assert(row.subrange(0, row.len() as int) =~= row);
                let next_rows = rows.push(row);
                assert(next_rows.drop_last() =~= rows);
                assert(flatten(next_rows) == flatten(rows) + row);
                assert forall|k: int| #![trigger next_rows[k]] 0 <= k < next_rows.len() implies {
                    &&& next_rows[k].len() == k + 1
                    &&& forall|j: int|
                        0 <= j <= k ==> reaches(a, b, previous_row(next_rows, k), k, 2 * j - k, #[trigger] next_rows[k][j])
                } by {
                    if k < rows.len() {
                        assert(next_rows[k] == rows[k]);
                        assert(previous_row(next_rows, k) == previous_row(rows, k));
                    } else {
                        assert(next_rows[k] == row);
                        assert(previous_row(next_rows, k) == prev);
                    }
                }
                assert forall|j: int| 0 <= j < edits + 1 implies frontier@[offset + 2 * j - edits] == #[trigger] next_rows[edits as int][j] by {
                    assert(next_rows[edits as int] == row);
                }
                assert(a.len() == old_len && b.len() == new_len);
                assert forall|k: int, j: int| 0 <= k < next_rows.len() && 0 <= j <= k implies stops(
                    a,
                    b,
                    2 * j - k,
                    #[trigger] next_rows[k][j],
                ) && !(next_rows[k][j] == a.len() && 2 * j - k == a.len() - b.len()) by {
                    if k < rows.len() {
                        assert(next_rows[k] == rows[k]);
                    } else {
                        assert(next_rows[k] == row);
                    }
                }
                rows = next_rows;
            }
            edits += 1;
        }
    }
    proof {
        lemma_rows_below_distance(a, b, rows);
        if found {
            lemma_found_within(a, b, rows, distance as int);
        }
    }
    if found {
        (Some(distance), Ghost(rows))
    } else {
        (None, Ghost(rows))
    }
}


// ---------------------------------------------------------------------------
// backtracking

proof fn lemma_rows_lengths<V>(a: Seq<V>, b: Seq<V>, rows: Seq<Seq<int>>)
    requires
        rows_reach(a, b, rows),
    ensures
        forall|i: int| 0 <= i < rows.len() ==> (#[trigger] rows[i]).len() == i + 1,
{
    reveal(rows_reach);
}

/// the value stored for `diagonal` in the row of `edits` edits
fn trace_value(trace: &Vec<isize>, edits: usize, diagonal: isize, Ghost(rows): Ghost<Seq<Seq<int>>>) -> (value: isize)
    requires
        forall|i: int| 0 <= i < rows.len() ==> (#[trigger] rows[i]).len() == i + 1,
        edits < rows.len(),
        edits <= 2 * MAX_COMMANDS,
        -edits <= diagonal <= edits,
        (diagonal + edits) % 2 == 0,
        as_ints(trace@) == flatten(rows),
    ensures
        value == rows[edits as int][(diagonal + edits) / 2],
{
    proof {
        assert(usize::MAX as int == 2 * isize::MAX + 1);
        let j = (diagonal + edits) / 2;
        lemma_flatten_index(rows, edits as int, j);
        assert(trace@.len() == flatten(rows).len());
        assert(trace@[edits * (edits + 1) / 2 + j] as int == flatten(rows)[edits * (edits + 1) / 2 + j]);
        assert(edits * (edits + 1) <= u128::MAX) by (nonlinear_arith)
            requires
                edits <= usize::MAX,
                usize::MAX <= u64::MAX,
        ;
    }
    let len = trace.len();
    let wide = edits as u128;
    let offset = (wide * (wide + 1) / 2) as usize;
    proof {
        let j = (diagonal + edits) / 2;
        assert(offset == edits * (edits + 1) / 2);
        assert(offset + j < len);
        assert(((diagonal + edits as isize) / 2) as usize == j);
    }
    trace[offset + ((diagonal + edits as isize) / 2) as usize]
}

proof fn lemma_prepend_matching<V>(a: Seq<V>, b: Seq<V>, m: Seq<(int, int)>, t: int, u: int)
    requires
        is_matching(a, b, m),
        0 <= t < a.len(),
        0 <= u < b.len(),
        a[t] == b[u],
        forall|p: int| 0 <= p < m.len() ==> t < (#[trigger] m[p]).0 && u < m[p].1,
    ensures
        is_matching(a, b, seq![(t, u)] + m),
        forall|i: int| matched_first(m, i) ==> matched_first(seq![(t, u)] + m, i),
        forall|j: int| matched_second(m, j) ==> matched_second(seq![(t, u)] + m, j),
        matched_first(seq![(t, u)] + m, t),
        matched_second(seq![(t, u)] + m, u),
{
    let n = seq![(t, u)] + m;
    assert(n[0] == (t, u));
    assert forall|p: int| #![trigger n[p]] 0 < p < n.len() implies n[p] == m[p - 1] by {}
    assert forall|p: int, q: int|
        #![trigger n[p], n[q]]
        0 <= p < q < n.len() implies n[p].0 < n[q].0 && n[p].1 < n[q].1 by {
        assert(n[q] == m[q - 1]);
        if p > 0 {
            assert(n[p] == m[p - 1]);
        }
    }
    assert forall|i: int| matched_first(m, i) implies matched_first(n, i) by {
        let p = choose|p: int| 0 <= p < m.len() && (#[trigger] m[p]).0 == i;
        assert(n[p + 1] == m[p]);
    }
    assert forall|j: int| matched_second(m, j) implies matched_second(n, j) by {
        let p = choose|p: int| 0 <= p < m.len() && (#[trigger] m[p]).1 == j;
        assert(n[p + 1] == m[p]);
    }
}

/// every old position from `x` and every new position from `y` is matched or settled
pub open spec fn tail_settled(
    before: &CommandList,
    after: &CommandList,
    start: int,
    n: int,
    m: int,
    x: int,
    y: int,
    inner: Seq<(int, int)>,
    damage: Seq<PhysicalRect>,
) -> bool {
    &&& forall|t: int|
        x <= t < n ==> matched_first(inner, t) || (representable_lists(before, after)
            ==> #[trigger] settled(before, start + t, damage))
    &&& forall|u: int|
        y <= u < m ==> matched_second(inner, u) || (representable_lists(before, after)
            ==> #[trigger] settled(after, start + u, damage))
}


/// the bounds of command `c` of the trimmed parts starting at `start`: of the
/// old list when `c.0`, else of the new one
pub open spec fn part_bounds(before: &CommandList, after: &CommandList, start: int, c: (bool, int)) -> PhysicalRect {
    if c.0 {
        before.records()[start + c.1].bounds
    } else {
        after.records()[start + c.1].bounds
    }
}

/// command `c` of the trimmed parts lies at or after `x` in the old part, or at
/// or after `y` in the new one, and `inner` leaves it unmatched
pub open spec fn tail_unmatched(n: int, m: int, x: int, y: int, inner: Seq<(int, int)>, c: (bool, int)) -> bool {
    if c.0 {
        x <= c.1 < n && !matched_first(inner, c.1)
    } else {
        y <= c.1 < m && !matched_second(inner, c.1)
    }
}

/// `sources` names, once each, the command of the trimmed parts whose bounds
/// each damage rectangle is; they are exactly the non-empty commands from `x`
/// and `y` on that `inner` leaves unmatched
pub open spec fn tail_sources(
    before: &CommandList,
    after: &CommandList,
    start: int,
    n: int,
    m: int,
    x: int,
    y: int,
    inner: Seq<(int, int)>,
    damage: Seq<PhysicalRect>,
    sources: Seq<(bool, int)>,
) -> bool {
    &&& sources.len() == damage.len()
    &&& sources.no_duplicates()
    &&& forall|i: int|
        0 <= i < sources.len() ==> tail_unmatched(n, m, x, y, inner, #[trigger] sources[i])
            && part_bounds(before, after, start, sources[i]) == damage[i]
    &&& forall|c: (bool, int)|
        tail_unmatched(n, m, x, y, inner, c) && #[trigger] part_bounds(before, after, start, c).is_nonempty()
            ==> sources.contains(c)
}

/// pairs put in front of a matching that match every command before `x` and
/// `y` from `x2` and `y2` on keep the sources of the damage
proof fn lemma_tail_sources_prefix(
    before: &CommandList,
    after: &CommandList,
    start: int,
    n: int,
    m: int,
    x: int,
    y: int,
    x2: int,
    y2: int,
    front: Seq<(int, int)>,
    inner: Seq<(int, int)>,
    damage: Seq<PhysicalRect>,
    sources: Seq<(bool, int)>,
)
    requires
        tail_sources(before, after, start, n, m, x, y, inner, damage, sources),
        x2 <= x,
        y2 <= y,
        forall|p: int| 0 <= p < front.len() ==> (#[trigger] front[p]).0 < x && front[p].1 < y,
        forall|t: int| x2 <= t < x ==> matched_first(front, t),
        forall|u: int| y2 <= u < y ==> matched_second(front, u),
    ensures
        tail_sources(before, after, start, n, m, x2, y2, front + inner, damage, sources),
{
    let full = front + inner;
    assert forall|t: int| x <= t && !matched_first(inner, t) implies !matched_first(full, t) by {
        if matched_first(full, t) {
            let p = choose|p: int| 0 <= p < full.len() && (#[trigger] full[p]).0 == t;
            if p < front.len() {
                assert(full[p] == front[p]);
            } else {
                assert(full[p] == inner[p - front.len()]);
            }
        }
    }
    assert forall|u: int| y <= u && !matched_second(inner, u) implies !matched_second(full, u) by {
        if matched_second(full, u) {
            let p = choose|p: int| 0 <= p < full.len() && (#[trigger] full[p]).1 == u;
            if p < front.len() {
                assert(full[p] == front[p]);
            } else {
                assert(full[p] == inner[p - front.len()]);
            }
        }
    }
    assert forall|t: int| matched_first(inner, t) implies matched_first(full, t) by {
        let p = choose|p: int| 0 <= p < inner.len() && (#[trigger] inner[p]).0 == t;
        assert(full[p + front.len()] == inner[p]);
    }
    assert forall|u: int| matched_second(inner, u) implies matched_second(full, u) by {
        let p = choose|p: int| 0 <= p < inner.len() && (#[trigger] inner[p]).1 == u;
        assert(full[p + front.len()] == inner[p]);
    }
    assert forall|t: int| matched_first(front, t) implies matched_first(full, t) by {
        let p = choose|p: int| 0 <= p < front.len() && (#[trigger] front[p]).0 == t;
        assert(full[p] == front[p]);
    }
    assert forall|u: int| matched_second(front, u) implies matched_second(full, u) by {
        let p = choose|p: int| 0 <= p < front.len() && (#[trigger] front[p]).1 == u;
        assert(full[p] == front[p]);
    }
    assert forall|i: int| 0 <= i < sources.len() implies tail_unmatched(n, m, x2, y2, full, #[trigger] sources[i])
        && part_bounds(before, after, start, sources[i]) == damage[i] by {
        assert(tail_unmatched(n, m, x, y, inner, sources[i]));
    }
    assert forall|c: (bool, int)|
        tail_unmatched(n, m, x2, y2, full, c) && #[trigger] part_bounds(before, after, start, c).is_nonempty()
            implies sources.contains(c) by {
        assert(tail_unmatched(n, m, x, y, inner, c));
    }
}

/// recording the bounds of the command an edit step passes keeps the sources
/// of the damage, with that command added when its bounds are not empty
proof fn lemma_tail_sources_edit(
    before: &CommandList,
    after: &CommandList,
    start: int,
    n: int,
    m: int,
    x0: int,
    y0: int,
    x: int,
    y: int,
    inner: Seq<(int, int)>,
    damage0: Seq<PhysicalRect>,
    damage: Seq<PhysicalRect>,
    max: int,
    sources: Seq<(bool, int)>,
)
    requires
        ({
            let sources0 = if (x == x0 - 1 && y == y0 && part_bounds(before, after, start, (true, x)).is_nonempty()) || (
            x == x0 && y == y0 - 1 && part_bounds(before, after, start, (false, y)).is_nonempty()) {
                sources.drop_last()
            } else {
                sources
            };
            tail_sources(before, after, start, n, m, x0, y0, inner, damage0, sources0)
        }),
        (x == x0 - 1 && y == y0) || (x == x0 && y == y0 - 1),
        0 <= x,
        0 <= y,
        damage0.len() < max,
        x == x0 - 1 ==> damage == pushed_damage(damage0, max, part_bounds(before, after, start, (true, x))),
        y == y0 - 1 ==> damage == pushed_damage(damage0, max, part_bounds(before, after, start, (false, y))),
        x == x0 - 1 && part_bounds(before, after, start, (true, x)).is_nonempty() ==> sources.len() > 0
            && sources.last() == (true, x),
        y == y0 - 1 && part_bounds(before, after, start, (false, y)).is_nonempty() ==> sources.len() > 0
            && sources.last() == (false, y),
        forall|p: int| 0 <= p < inner.len() ==> x0 <= (#[trigger] inner[p]).0 && y0 <= inner[p].1,
        x0 <= n,
        y0 <= m,
    ensures
        tail_sources(before, after, start, n, m, x, y, inner, damage, sources),
{
    let pushed_old = x == x0 - 1;
    let c: (bool, int) = if pushed_old { (true, x) } else { (false, y) };
    let added = part_bounds(before, after, start, c).is_nonempty();
    let sources0 = if added { sources.drop_last() } else { sources };
    assert(!matched_first(inner, x) || !pushed_old) by {
        if pushed_old && matched_first(inner, x) {
            let p = choose|p: int| 0 <= p < inner.len() && (#[trigger] inner[p]).0 == x;
        }
    }
    assert(!matched_second(inner, y) || pushed_old) by {
        if !pushed_old && matched_second(inner, y) {
            let p = choose|p: int| 0 <= p < inner.len() && (#[trigger] inner[p]).1 == y;
        }
    }
    assert(tail_unmatched(n, m, x, y, inner, c));
    if added {
        assert(sources =~= sources0.push(c));
        assert(damage == damage0.push(part_bounds(before, after, start, c)));
        assert(!sources0.contains(c)) by {
            if sources0.contains(c) {
                let i = choose|i: int| 0 <= i < sources0.len() && sources0[i] == c;
                assert(tail_unmatched(n, m, x0, y0, inner, sources0[i]));
            }
        }
        assert forall|i: int, j: int| 0 <= i < j < sources.len() implies sources[i] != sources[j] by {
            if j == sources.len() - 1 {
                assert(sources0[i] == sources[i]);
            } else {
                assert(sources0[i] == sources[i] && sources0[j] == sources[j]);
            }
        }
        assert forall|i: int| 0 <= i < sources.len() implies tail_unmatched(n, m, x, y, inner, #[trigger] sources[i])
            && part_bounds(before, after, start, sources[i]) == damage[i] by {
            if i < sources0.len() {
                assert(sources[i] == sources0[i]);
                assert(tail_unmatched(n, m, x0, y0, inner, sources0[i]));
            }
        }
    } else {
        assert(damage == damage0);
        assert forall|i: int| 0 <= i < sources.len() implies tail_unmatched(n, m, x, y, inner, #[trigger] sources[i])
            && part_bounds(before, after, start, sources[i]) == damage[i] by {
            assert(tail_unmatched(n, m, x0, y0, inner, sources0[i]));
        }
    }
    assert forall|d: (bool, int)|
        tail_unmatched(n, m, x, y, inner, d) && #[trigger] part_bounds(before, after, start, d).is_nonempty()
            implies sources.contains(d) by {
        if d == c {
            assert(sources[sources.len() - 1] == c);
        } else {
            assert(tail_unmatched(n, m, x0, y0, inner, d));
            let i = choose|i: int| 0 <= i < sources0.len() && sources0[i] == d;
            if added {
                assert(sources[i] == sources0[i]);
            }
        }
    }
}


/// walks the stored rows back from the end of both trimmed lists, turning every
/// edit on the way into damage
#[verifier::rlimit(80)]
fn backtrack(
    before: &CommandList,
    after: &CommandList,
    start: usize,
    old_len: usize,
    new_len: usize,
    distance: usize,
    trace: &Vec<isize>,
    Ghost(rows): Ghost<Seq<Seq<int>>>,
    max_rectangles: usize,
    damage: &mut Vec<PhysicalRect>,
) -> (inner: Ghost<Seq<(int, int)>>)
    requires
        before.wf(),
        after.wf(),
        start + old_len <= before.records().len(),
        start + new_len <= after.records().len(),
        old_len + new_len <= 2 * MAX_COMMANDS,
        distance <= old_len + new_len,
        rows_reach(
            trimmed(before, start as int, (start + old_len) as int),
            trimmed(after, start as int, (start + new_len) as int),
            rows,
        ),
        as_ints(trace@) == flatten(rows),
        rows.len() == distance,
        -distance <= old_len - new_len <= distance,
        (old_len - new_len + distance) % 2 == 0,
        reaches(
            trimmed(before, start as int, (start + old_len) as int),
            trimmed(after, start as int, (start + new_len) as int),
            previous_row(rows, distance as int),
            distance as int,
            old_len - new_len,
            old_len as int,
        ),
        0 < max_rectangles,
        old(damage)@.len() <= max_rectangles,
        all_nonempty(old(damage)@),
        representable_lists(before, after) ==> all_representable(old(damage)@),
    ensures
        final(damage)@.len() <= max_rectangles,
        all_nonempty(final(damage)@),
        is_matching(
            trimmed(before, start as int, (start + old_len) as int),
            trimmed(after, start as int, (start + new_len) as int),
            inner@,
        ),
        representable_lists(before, after) ==> all_representable(final(damage)@),
        representable_lists(before, after) ==> forall|r: PhysicalRect|
            #[trigger] covered(old(damage)@, r) ==> covered(final(damage)@, r),
        tail_settled(before, after, start as int, old_len as int, new_len as int, 0, 0, inner@, final(damage)@),
        2 * inner@.len() == old_len + new_len - distance,
        final(damage)@.len() <= old(damage)@.len() + distance,
        old(damage)@.len() == 0 && distance <= max_rectangles ==> exists|sources: Seq<(bool, int)>|
            #[trigger] tail_sources(
                before,
                after,
                start as int,
                old_len as int,
                new_len as int,
                0,
                0,
                inner@,
                final(damage)@,
                sources,
            ),
{
    let ghost a = trimmed(before, start as int, (start + old_len) as int);
    let ghost b = trimmed(after, start as int, (start + new_len) as int);
    let ghost reps = representable_lists(before, after);
    let ghost first_damage = damage@;
    let ghost mut inner: Seq<(int, int)> = Seq::empty();
    let ghost mut sources: Seq<(bool, int)> = Seq::empty();
    proof {
        assert(usize::MAX as int == 2 * isize::MAX + 1);
        lemma_rows_lengths(a, b, rows);
        assert(a.len() == old_len);
        assert(b.len() == new_len);
    }
    let mut x = old_len as isize;
    let mut y = new_len as isize;
    let mut edits = distance;
    while edits >= 1
        invariant
            usize::MAX as int == 2 * isize::MAX + 1,
            before.wf(),
            after.wf(),
            start + old_len <= before.records().len(),
            start + new_len <= after.records().len(),
            old_len + new_len <= 2 * MAX_COMMANDS,
            distance <= old_len + new_len,
            a == trimmed(before, start as int, (start + old_len) as int),
            b == trimmed(after, start as int, (start + new_len) as int),
            a.len() == old_len,
            b.len() == new_len,
            reps == representable_lists(before, after),
            rows_reach(a, b, rows),
            forall|i: int| 0 <= i < rows.len() ==> (#[trigger] rows[i]).len() == i + 1,
            as_ints(trace@) == flatten(rows),
            rows.len() == distance,
            edits <= distance,
            -edits <= x - y <= edits,
            (x - y + edits) % 2 == 0,
            0 <= x <= old_len,
            0 <= y <= new_len,
            reaches(a, b, previous_row(rows, edits as int), edits as int, x - y, x as int),
            is_matching(a, b, inner),
            forall|p: int| 0 <= p < inner.len() ==> x <= (#[trigger] inner[p]).0 && y <= inner[p].1,
            0 < max_rectangles,
            damage@.len() <= max_rectangles,
            all_nonempty(damage@),
            reps ==> all_representable(damage@),
            reps ==> forall|r: PhysicalRect| #[trigger] covered(first_damage, r) ==> covered(damage@, r),
            tail_settled(before, after, start as int, old_len as int, new_len as int, x as int, y as int, inner, damage@),
            2 * inner.len() == (old_len - x) + (new_len - y) - (distance - edits),
            damage@.len() <= first_damage.len() + (distance - edits),
            first_damage.len() == 0 && distance <= max_rectangles ==> tail_sources(
                before,
                after,
                start as int,
                old_len as int,
                new_len as int,
                x as int,
                y as int,
                inner,
                damage@,
                sources,
            ),
        decreases edits,
    {
        let diagonal = x - y;
        let previous_edits = edits - 1;
        let e = edits as isize;
        let previous_diagonal = if diagonal == -e || (diagonal != e && trace_value(
            trace,
            previous_edits,
            diagonal - 1,
            Ghost(rows),
        ) < trace_value(trace, previous_edits, diagonal + 1, Ghost(rows))) {
            diagonal + 1
        } else {
            diagonal - 1
        };
        let previous_x = trace_value(trace, previous_edits, previous_diagonal, Ghost(rows));
        let previous_y = previous_x - previous_diagonal;
        let ghost sx = snake_start(previous_row(rows, edits as int), edits as int, diagonal as int);
        proof {
            lemma_rows_bounded(a, b, rows, previous_edits as int);
            let j = (previous_diagonal + previous_edits) / 2;
            assert(rows[previous_edits as int][j] == previous_x);
            assert(previous_row(rows, edits as int) == rows[previous_edits as int]);
            assert(reaches(a, b, previous_row(rows, previous_edits as int), previous_edits as int, 2 * j - previous_edits, rows[previous_edits as int][j]));
            if previous_diagonal == diagonal + 1 {
                assert(sx == previous_x);
            } else {
                assert(sx == previous_x + 1);
            }
        }
        while x > previous_x && y > previous_y
            invariant
                before.wf(),
                after.wf(),
                a.len() == old_len,
                b.len() == new_len,
                x - y == diagonal,
                sx <= x <= old_len,
                0 <= y <= new_len,
                0 <= sx,
                0 <= sx - diagonal,
                previous_diagonal == diagonal + 1 || previous_diagonal == diagonal - 1,
                previous_diagonal == diagonal + 1 ==> sx == previous_x,
                previous_diagonal == diagonal - 1 ==> sx == previous_x + 1,
                previous_y == previous_x - previous_diagonal,
                snake_equal(a, b, sx, x as int, diagonal as int),
                is_matching(a, b, inner),
                forall|p: int| 0 <= p < inner.len() ==> x <= (#[trigger] inner[p]).0 && y <= inner[p].1,
                tail_settled(before, after, start as int, old_len as int, new_len as int, x as int, y as int, inner, damage@),
                2 * inner.len() == (old_len - x) + (new_len - y) - (distance - edits),
                first_damage.len() == 0 && distance <= max_rectangles ==> tail_sources(
                    before,
                    after,
                    start as int,
                    old_len as int,
                    new_len as int,
                    x as int,
                    y as int,
                    inner,
                    damage@,
                    sources,
                ),
            decreases x,
        {
            proof {
                assert(sx <= x - 1);
            }
            x -= 1;
            y -= 1;
            proof {
                assert(a[x as int] == b[x - diagonal]);
                lemma_prepend_matching(a, b, inner, x as int, y as int);
                if first_damage.len() == 0 && distance <= max_rectangles {
                    assert(matched_first(seq![(x as int, y as int)], x as int)) by {
                        assert(seq![(x as int, y as int)][0].0 == x);
                    }
                    assert(matched_second(seq![(x as int, y as int)], y as int)) by {
                        assert(seq![(x as int, y as int)][0].1 == y);
                    }
                    lemma_tail_sources_prefix(
                        before,
                        after,
                        start as int,
                        old_len as int,
                        new_len as int,
                        x + 1,
                        y + 1,
                        x as int,
                        y as int,
                        seq![(x as int, y as int)],
                        inner,
                        damage@,
                        sources,
                    );
                }
                inner = seq![(x as int, y as int)] + inner;
                assert(snake_equal(a, b, sx, x as int, diagonal as int));
            }
        }
        proof {
            if previous_diagonal == diagonal + 1 {
                assert(x == previous_x);
            } else {
                assert(x == previous_x + 1);
            }
        }
        let ghost before_push = damage@;
        let ghost x_before = x as int;
        let ghost sources_before = sources;
        let ghost y_before = y as int;
        if x == previous_x {
            y -= 1;
            let bounds = after.get(start + y as usize).bounds;
            push_tracked(damage, max_rectangles, bounds);
            proof {
                if bounds.is_nonempty() && first_damage.len() == 0 && distance <= max_rectangles {
                    sources = sources.push((false, y as int));
                }
                if reps {
                    assert(after.records()[start + y].bounds.is_representable());
                    assert(settled(after, start + y, damage@));
                }
            }
        } else {
            x -= 1;
            let bounds = before.get(start + x as usize).bounds;
            push_tracked(damage, max_rectangles, bounds);
            proof {
                if bounds.is_nonempty() && first_damage.len() == 0 && distance <= max_rectangles {
                    sources = sources.push((true, x as int));
                }
                if reps {
                    assert(before.records()[start + x].bounds.is_representable());
                    assert(settled(before, start + x, damage@));
                }
            }
        }
        proof {
            if reps {
                assert forall|t: int| x <= t < old_len implies matched_first(inner, t) || (reps ==> #[trigger] settled(before, start + t, damage@)) by {
                    if !matched_first(inner, t) && (t != x || previous_diagonal == diagonal + 1) {
                        assert(settled(before, start + t, before_push));
                    }
                }
                assert forall|u: int| y <= u < new_len implies matched_second(inner, u) || (reps ==> #[trigger] settled(after, start + u, damage@)) by {
                    if !matched_second(inner, u) && (u != y || previous_diagonal == diagonal - 1) {
                        assert(settled(after, start + u, before_push));
                    }
                }
            }
            lemma_rows_bounded(a, b, rows, previous_edits as int);
        }
        proof {
            if first_damage.len() == 0 && distance <= max_rectangles {
                assert(sources_before.push((true, x as int)).drop_last() =~= sources_before);
                assert(sources_before.push((false, y as int)).drop_last() =~= sources_before);
                assert(part_bounds(before, after, start as int, (true, x as int)) == before.records()[start + x].bounds);
                assert(part_bounds(before, after, start as int, (false, y as int)) == after.records()[start + y].bounds);
                assert(before_push.len() < max_rectangles);
                lemma_tail_sources_edit(
                    before,
                    after,
                    start as int,
                    old_len as int,
                    new_len as int,
                    x_before,
                    y_before,
                    x as int,
                    y as int,
                    inner,
                    before_push,
                    damage@,
                    max_rectangles as int,
                    sources,
                );
            }
        }
        edits = previous_edits;
    }
    proof {
        assert(x == y);
        assert(snake_start(previous_row(rows, 0), 0, 0) == 0);
        let ghost diagonal_pairs = Seq::new(x as nat, |t: int| (t, t));
        let full = diagonal_pairs + inner;
        assert forall|p: int| #![trigger full[p]] 0 <= p < full.len() implies {
            &&& 0 <= full[p].0 < a.len()
            &&& 0 <= full[p].1 < b.len()
            &&& a[full[p].0] == b[full[p].1]
        } by {
            if p < x {
                assert(full[p] == (p, p));
                assert(a[p] == b[p - 0]);
            } else {
                assert(full[p] == inner[p - x]);
            }
        }
        assert forall|p: int, q: int| #![trigger full[p], full[q]] 0 <= p < q < full.len() implies full[p].0 < full[q].0 && full[p].1 < full[q].1 by {
            if q >= x {
                assert(full[q] == inner[q - x]);
            }
            if p >= x {
                assert(full[p] == inner[p - x]);
            }
        }
        assert forall|t: int| matched_first(inner, t) implies matched_first(full, t) by {
            let p = choose|p: int| 0 <= p < inner.len() && (#[trigger] inner[p]).0 == t;
            assert(full[p + x] == inner[p]);
        }
        assert forall|u: int| matched_second(inner, u) implies matched_second(full, u) by {
            let p = choose|p: int| 0 <= p < inner.len() && (#[trigger] inner[p]).1 == u;
            assert(full[p + x] == inner[p]);
        }
        assert forall|t: int| 0 <= t < x implies matched_first(full, t) && matched_second(full, t) by {
            assert(full[t] == (t, t));
        }
        if first_damage.len() == 0 && distance <= max_rectangles {
            assert forall|t: int| 0 <= t < x implies matched_first(diagonal_pairs, t) by {
                assert(diagonal_pairs[t] == (t, t));
            }
            assert forall|u: int| 0 <= u < y implies matched_second(diagonal_pairs, u) by {
                assert(diagonal_pairs[u] == (u, u));
            }
            lemma_tail_sources_prefix(
                before,
                after,
                start as int,
                old_len as int,
                new_len as int,
                x as int,
                y as int,
                0,
                0,
                diagonal_pairs,
                inner,
                damage@,
                sources,
            );
            assert(tail_sources(before, after, start as int, old_len as int, new_len as int, 0, 0, full, damage@, sources));
        }
        inner = full;
    }
    Ghost(inner)
}


// ---------------------------------------------------------------------------
// the whole diff

proof fn lemma_append_matching<V>(a: Seq<V>, b: Seq<V>, m: Seq<(int, int)>, t: int, u: int)
    requires
        is_matching(a, b, m),
        0 <= t < a.len(),
        0 <= u < b.len(),
        a[t] == b[u],
        forall|p: int| 0 <= p < m.len() ==> (#[trigger] m[p]).0 < t && m[p].1 < u,
    ensures
        is_matching(a, b, m.push((t, u))),
        forall|i: int| matched_first(m, i) ==> matched_first(m.push((t, u)), i),
        forall|j: int| matched_second(m, j) ==> matched_second(m.push((t, u)), j),
        matched_first(m.push((t, u)), t),
        matched_second(m.push((t, u)), u),
{
    let n = m.push((t, u));
    assert(n[m.len() as int] == (t, u));
    assert forall|p: int, q: int|
        #![trigger n[p], n[q]]
        0 <= p < q < n.len() implies n[p].0 < n[q].0 && n[p].1 < n[q].1 by {
        assert(n[p] == m[p]);
        if q < m.len() {
            assert(n[q] == m[q]);
        }
    }
    assert forall|i: int| matched_first(m, i) implies matched_first(n, i) by {
        let p = choose|p: int| 0 <= p < m.len() && (#[trigger] m[p]).0 == i;
        assert(n[p] == m[p]);
    }
    assert forall|j: int| matched_second(m, j) implies matched_second(n, j) by {
        let p = choose|p: int| 0 <= p < m.len() && (#[trigger] m[p]).1 == j;
        assert(n[p] == m[p]);
    }
}

/// pairs positions one to one, damaging every pair that differs, when the edit
/// budget runs out
#[verifier::rlimit(60)]
/// the bounds of the commands of `list` from `from` up to `to`
pub open spec fn bounds_between(list: &CommandList, from: int, to: int) -> Seq<PhysicalRect> {
    Seq::new((to - from) as nat, |i: int| list.records()[from + i].bounds)
}

/// what comparing the commands at `i` of both lists records: nothing when they
/// are equal, else the old bounds and then the new ones where they differ
pub open spec fn paired_step(before: &CommandList, after: &CommandList, i: int) -> Seq<PhysicalRect> {
    let old_bounds = before.records()[i].bounds;
    let new_bounds = after.records()[i].bounds;
    if before.value(i) == after.value(i) {
        Seq::empty()
    } else if new_bounds != old_bounds {
        seq![old_bounds, new_bounds]
    } else {
        seq![old_bounds]
    }
}

/// the rectangles recorded by comparing the first `count` positions from `start`
pub open spec fn paired_bounds(before: &CommandList, after: &CommandList, start: int, count: int) -> Seq<PhysicalRect>
    decreases count,
{
    if count <= 0 {
        Seq::empty()
    } else {
        paired_bounds(before, after, start, count - 1) + paired_step(before, after, start + count - 1)
    }
}

/// the rectangles a positional comparison records: each position both parts
/// share compared in turn, then the bounds of the rest of the old part, then of
/// the rest of the new part
pub open spec fn positional_bounds(
    before: &CommandList,
    after: &CommandList,
    start: int,
    old_len: int,
    new_len: int,
) -> Seq<PhysicalRect> {
    let paired = if old_len < new_len { old_len } else { new_len };
    paired_bounds(before, after, start, paired) + bounds_between(before, start + paired, start + old_len)
        + bounds_between(after, start + paired, start + new_len)
}

fn fallback(
    before: &CommandList,
    after: &CommandList,
    start: usize,
    old_len: usize,
    new_len: usize,
    max_rectangles: usize,
    damage: &mut Vec<PhysicalRect>,
) -> (inner: Ghost<Seq<(int, int)>>)
    requires
        before.wf(),
        after.wf(),
        start + old_len <= before.records().len(),
        start + new_len <= after.records().len(),
        0 < max_rectangles,
        old(damage)@.len() <= max_rectangles,
        all_nonempty(old(damage)@),
        representable_lists(before, after) ==> all_representable(old(damage)@),
    ensures
        final(damage)@.len() <= max_rectangles,
        all_nonempty(final(damage)@),
        is_matching(
            trimmed(before, start as int, (start + old_len) as int),
            trimmed(after, start as int, (start + new_len) as int),
            inner@,
        ),
        representable_lists(before, after) ==> all_representable(final(damage)@),
        tail_settled(before, after, start as int, old_len as int, new_len as int, 0, 0, inner@, final(damage)@),
        old_len == 0 && new_len == 0 ==> final(damage)@ == old(damage)@,
        final(damage)@ == pushed_all(
            old(damage)@,
            max_rectangles as int,
            positional_bounds(before, after, start as int, old_len as int, new_len as int),
        ),
        old_len == 0 || new_len == 0 ==> inner@.len() == 0,
{
    let ghost initial = damage@;
    let ghost a = trimmed(before, start as int, (start + old_len) as int);
    let ghost b = trimmed(after, start as int, (start + new_len) as int);
    let ghost reps = representable_lists(before, after);
    let ghost mut inner: Seq<(int, int)> = Seq::empty();
    let paired = if old_len < new_len { old_len } else { new_len };
    let mut offset: usize = 0;
    while offset < paired
        invariant
            before.wf(),
            after.wf(),
            start + old_len <= before.records().len(),
            start + new_len <= after.records().len(),
            a == trimmed(before, start as int, (start + old_len) as int),
            b == trimmed(after, start as int, (start + new_len) as int),
            reps == representable_lists(before, after),
            paired <= old_len,
            paired <= new_len,
            offset <= paired,
            0 < max_rectangles,
            damage@.len() <= max_rectangles,
            all_nonempty(damage@),
            reps ==> all_representable(damage@),
            old_len == 0 && new_len == 0 ==> damage@ == initial,
            is_matching(a, b, inner),
            damage@ == pushed_all(initial, max_rectangles as int, paired_bounds(before, after, start as int, offset as int)),
            forall|p: int| 0 <= p < inner.len() ==> (#[trigger] inner[p]).0 < offset && inner[p].1 < offset,
            forall|t: int|
                0 <= t < offset ==> matched_first(inner, t) || (reps ==> #[trigger] settled(before, start + t, damage@)),
            forall|u: int|
                0 <= u < offset ==> matched_second(inner, u) || (reps ==> #[trigger] settled(after, start + u, damage@)),
        decreases paired - offset,
    {
        let old_index = start + offset;
        let new_index = start + offset;
        let ghost before_push = damage@;
        let ghost done = paired_bounds(before, after, start as int, offset as int);
        if !before.equivalent(old_index, after, new_index) {
            let old_bounds = before.get(old_index).bounds;
            let new_bounds = after.get(new_index).bounds;
            push_tracked(damage, max_rectangles, old_bounds);
            proof {
                lemma_pushed_all_push(initial, max_rectangles as int, done, old_bounds);
            }
            let ghost mid = damage@;
            if new_bounds != old_bounds {
                push_tracked(damage, max_rectangles, new_bounds);
                proof {
                    lemma_pushed_all_push(initial, max_rectangles as int, done.push(old_bounds), new_bounds);
                    assert(paired_bounds(before, after, start as int, offset + 1) =~= done.push(old_bounds).push(new_bounds));
                }
            } else {
                proof {
                    assert(paired_bounds(before, after, start as int, offset + 1) =~= done.push(old_bounds));
                }
            }
            proof {
                if reps {
                    assert(before.records()[old_index as int].bounds.is_representable());
                    assert(after.records()[new_index as int].bounds.is_representable());
                    assert(settled(before, old_index as int, mid));
                    assert(settled(before, old_index as int, damage@));
                    assert(settled(after, new_index as int, damage@));
                    assert forall|t: int| 0 <= t < offset + 1 implies matched_first(inner, t) || (reps ==> #[trigger] settled(before, start + t, damage@)) by {
                        if t < offset && !matched_first(inner, t) {
                            assert(settled(before, start + t, before_push));
                        }
                    }
                    assert forall|u: int| 0 <= u < offset + 1 implies matched_second(inner, u) || (reps ==> #[trigger] settled(after, start + u, damage@)) by {
                        if u < offset && !matched_second(inner, u) {
                            assert(settled(after, start + u, before_push));
                        }
                    }
                }
                assert forall|t: int| #![trigger matched_first(inner, t)] offset <= t && matched_first(inner, t) implies false by {
                    let p = choose|p: int| 0 <= p < inner.len() && (#[trigger] inner[p]).0 == t;
                }
            }
        } else {
            proof {
                assert(paired_bounds(before, after, start as int, offset + 1) =~= done);
                assert(a[offset as int] == b[offset as int]);
                lemma_append_matching(a, b, inner, offset as int, offset as int);
                inner = inner.push((offset as int, offset as int));
            }
        }
        offset += 1;
    }
    proof {
        if paired == 0 && inner.len() > 0 {
            assert(inner[0].0 < 0);
        }
    }
    proof {
        let done = paired_bounds(before, after, start as int, paired as int);
        assert(done + bounds_between(before, start + paired, start + paired) =~= done);
    }
    let mut index = start + paired;
    while index < start + old_len
        invariant
            before.wf(),
            after.wf(),
            start + old_len <= before.records().len(),
            start + new_len <= after.records().len(),
            reps == representable_lists(before, after),
            paired <= old_len,
            start + paired <= index <= start + old_len,
            0 < max_rectangles,
            damage@.len() <= max_rectangles,
            all_nonempty(damage@),
            reps ==> all_representable(damage@),
            old_len == 0 && new_len == 0 ==> damage@ == initial,
            damage@ == pushed_all(
                initial,
                max_rectangles as int,
                paired_bounds(before, after, start as int, paired as int) + bounds_between(
                    before,
                    start + paired,
                    index as int,
                ),
            ),
            forall|t: int|
                0 <= t < index - start ==> matched_first(inner, t) || (reps ==> #[trigger] settled(before, start + t, damage@)),
            forall|u: int|
                0 <= u < paired ==> matched_second(inner, u) || (reps ==> #[trigger] settled(after, start + u, damage@)),
        decreases start + old_len - index,
    {
        let ghost before_push = damage@;
        let bounds = before.get(index).bounds;
        push_tracked(damage, max_rectangles, bounds);
        proof {
            let done = paired_bounds(before, after, start as int, paired as int) + bounds_between(
                before,
                start + paired,
                index as int,
            );
            lemma_pushed_all_push(initial, max_rectangles as int, done, bounds);
            assert(paired_bounds(before, after, start as int, paired as int) + bounds_between(
                before,
                start + paired,
                index + 1,
            ) =~= done.push(bounds));
            if reps {
                assert(before.records()[index as int].bounds.is_representable());
                assert forall|t: int| 0 <= t < index + 1 - start implies matched_first(inner, t) || (reps ==> #[trigger] settled(before, start + t, damage@)) by {
                    if t < index - start && !matched_first(inner, t) {
                        assert(settled(before, start + t, before_push));
                    }
                }
                assert forall|u: int| 0 <= u < paired implies matched_second(inner, u) || (reps ==> #[trigger] settled(after, start + u, damage@)) by {
                    if !matched_second(inner, u) {
                        assert(settled(after, start + u, before_push));
                    }
                }
            }
        }
        index += 1;
    }
    proof {
        let done = paired_bounds(before, after, start as int, paired as int) + bounds_between(
            before,
            start + paired,
            start + old_len,
        );
        assert(done + bounds_between(after, start + paired, start + paired) =~= done);
    }
    let mut index = start + paired;
    while index < start + new_len
        invariant
            before.wf(),
            after.wf(),
            start + old_len <= before.records().len(),
            start + new_len <= after.records().len(),
            reps == representable_lists(before, after),
            paired <= new_len,
            start + paired <= index <= start + new_len,
            0 < max_rectangles,
            damage@.len() <= max_rectangles,
            all_nonempty(damage@),
            reps ==> all_representable(damage@),
            old_len == 0 && new_len == 0 ==> damage@ == initial,
            damage@ == pushed_all(
                initial,
                max_rectangles as int,
                paired_bounds(before, after, start as int, paired as int) + bounds_between(
                    before,
                    start + paired,
                    start + old_len,
                ) + bounds_between(after, start + paired, index as int),
            ),
            forall|t: int|
                0 <= t < old_len ==> matched_first(inner, t) || (reps ==> #[trigger] settled(before, start + t, damage@)),
            forall|u: int|
                0 <= u < index - start ==> matched_second(inner, u) || (reps ==> #[trigger] settled(after, start + u, damage@)),
        decreases start + new_len - index,
    {
        let ghost before_push = damage@;
        let bounds = after.get(index).bounds;
        push_tracked(damage, max_rectangles, bounds);
        proof {
            let done = paired_bounds(before, after, start as int, paired as int) + bounds_between(
                before,
                start + paired,
                start + old_len,
            ) + bounds_between(after, start + paired, index as int);
            lemma_pushed_all_push(initial, max_rectangles as int, done, bounds);
            assert(paired_bounds(before, after, start as int, paired as int) + bounds_between(
                before,
                start + paired,
                start + old_len,
            ) + bounds_between(after, start + paired, index + 1) =~= done.push(bounds));
            if reps {
                assert(after.records()[index as int].bounds.is_representable());
                assert forall|t: int| 0 <= t < old_len implies matched_first(inner, t) || (reps ==> #[trigger] settled(before, start + t, damage@)) by {
                    if !matched_first(inner, t) {
                        assert(settled(before, start + t, before_push));
                    }
                }
                assert forall|u: int| 0 <= u < index + 1 - start implies matched_second(inner, u) || (reps ==> #[trigger] settled(after, start + u, damage@)) by {
                    if u < index - start && !matched_second(inner, u) {
                        assert(settled(after, start + u, before_push));
                    }
                }
            }
        }
        index += 1;
    }
    proof {
        assert(paired_bounds(before, after, start as int, paired as int) + bounds_between(
            before,
            start + paired,
            start + old_len,
        ) + bounds_between(after, start + paired, start + new_len) =~= positional_bounds(
            before,
            after,
            start as int,
            old_len as int,
            new_len as int,
        ));
    }
    Ghost(inner)
}


/// the matching of the whole lists: the common prefix, the trimmed matching and the common suffix
pub open spec fn whole_matching(start: int, old_end: int, new_end: int, suffix: int, inner: Seq<(int, int)>) -> Seq<(int, int)> {
    Seq::new(start as nat, |i: int| (i, i))
        + inner.map_values(|p: (int, int)| (p.0 + start, p.1 + start))
        + Seq::new(suffix as nat, |t: int| (old_end + t, new_end + t))
}

#[verifier::rlimit(60)]
proof fn lemma_compose(
    before: &CommandList,
    after: &CommandList,
    start: int,
    old_end: int,
    new_end: int,
    inner: Seq<(int, int)>,
    damage: Seq<PhysicalRect>,
)
    requires
        before.wf(),
        after.wf(),
        0 <= start <= old_end <= before.records().len(),
        start <= new_end <= after.records().len(),
        before.records().len() - old_end == after.records().len() - new_end,
        forall|i: int| 0 <= i < start ==> #[trigger] before.value(i) == after.value(i),
        forall|t: int|
            0 <= t < before.records().len() - old_end ==> #[trigger] before.value(old_end + t) == after.value(new_end + t),
        is_matching(trimmed(before, start, old_end), trimmed(after, start, new_end), inner),
        tail_settled(before, after, start, old_end - start, new_end - start, 0, 0, inner, damage),
    ensures
        is_matching(before.values(), after.values(), whole_matching(start, old_end, new_end, before.records().len() - old_end, inner)),
        representable_lists(before, after) ==> damage_covers(before, after, whole_matching(start, old_end, new_end, before.records().len() - old_end, inner), damage),
{
    let a = trimmed(before, start, old_end);
    let b = trimmed(after, start, new_end);
    let va = before.values();
    let vb = after.values();
    let suffix = before.records().len() - old_end;
    let pre = Seq::new(start as nat, |i: int| (i, i));
    let mid = inner.map_values(|p: (int, int)| (p.0 + start, p.1 + start));
    let post = Seq::new(suffix as nat, |t: int| (old_end + t, new_end + t));
    let m = whole_matching(start, old_end, new_end, suffix, inner);
    assert(m == pre + mid + post);
    let lp = start;
    let lm = start + inner.len();
    assert forall|p: int| #![trigger m[p]] 0 <= p < m.len() implies {
        &&& 0 <= m[p].0 < va.len()
        &&& 0 <= m[p].1 < vb.len()
        &&& va[m[p].0] == vb[m[p].1]
        &&& (p < lp ==> m[p].0 < start && m[p].1 < start)
        &&& (lp <= p < lm ==> start <= m[p].0 < old_end && start <= m[p].1 < new_end)
        &&& (lm <= p ==> old_end <= m[p].0 && new_end <= m[p].1)
    } by {
        if p < lp {
            assert(m[p] == (p, p));
        } else if p < lm {
            assert(m[p] == mid[p - lp]);
            assert(inner[p - lp] == inner[p - lp]);
            assert(a[inner[p - lp].0] == b[inner[p - lp].1]);
        } else {
            assert(m[p] == post[p - lm]);
            assert(before.value(old_end + (p - lm)) == after.value(new_end + (p - lm)));
        }
    }
    assert forall|p: int, q: int| #![trigger m[p], m[q]] 0 <= p < q < m.len() implies m[p].0 < m[q].0 && m[p].1 < m[q].1 by {
        if lp <= p < lm && lp <= q < lm {
            assert(m[p] == mid[p - lp]);
            assert(m[q] == mid[q - lp]);
            assert(inner[p - lp].0 < inner[q - lp].0);
        } else if lm <= p && lm <= q {
            assert(m[p] == post[p - lm]);
            assert(m[q] == post[q - lm]);
        } else if p < lp && q < lp {
            assert(m[p] == (p, p));
            assert(m[q] == (q, q));
        }
    }
    if representable_lists(before, after) {
        assert forall|i: int| 0 <= i < before.records().len() && !matched_first(m, i) implies #[trigger] settled(before, i, damage) by {
            if i < start {
                assert(m[i] == (i, i));
            } else if i >= old_end {
                assert(m[lm + (i - old_end)] == post[i - old_end]);
            } else {
                if matched_first(inner, i - start) {
                    let q = choose|q: int| 0 <= q < inner.len() && (#[trigger] inner[q]).0 == i - start;
                    assert(m[lp + q] == mid[q]);
                }
                assert(settled(before, start + (i - start), damage));
            }
        }
        assert forall|j: int| 0 <= j < after.records().len() && !matched_second(m, j) implies #[trigger] settled(after, j, damage) by {
            if j < start {
                assert(m[j] == (j, j));
            } else if j >= new_end {
                assert(m[lm + (j - new_end)] == post[j - new_end]);
            } else {
                if matched_second(inner, j - start) {
                    let q = choose|q: int| 0 <= q < inner.len() && (#[trigger] inner[q]).1 == j - start;
                    assert(m[lp + q] == mid[q]);
                }
                assert(settled(after, start + (j - start), damage));
            }
        }
    }
}


/// the length of laid-out rows grows with the number of rows
proof fn lemma_flatten_len_bound<V>(a: Seq<V>, b: Seq<V>, rows: Seq<Seq<int>>, limit: int)
    requires
        rows_reach(a, b, rows),
        rows.len() <= limit + 1,
        0 <= limit,
    ensures
        flatten(rows).len() <= (limit + 1) * (limit + 2) / 2,
{
    lemma_rows_lengths(a, b, rows);
    let r = rows.len() as int;
    if r == 0 {
        assert(flatten(rows) =~= Seq::<int>::empty());
    } else {
        lemma_flatten_index(rows, 0, 0);
        assert(r * (r + 1) / 2 <= (limit + 1) * (limit + 2) / 2) by (nonlinear_arith)
            requires
                0 < r <= limit + 1,
        ;
    }
}

/// the damage between two command lists: commands outside some matching of
/// equivalent commands, grown into at most `max_rectangles` rectangles
///
/// the search explores at most `max_edits` edits; past that, commands are
/// compared position by position
#[verifier::rlimit(80)]
/// the first `p` elements of both sequences are equal, and the element after
/// them is not, unless one sequence ends there; after those, the last `q`
/// elements of both are equal, and the one before them is not, unless one
/// sequence has no more
pub open spec fn trims<V>(a: Seq<V>, b: Seq<V>, p: int, q: int) -> bool {
    &&& 0 <= p && 0 <= q && p + q <= a.len() && p + q <= b.len()
    &&& forall|i: int| 0 <= i < p ==> #[trigger] a[i] == b[i]
    &&& p == a.len() || p == b.len() || a[p] != b[p]
    &&& forall|t: int| 0 <= t < q ==> #[trigger] a[a.len() - 1 - t] == b[b.len() - 1 - t]
    &&& p + q == a.len() || p + q == b.len() || a[a.len() - 1 - q] != b[b.len() - 1 - q]
}

/// the common prefix and suffix of two sequences are unique
pub proof fn lemma_trims_unique<V>(a: Seq<V>, b: Seq<V>, p: int, q: int, p2: int, q2: int)
    requires
        trims(a, b, p, q),
        trims(a, b, p2, q2),
    ensures
        p == p2,
        q == q2,
{
    if p < p2 {
        assert(a[p] == b[p]);
    }
    if p2 < p {
        assert(a[p2] == b[p2]);
    }
    if q < q2 {
        assert(a[a.len() - 1 - q] == b[b.len() - 1 - q]);
    }
    if q2 < q {
        assert(a[a.len() - 1 - q2] == b[b.len() - 1 - q2]);
    }
}

/// the bounds of command `c`: of the old list when `c.0`, else of the new one
pub open spec fn command_bounds(before: &CommandList, after: &CommandList, c: (bool, int)) -> PhysicalRect {
    if c.0 {
        before.records()[c.1].bounds
    } else {
        after.records()[c.1].bounds
    }
}

/// command `c` of either list is one that `m` leaves unmatched
pub open spec fn left_unmatched(before: &CommandList, after: &CommandList, m: Seq<(int, int)>, c: (bool, int)) -> bool {
    if c.0 {
        0 <= c.1 < before.records().len() && !matched_first(m, c.1)
    } else {
        0 <= c.1 < after.records().len() && !matched_second(m, c.1)
    }
}

/// `sources` names, once each, the command whose bounds each damage rectangle
/// is: exactly the non-empty commands of either list that `m` leaves unmatched
pub open spec fn damage_sources(
    before: &CommandList,
    after: &CommandList,
    m: Seq<(int, int)>,
    damage: Seq<PhysicalRect>,
    sources: Seq<(bool, int)>,
) -> bool {
    &&& sources.len() == damage.len()
    &&& sources.no_duplicates()
    &&& forall|i: int|
        0 <= i < sources.len() ==> left_unmatched(before, after, m, #[trigger] sources[i]) && command_bounds(
            before,
            after,
            sources[i],
        ) == damage[i]
    &&& forall|c: (bool, int)|
        left_unmatched(before, after, m, c) && #[trigger] command_bounds(before, after, c).is_nonempty()
            ==> sources.contains(c)
}

/// the damage when the lists can be made equal with no more insertions and
/// removals than the edit limit: no more rectangles than the fewest such edits,
/// covering the commands outside a longest matching, one that leaves only those
/// fewest edits unmatched; when that many rectangles fit the limit, the damage
/// is exactly the bounds of the non-empty commands it leaves unmatched, one
/// rectangle for each
pub open spec fn minimal_damage(
    before: &CommandList,
    after: &CommandList,
    max_edits: int,
    max_rectangles: int,
    damage: Seq<PhysicalRect>,
) -> bool {
    let fewest = edit_distance(before.values(), after.values());
    fewest <= max_edits ==> {
        &&& damage.len() <= fewest
        &&& exists|m: Seq<(int, int)>|
            #![trigger is_matching(before.values(), after.values(), m)]
            is_matching(before.values(), after.values(), m) && 2 * m.len() == before.records().len()
                + after.records().len() - fewest && (representable_lists(before, after) ==> damage_covers(
                before,
                after,
                m,
                damage,
            )) && (fewest <= max_rectangles ==> exists|sources: Seq<(bool, int)>|
                #[trigger] damage_sources(before, after, m, damage, sources))
    }
}

/// the damage when the lists differ only by commands inserted or removed
/// between a common prefix and suffix: the bounds of those commands recorded
/// in order; and, with no edits allowed or more edits needed than allowed, the
/// positional comparison of what lies between the common prefix and suffix
pub open spec fn trimmed_damage(
    before: &CommandList,
    after: &CommandList,
    max_edits: int,
    max_rectangles: int,
    damage: Seq<PhysicalRect>,
) -> bool {
    forall|p: int, q: int|
        #[trigger] trims(before.values(), after.values(), p, q) ==> {
            &&& p + q == before.records().len() ==> damage == pushed_all(
                Seq::empty(),
                max_rectangles,
                bounds_between(after, p, after.records().len() - q),
            )
            &&& p + q == after.records().len() ==> damage == pushed_all(
                Seq::empty(),
                max_rectangles,
                bounds_between(before, p, before.records().len() - q),
            )
            &&& max_edits == 0 ==> damage == pushed_all(
                Seq::empty(),
                max_rectangles,
                positional_bounds(before, after, p, before.records().len() - q - p, after.records().len() - q - p),
            )
            &&& edit_distance(before.values(), after.values()) > max_edits ==> damage == pushed_all(
                Seq::empty(),
                max_rectangles,
                positional_bounds(before, after, p, before.records().len() - q - p, after.records().len() - q - p),
            )
        }
}

/// the damage of a positional comparison between the common prefix and
/// suffix, made whenever one side of what lies between is empty or no edits are
/// allowed, is the damage `trimmed_damage` describes
proof fn lemma_trimmed_damage(
    before: &CommandList,
    after: &CommandList,
    start: int,
    old_end: int,
    new_end: int,
    max_edits: int,
    max_rectangles: int,
    damage: Seq<PhysicalRect>,
)
    requires
        start <= old_end <= before.records().len(),
        start <= new_end <= after.records().len(),
        before.records().len() - old_end == after.records().len() - new_end,
        trims(before.values(), after.values(), start, before.records().len() - old_end),
        max_edits == 0 || old_end == start || new_end == start || edit_distance(
            trimmed(before, start, old_end),
            trimmed(after, start, new_end),
        ) > max_edits ==> damage == pushed_all(
            Seq::empty(),
            max_rectangles,
            positional_bounds(before, after, start, old_end - start, new_end - start),
        ),
    ensures
        trimmed_damage(before, after, max_edits, max_rectangles, damage),
{
    let q0 = before.records().len() - old_end;
    law_trimming_keeps_edit_distance(before.values(), after.values(), start, q0);
    assert(before.values().subrange(start, before.values().len() - q0) == trimmed(before, start, old_end));
    assert(after.values().subrange(start, after.values().len() - q0) == trimmed(after, start, new_end));
    assert forall|p: int, q: int| #[trigger] trims(before.values(), after.values(), p, q) implies {
        &&& p + q == before.records().len() ==> damage == pushed_all(
            Seq::empty(),
            max_rectangles,
            bounds_between(after, p, after.records().len() - q),
        )
        &&& p + q == after.records().len() ==> damage == pushed_all(
            Seq::empty(),
            max_rectangles,
            bounds_between(before, p, before.records().len() - q),
        )
        &&& max_edits == 0 ==> damage == pushed_all(
            Seq::empty(),
            max_rectangles,
            positional_bounds(before, after, p, before.records().len() - q - p, after.records().len() - q - p),
        )
        &&& edit_distance(before.values(), after.values()) > max_edits ==> damage == pushed_all(
            Seq::empty(),
            max_rectangles,
            positional_bounds(before, after, p, before.records().len() - q - p, after.records().len() - q - p),
        )
    } by {
        lemma_trims_unique(before.values(), after.values(), p, q, start, q0);
        if old_end == start {
            assert(positional_bounds(before, after, start, 0, new_end - start) =~= bounds_between(
                after,
                p,
                after.records().len() - q,
            ));
        }
        if new_end == start {
            assert(positional_bounds(before, after, start, old_end - start, 0) =~= bounds_between(
                before,
                p,
                before.records().len() - q,
            ));
        }
    }
}

/// the damage of a search within the edit limit, composed with the common
/// prefix and suffix, is the damage `minimal_damage` describes
proof fn lemma_minimal_damage(
    before: &CommandList,
    after: &CommandList,
    start: int,
    old_end: int,
    new_end: int,
    max_edits: int,
    max_rectangles: int,
    damage: Seq<PhysicalRect>,
    inner: Seq<(int, int)>,
)
    requires
        start <= old_end <= before.records().len(),
        start <= new_end <= after.records().len(),
        before.records().len() - old_end == after.records().len() - new_end,
        trims(before.values(), after.values(), start, before.records().len() - old_end),
        ({
            let fewest = edit_distance(trimmed(before, start, old_end), trimmed(after, start, new_end));
            &&& fewest <= max_edits ==> damage.len() <= fewest && 2 * inner.len() == (old_end - start) + (new_end
                - start) - fewest
            &&& fewest <= max_edits && fewest <= max_rectangles ==> exists|sources: Seq<(bool, int)>|
                #[trigger] tail_sources(
                    before,
                    after,
                    start,
                    old_end - start,
                    new_end - start,
                    0,
                    0,
                    inner,
                    damage,
                    sources,
                )
        }),
        is_matching(
            before.values(),
            after.values(),
            whole_matching(start, old_end, new_end, before.records().len() - old_end, inner),
        ),
        representable_lists(before, after) ==> damage_covers(
            before,
            after,
            whole_matching(start, old_end, new_end, before.records().len() - old_end, inner),
            damage,
        ),
    ensures
        minimal_damage(before, after, max_edits, max_rectangles, damage),
{
    let q0 = before.records().len() - old_end;
    let m = whole_matching(start, old_end, new_end, q0, inner);
    assert(m.len() == start + inner.len() + q0);
    law_trimming_keeps_edit_distance(before.values(), after.values(), start, q0);
    assert(before.values().subrange(start, before.values().len() - q0) == trimmed(before, start, old_end));
    assert(after.values().subrange(start, after.values().len() - q0) == trimmed(after, start, new_end));
    let fewest = edit_distance(before.values(), after.values());
    if fewest <= max_edits && fewest <= max_rectangles {
        let sources = choose|sources: Seq<(bool, int)>|
            #[trigger] tail_sources(before, after, start, old_end - start, new_end - start, 0, 0, inner, damage, sources);
        lemma_whole_sources(before, after, start, old_end, new_end, inner, damage, sources);
    }
}

/// sources of the damage among the trimmed parts, shifted past the common
/// prefix, are its sources among the whole lists
proof fn lemma_whole_sources(
    before: &CommandList,
    after: &CommandList,
    start: int,
    old_end: int,
    new_end: int,
    inner: Seq<(int, int)>,
    damage: Seq<PhysicalRect>,
    sources: Seq<(bool, int)>,
)
    requires
        0 <= start <= old_end <= before.records().len(),
        start <= new_end <= after.records().len(),
        before.records().len() - old_end == after.records().len() - new_end,
        tail_sources(before, after, start, old_end - start, new_end - start, 0, 0, inner, damage, sources),
    ensures
        exists|whole: Seq<(bool, int)>|
            #[trigger] damage_sources(
                before,
                after,
                whole_matching(start, old_end, new_end, before.records().len() - old_end, inner),
                damage,
                whole,
            ),
{
    let q0 = before.records().len() - old_end;
    let m = whole_matching(start, old_end, new_end, q0, inner);
    let n = old_end - start;
    let k = new_end - start;
    let whole = sources.map_values(|c: (bool, int)| (c.0, c.1 + start));
    assert(m.len() == start + inner.len() + q0);
    assert forall|p: int| 0 <= p < m.len() implies #[trigger] m[p] == if p < start {
        (p, p)
    } else if p < start + inner.len() {
        (inner[p - start].0 + start, inner[p - start].1 + start)
    } else {
        (old_end + (p - start - inner.len()), new_end + (p - start - inner.len()))
    } by {}
    // an index of the middle is matched in the whole exactly when its
    // shifted index is matched in the inner matching
    assert forall|t: int| 0 <= t < n implies (matched_first(m, t + start) <==> matched_first(inner, t)) by {
        if matched_first(m, t + start) {
            let p = choose|p: int| 0 <= p < m.len() && (#[trigger] m[p]).0 == t + start;
            if p < start {
            } else if p < start + inner.len() {
                assert(inner[p - start].0 == t);
            }
        }
        if matched_first(inner, t) {
            let p = choose|p: int| 0 <= p < inner.len() && (#[trigger] inner[p]).0 == t;
            assert(m[p + start].0 == t + start);
        }
    }
    assert forall|u: int| 0 <= u < k implies (matched_second(m, u + start) <==> matched_second(inner, u)) by {
        if matched_second(m, u + start) {
            let p = choose|p: int| 0 <= p < m.len() && (#[trigger] m[p]).1 == u + start;
            if p < start {
            } else if p < start + inner.len() {
                assert(inner[p - start].1 == u);
            }
        }
        if matched_second(inner, u) {
            let p = choose|p: int| 0 <= p < inner.len() && (#[trigger] inner[p]).1 == u;
            assert(m[p + start].1 == u + start);
        }
    }
    assert forall|i: int| 0 <= i < whole.len() implies left_unmatched(before, after, m, #[trigger] whole[i])
        && command_bounds(before, after, whole[i]) == damage[i] by {
        assert(tail_unmatched(n, k, 0, 0, inner, sources[i]));
    }
    assert forall|i: int, j: int| 0 <= i < j < whole.len() implies whole[i] != whole[j] by {
        assert(sources[i] != sources[j]);
    }
    assert forall|c: (bool, int)|
        left_unmatched(before, after, m, c) && #[trigger] command_bounds(before, after, c).is_nonempty()
            implies whole.contains(c) by {
        if c.0 {
            if c.1 < start {
                assert(m[c.1] == (c.1, c.1));
            } else if c.1 >= old_end {
                let p = start + inner.len() + (c.1 - old_end);
                assert(m[p].0 == c.1);
            }
        } else {
            if c.1 < start {
                assert(m[c.1] == (c.1, c.1));
            } else if c.1 >= new_end {
                let p = start + inner.len() + (c.1 - new_end);
                assert(m[p].1 == c.1);
            }
        }
        let r = (c.0, c.1 - start);
        assert(tail_unmatched(n, k, 0, 0, inner, r));
        assert(part_bounds(before, after, start, r) == command_bounds(before, after, c));
        let i = choose|i: int| 0 <= i < sources.len() && sources[i] == r;
        assert(whole[i] == c);
    }
    assert(damage_sources(before, after, m, damage, whole));
}

/// the bounds of the first `k` commands of one trimmed part
pub open spec fn side_bounds(before: &CommandList, after: &CommandList, start: int, side: bool, k: int) -> Seq<
    PhysicalRect,
> {
    Seq::new(k as nat, |i: int| part_bounds(before, after, start, (side, i)))
}

/// the commands behind the non-empty bounds of the first `k` commands of one
/// trimmed part, in order
proof fn lemma_nonempty_sources(before: &CommandList, after: &CommandList, start: int, side: bool, k: int) -> (sources:
    Seq<(bool, int)>)
    requires
        0 <= k,
    ensures
        sources.len() == nonempty_part(side_bounds(before, after, start, side, k)).len(),
        sources.no_duplicates(),
        forall|i: int|
            0 <= i < sources.len() ==> (#[trigger] sources[i]).0 == side && 0 <= sources[i].1 < k && part_bounds(
                before,
                after,
                start,
                sources[i],
            ) == nonempty_part(side_bounds(before, after, start, side, k))[i],
        forall|t: int|
            0 <= t < k && #[trigger] part_bounds(before, after, start, (side, t)).is_nonempty() ==> sources.contains(
                (side, t),
            ),
    decreases k,
{
    if k == 0 {
        Seq::empty()
    } else {
        let rest = lemma_nonempty_sources(before, after, start, side, k - 1);
        let all = side_bounds(before, after, start, side, k);
        assert(all.drop_last() =~= side_bounds(before, after, start, side, k - 1));
        assert(all.last() == part_bounds(before, after, start, (side, k - 1)));
        if all.last().is_nonempty() {
            let sources = rest.push((side, k - 1));
            assert forall|i: int, j: int| 0 <= i < j < sources.len() implies sources[i] != sources[j] by {
                if j == sources.len() - 1 {
                    assert(sources[i] == rest[i]);
                } else {
                    assert(sources[i] == rest[i] && sources[j] == rest[j]);
                }
            }
            assert forall|t: int|
                0 <= t < k && #[trigger] part_bounds(before, after, start, (side, t)).is_nonempty() implies sources.contains(
                (side, t),
            ) by {
                if t == k - 1 {
                    assert(sources[sources.len() - 1] == (side, t));
                } else {
                    let i = choose|i: int| 0 <= i < rest.len() && rest[i] == (side, t);
                    assert(sources[i] == rest[i]);
                }
            }
            assert forall|i: int| 0 <= i < sources.len() implies (#[trigger] sources[i]).0 == side && 0 <= sources[i].1
                < k && part_bounds(before, after, start, sources[i]) == nonempty_part(all)[i] by {
                if i < rest.len() {
                    assert(sources[i] == rest[i]);
                }
            }
            sources
        } else {
            rest
        }
    }
}

/// when one trimmed part is empty and the other fits the limit, the damage is
/// exactly the bounds of the other part's non-empty commands, each once
proof fn lemma_sources_remaining(
    before: &CommandList,
    after: &CommandList,
    start: int,
    old_len: int,
    new_len: int,
    max_rectangles: int,
    damage: Seq<PhysicalRect>,
    inner: Seq<(int, int)>,
)
    requires
        old_len == 0 || new_len == 0,
        0 <= start,
        0 <= old_len,
        0 <= new_len,
        old_len + new_len <= max_rectangles,
        inner.len() == 0,
        damage == pushed_all(Seq::empty(), max_rectangles, positional_bounds(before, after, start, old_len, new_len)),
    ensures
        exists|sources: Seq<(bool, int)>|
            #[trigger] tail_sources(before, after, start, old_len, new_len, 0, 0, inner, damage, sources),
{
    let side = new_len == 0;
    let k = if side { old_len } else { new_len };
    let rects = positional_bounds(before, after, start, old_len, new_len);
    assert(paired_bounds(before, after, start, 0) =~= Seq::<PhysicalRect>::empty());
    assert(rects =~= side_bounds(before, after, start, side, k));
    lemma_nonempty_part_len(rects);
    lemma_pushed_all_fits(Seq::empty(), max_rectangles, rects);
    assert(Seq::<PhysicalRect>::empty() + nonempty_part(rects) =~= nonempty_part(rects));
    let sources = lemma_nonempty_sources(before, after, start, side, k);
    assert forall|t: int| !matched_first(inner, t) && !matched_second(inner, t) by {
        if matched_first(inner, t) {
            let p = choose|p: int| 0 <= p < inner.len() && (#[trigger] inner[p]).0 == t;
        }
        if matched_second(inner, t) {
            let p = choose|p: int| 0 <= p < inner.len() && (#[trigger] inner[p]).1 == t;
        }
    }
    assert forall|i: int| 0 <= i < sources.len() implies tail_unmatched(old_len, new_len, 0, 0, inner, #[trigger] sources[i])
        && part_bounds(before, after, start, sources[i]) == damage[i] by {}
    assert forall|c: (bool, int)|
        tail_unmatched(old_len, new_len, 0, 0, inner, c) && #[trigger] part_bounds(before, after, start, c).is_nonempty()
            implies sources.contains(c) by {
        assert(c.0 == side);
    }
    assert(tail_sources(before, after, start, old_len, new_len, 0, 0, inner, damage, sources));
}


/// no more non-empty rectangles than rectangles
proof fn lemma_nonempty_part_len(rects: Seq<PhysicalRect>)
    ensures
        nonempty_part(rects).len() <= rects.len(),
    decreases rects.len(),
{
    if rects.len() > 0 {
        lemma_nonempty_part_len(rects.drop_last());
    }
}

/// the common prefix and suffix found by scanning from both ends
proof fn lemma_found_trims(before: &CommandList, after: &CommandList, start: int, old_end: int, new_end: int)
    requires
        0 <= start <= old_end <= before.records().len(),
        start <= new_end <= after.records().len(),
        before.records().len() - old_end == after.records().len() - new_end,
        forall|i: int| 0 <= i < start ==> #[trigger] before.value(i) == after.value(i),
        start == before.records().len() || start == after.records().len() || before.value(start) != after.value(
            start,
        ),
        forall|t: int|
            0 <= t < before.records().len() - old_end ==> #[trigger] before.value(old_end + t) == after.value(
                new_end + t,
            ),
        old_end == start || new_end == start || before.value(old_end - 1) != after.value(new_end - 1),
    ensures
        trims(before.values(), after.values(), start, before.records().len() - old_end),
{
    let a = before.values();
    let b = after.values();
    let q = before.records().len() - old_end;
    assert forall|t: int| 0 <= t < q implies #[trigger] a[a.len() - 1 - t] == b[b.len() - 1 - t] by {
        assert(before.value(old_end + (q - 1 - t)) == after.value(new_end + (q - 1 - t)));
    }
    assert forall|i: int| 0 <= i < start implies #[trigger] a[i] == b[i] by {
        assert(before.value(i) == after.value(i));
    }
}

#[verifier::spinoff_prover]
#[verifier::rlimit(80)]
pub fn diff_lists(
    before: &CommandList,
    after: &CommandList,
    max_edits: usize,
    max_rectangles: usize,
    frontier: &mut Vec<isize>,
    trace: &mut Vec<isize>,
    damage: &mut Vec<PhysicalRect>,
)
    requires
        before.wf(),
        after.wf(),
        0 < max_rectangles,
    ensures
        final(damage)@.len() <= max_rectangles,
        all_nonempty(final(damage)@),
        before.values() == after.values() ==> final(damage)@.len() == 0,
        exists|m: Seq<(int, int)>|
            #![trigger is_matching(before.values(), after.values(), m)]
            is_matching(before.values(), after.values(), m) && (representable_lists(before, after)
                ==> damage_covers(before, after, m, final(damage)@)),
        final(frontier)@.len() <= 2 * max_edits + 3 || final(frontier)@ == old(frontier)@,
        final(trace)@.len() <= (max_edits + 1) * (max_edits + 2) / 2,
        trimmed_damage(before, after, max_edits as int, max_rectangles as int, final(damage)@),
        minimal_damage(before, after, max_edits as int, max_rectangles as int, final(damage)@),
{
    damage.clear();
    trace.clear();
    proof {
        assert(all_representable(damage@));
        assert(all_nonempty(damage@));
    }
    let ghost reps = representable_lists(before, after);
    let old_total = before.len();
    let new_total = after.len();
    let mut start: usize = 0;
    let common = if old_total < new_total { old_total } else { new_total };
    let mut scanning = true;
    while scanning && start < common
        invariant
            before.wf(),
            after.wf(),
            old_total == before.records().len(),
            new_total == after.records().len(),
            common <= old_total,
            common <= new_total,
            start <= common,
            common == old_total || common == new_total,
            forall|i: int| 0 <= i < start ==> #[trigger] before.value(i) == after.value(i),
            !scanning ==> start < common && before.value(start as int) != after.value(start as int),
        decreases common - start + (if scanning { 1int } else { 0int }),
    {
        if before.equivalent(start, after, start) {
            start += 1;
        } else {
            scanning = false;
        }
    }
    let mut old_end = old_total;
    let mut new_end = new_total;
    let mut scanning = true;
    while scanning && old_end > start && new_end > start
        invariant
            before.wf(),
            after.wf(),
            old_total == before.records().len(),
            new_total == after.records().len(),
            start <= old_end <= old_total,
            start <= new_end <= new_total,
            old_total - old_end == new_total - new_end,
            forall|t: int|
                0 <= t < old_total - old_end ==> #[trigger] before.value(old_end + t) == after.value(new_end + t),
            !scanning ==> old_end > start && new_end > start && before.value(old_end - 1) != after.value(new_end - 1),
        decreases old_end + (if scanning { 1int } else { 0int }),
    {
        if before.equivalent(old_end - 1, after, new_end - 1) {
            proof {
                assert forall|t: int| 0 <= t < old_total - (old_end - 1) implies #[trigger] before.value(old_end - 1 + t) == after.value(new_end - 1 + t) by {
                    if t > 0 {
                        assert(before.value(old_end + (t - 1)) == after.value(new_end + (t - 1)));
                    }
                }
            }
            old_end -= 1;
            new_end -= 1;
        } else {
            scanning = false;
        }
    }
    let old_len = old_end - start;
    let new_len = new_end - start;
    let ghost mut positional = false;
    proof {
        lemma_found_trims(before, after, start as int, old_end as int, new_end as int);
    }
    let ghost mut positional = false;
    proof {
        let a = before.values();
        let b = after.values();
        let q = old_total - old_end;
        assert forall|t: int| 0 <= t < q implies #[trigger] a[a.len() - 1 - t] == b[b.len() - 1 - t] by {
            assert(before.value(old_end + (q - 1 - t)) == after.value(new_end + (q - 1 - t)));
        }
        assert forall|i: int| 0 <= i < start implies #[trigger] a[i] == b[i] by {
            assert(before.value(i) == after.value(i));
        }
        assert(trims(a, b, start as int, q));
    }
    proof {
        if before.values() == after.values() {
            assert(before.values().len() == after.values().len());
            if start < common {
                assert(before.values()[start as int] == after.values()[start as int]);
            }
            assert(start == common);
        }
    }
    let ghost inner: Seq<(int, int)>;
    let ghost fewest = edit_distance(
        trimmed(before, start as int, old_end as int),
        trimmed(after, start as int, new_end as int),
    );
    proof {
        lemma_cost_steps(
            trimmed(before, start as int, old_end as int),
            trimmed(after, start as int, new_end as int),
            old_len as int,
            new_len as int,
        );
        lemma_common_length(
            trimmed(before, start as int, old_end as int),
            trimmed(after, start as int, new_end as int),
            old_len as int,
            new_len as int,
        );
    }
    if old_len == 0 || new_len == 0 {
        let inner_ghost = fallback(before, after, start, old_len, new_len, max_rectangles, damage);
        proof {
            inner = inner_ghost@;
            positional = true;
            let rects = positional_bounds(before, after, start as int, old_len as int, new_len as int);
            assert(rects.len() == old_len + new_len);
            lemma_pushed_all_len(Seq::empty(), max_rectangles as int, rects);
            if fewest <= max_rectangles {
                lemma_sources_remaining(before, after, start as int, old_len as int, new_len as int, max_rectangles as int, damage@, inner);
            }
            if before.values() == after.values() {
                assert(old_len == 0 && new_len == 0);
            }
        }
    } else {
        let max_distance = if old_len + new_len < max_edits { old_len + new_len } else { max_edits };
        let (found, rows) = search(before, after, start, old_end, new_end, max_distance, frontier, trace);
        proof {
            lemma_flatten_len_bound(
                trimmed(before, start as int, old_end as int),
                trimmed(after, start as int, new_end as int),
                rows@,
                max_distance as int,
            );
            assert((max_distance + 1) * (max_distance + 2) / 2 <= (max_edits + 1) * (max_edits + 2) / 2) by (nonlinear_arith)
                requires
                    max_distance <= max_edits,
            ;
        }
        match found {
            Some(distance) => {
                proof {
                    assert(distance == fewest);
                    if max_edits == 0 {
                        let a = trimmed(before, start as int, old_end as int);
                        let b = trimmed(after, start as int, new_end as int);
                        assert(start < common);
                        assert(a[0] == b[0]);
                        assert(before.value(start as int) == after.value(start as int));
                    }
                }
                let inner_ghost = backtrack(before, after, start, old_len, new_len, distance, trace, rows, max_rectangles, damage);
                proof {
                    inner = inner_ghost@;
                }
            },
            None => {
                let inner_ghost = fallback(before, after, start, old_len, new_len, max_rectangles, damage);
                proof {
                    inner = inner_ghost@;
                    positional = true;
                }
            },
        }
    }
    proof {
        assert(max_edits == 0 || old_len == 0 || new_len == 0 || fewest > max_edits ==> positional);
        assert(positional ==> damage@ == pushed_all(
            Seq::empty(),
            max_rectangles as int,
            positional_bounds(before, after, start as int, old_len as int, new_len as int),
        ));
        assert(fewest <= max_edits ==> damage@.len() <= fewest && 2 * inner.len() == old_len + new_len - fewest);
        assert(fewest <= max_edits && fewest <= max_rectangles ==> exists|sources: Seq<(bool, int)>|
            #[trigger] tail_sources(
                before,
                after,
                start as int,
                old_len as int,
                new_len as int,
                0,
                0,
                inner,
                damage@,
                sources,
            ));
        lemma_trimmed_damage(
            before,
            after,
            start as int,
            old_end as int,
            new_end as int,
            max_edits as int,
            max_rectangles as int,
            damage@,
        );
        lemma_compose(before, after, start as int, old_end as int, new_end as int, inner, damage@);
        lemma_minimal_damage(
            before,
            after,
            start as int,
            old_end as int,
            new_end as int,
            max_edits as int,
            max_rectangles as int,
            damage@,
            inner,
        );
        let m = whole_matching(start as int, old_end as int, new_end as int, old_total - old_end, inner);
        assert(is_matching(before.values(), after.values(), m));
    }
}

} // verus!
