//! nested rounded clips evaluated one scanline at a time

use vstd::prelude::*;

use crate::geometry::PhysicalRect;
use crate::rounded::saturating_add_i32;
use crate::rounded::{
    law_square_corners_cover_whole_columns, lemma_coverage_in_range, lemma_rounded_line_wf, lemma_visible_admits,
    rounded_line, Radii, RoundedLine,
};

verus! {

/// a rounded clip, numbered from one; zero means no clip
pub type ClipId = u16;

/// the widest clip area whose columns fit the fixed-point coverage arithmetic
pub const MAX_CLIP_WIDTH: i32 = 0x0800_0000;

/// one rounded clip on the stack
#[derive(Clone, Copy, Debug, PartialEq, Eq, Structural)]
pub struct ClipNode {
    pub parent: ClipId,
    pub area: PhysicalRect,
    pub radii: Radii,
}

/// a clip's extent on one row, already narrowed by its ancestors
#[derive(Clone, Copy, Debug, PartialEq, Eq, Structural)]
pub struct ClipLine {
    pub parent: ClipId,
    pub rounded: RoundedLine,
    pub start: i32,
    pub end: i32,
    pub full_start: i32,
    pub full_end: i32,
}

/// the columns a clip lets through on one row: `start..end` partly and
/// `full_start..full_end` completely
#[derive(Clone, Copy, Debug, PartialEq, Eq, Structural)]
pub struct ClipSpan {
    pub start: i32,
    pub end: i32,
    pub full_start: i32,
    pub full_end: i32,
}

/// columns `start..end` drawn with `coverage` out of 255
#[derive(Clone, Copy, Debug, PartialEq, Eq, Structural)]
pub struct ClipPiece {
    pub start: i32,
    pub end: i32,
    pub coverage: u8,
}

/// `value` moved into `low..=high`, the lower bound winning
pub open spec fn clamp_between(value: i32, low: i32, high: i32) -> i32 {
    let raised = if value >= low { value } else { low };
    if raised <= high { raised } else { high }
}

/// the single columns of `start..end` whose coverage is not zero, left to right
pub open spec fn partial_pieces(start: i32, end: i32, coverage: spec_fn(i32) -> u8) -> Seq<ClipPiece>
    decreases end - start,
{
    if end <= start {
        Seq::empty()
    } else {
        let x = (end - 1) as i32;
        let before = partial_pieces(start, x, coverage);
        if coverage(x) != 0 {
            before.push(ClipPiece { start: x, end: end, coverage: coverage(x) })
        } else {
            before
        }
    }
}

/// two coverage functions that agree on `start..end` give the same pieces there
proof fn lemma_partial_pieces_agree(
    start: i32,
    end: i32,
    first: spec_fn(i32) -> u8,
    second: spec_fn(i32) -> u8,
)
    requires
        forall|x: i32| start <= x < end ==> #[trigger] first(x) == second(x),
    ensures
        partial_pieces(start, end, first) == partial_pieces(start, end, second),
    decreases end - start,
{
    if end > start {
        lemma_partial_pieces_agree(start, (end - 1) as i32, first, second);
        assert(first((end - 1) as i32) == second((end - 1) as i32));
    }
}

impl ClipSpan {
    /// the full columns moved inside `start..end`
    pub open spec fn clamped_full_start(self) -> i32 {
        clamp_between(self.full_start, self.start, self.end)
    }

    pub open spec fn clamped_full_end(self) -> i32 {
        clamp_between(self.full_end, self.start, self.end)
    }

    /// the pieces drawn when column `x` has `coverage(x)`: partial columns one by
    /// one, skipping uncovered ones, and the full columns as one piece
    pub open spec fn pieces_for(self, coverage: spec_fn(i32) -> u8) -> Seq<ClipPiece> {
        let full_start = self.clamped_full_start();
        let full_end = self.clamped_full_end();
        if full_start < full_end {
            partial_pieces(self.start, full_start, coverage).push(
                ClipPiece { start: full_start, end: full_end, coverage: 255 },
            ) + partial_pieces(full_end, self.end, coverage)
        } else {
            partial_pieces(self.start, self.end, coverage)
        }
    }

    /// columns `start..end` one by one, appended to `pieces`
    fn push_partial<F: Fn(i32) -> u8>(
        start: i32,
        end: i32,
        coverage: &F,
        pieces: &mut Vec<ClipPiece>,
        Ghost(seen): Ghost<spec_fn(i32) -> u8>,
    ) -> (observed: Ghost<spec_fn(i32) -> u8>)
        requires
            forall|x: i32| start <= x < end ==> call_requires(*coverage, (x,)),
        ensures
            final(pieces)@ == old(pieces)@ + partial_pieces(start, end, observed@),
            forall|x: i32| start <= x < end ==> call_ensures(*coverage, (x,), #[trigger] observed@(x)),
            forall|x: i32| !(start <= x < end) ==> #[trigger] observed@(x) == seen(x),
    {
        let ghost mut observed = seen;
        let ghost initial = pieces@;
        let mut x = start;
        while x < end
            invariant
                start <= end ==> start <= x <= end,
                end < start ==> x == start,
                forall|y: i32| start <= y < end ==> call_requires(*coverage, (y,)),
                pieces@ == initial + partial_pieces(start, x, observed),
                forall|y: i32| start <= y < x ==> call_ensures(*coverage, (y,), #[trigger] observed(y)),
                forall|y: i32| !(start <= y < x) ==> #[trigger] observed(y) == seen(y),
            decreases end - x,
        {
            let value = coverage(x);
            let ghost before = observed;
            proof {
                observed = |y: i32| if y == x { value } else { before(y) };
                lemma_partial_pieces_agree(start, x, before, observed);
            }
            if value != 0 {
                pieces.push(ClipPiece { start: x, end: x + 1, coverage: value });
            }
            x = x + 1;
            proof {
                assert(partial_pieces(start, x, observed) =~= partial_pieces(start, (x - 1) as i32, observed)
                    + if observed((x - 1) as i32) != 0 {
                    seq![ClipPiece { start: (x - 1) as i32, end: x, coverage: value }]
                } else {
                    Seq::empty()
                });
            }
        }
        Ghost(observed)
    }

    /// the pieces to draw for this span, left to right
    ///
    /// `coverage` is asked for each partial column; the full columns come as one
    /// piece of full coverage
    pub fn for_each<F: Fn(i32) -> u8>(self, coverage: F) -> (pieces: Vec<ClipPiece>)
        requires
            forall|x: i32| self.start <= x < self.end ==> call_requires(coverage, (x,)),
        ensures
            exists|observed: spec_fn(i32) -> u8|
                {
                    &&& pieces@ == #[trigger] self.pieces_for(observed)
                    &&& forall|x: i32|
                        self.start <= x < self.end && !(self.clamped_full_start() <= x
                            < self.clamped_full_end()) ==> call_ensures(coverage, (x,), #[trigger] observed(x))
                },
    {
        let full_start = if self.full_start >= self.start { self.full_start } else { self.start };
        let full_start = if full_start <= self.end { full_start } else { self.end };
        let full_end = if self.full_end >= self.start { self.full_end } else { self.start };
        let full_end = if full_end <= self.end { full_end } else { self.end };
        let mut pieces: Vec<ClipPiece> = Vec::new();
        let ghost nothing = |x: i32| 0u8;
        if full_start < full_end {
            let Ghost(left) = Self::push_partial(self.start, full_start, &coverage, &mut pieces, Ghost(nothing));
            pieces.push(ClipPiece { start: full_start, end: full_end, coverage: 255 });
            let Ghost(observed) = Self::push_partial(full_end, self.end, &coverage, &mut pieces, Ghost(left));
            proof {
                lemma_partial_pieces_agree(self.start, full_start, left, observed);
                assert(pieces@ =~= self.pieces_for(observed));
            }
        } else {
            let Ghost(observed) = Self::push_partial(self.start, self.end, &coverage, &mut pieces, Ghost(nothing));
            proof {
                assert(pieces@ =~= self.pieces_for(observed));
            }
        }
        pieces
    }
}

/// the larger of two columns
pub open spec fn max_i32(a: i32, b: i32) -> i32 {
    if a >= b { a } else { b }
}

/// the smaller of two columns
pub open spec fn min_i32(a: i32, b: i32) -> i32 {
    if a <= b { a } else { b }
}

/// the extent of a clip's own rounded rectangle on a row
pub open spec fn own_line(node: ClipNode, rounded: RoundedLine) -> ClipLine {
    ClipLine {
        parent: node.parent,
        rounded,
        start: rounded.first_visible(),
        end: rounded.last_visible(),
        full_start: rounded.first_full(),
        full_end: rounded.last_full(),
    }
}

/// a clip's extent narrowed to that of its parent
pub open spec fn narrowed(line: ClipLine, parent: ClipLine) -> ClipLine {
    ClipLine {
        start: max_i32(line.start, parent.start),
        end: min_i32(line.end, parent.end),
        full_start: max_i32(line.full_start, parent.full_start),
        full_end: min_i32(line.full_end, parent.full_end),
        ..line
    }
}

/// the extent on row `line` of the clip at `index`, narrowed by its ancestors,
/// or `None` where the row lets nothing through
pub open spec fn clip_line(nodes: Seq<ClipNode>, index: int, line: int) -> Option<ClipLine>
    decreases index,
{
    if index < 0 || index >= nodes.len() {
        None
    } else {
        let node = nodes[index];
        match rounded_line(node.area, node.radii, line) {
            None => None,
            Some(rounded) => {
                let own = own_line(node, rounded);
                let combined = if node.parent == 0 {
                    Some(own)
                } else if node.parent <= index {
                    match clip_line(nodes, node.parent - 1, line) {
                        Some(parent) => Some(narrowed(own, parent)),
                        None => None,
                    }
                } else {
                    None
                };
                match combined {
                    Some(result) => if result.start < result.end {
                        Some(result)
                    } else {
                        None
                    },
                    None => None,
                }
            },
        }
    }
}

/// `span` narrowed by the clip `id` and its ancestors on row `line`, or `None`
/// once nothing is left
pub open spec fn span_for(nodes: Seq<ClipNode>, id: int, line: int, span: ClipSpan) -> Option<ClipSpan>
    decreases id,
{
    if id <= 0 || id > nodes.len() || nodes[id - 1].parent >= id {
        Some(span)
    } else {
        let node = nodes[id - 1];
        match rounded_line(node.area, node.radii, line) {
            None => None,
            Some(rounded) => {
                let next = ClipSpan {
                    start: max_i32(span.start, rounded.first_visible()),
                    end: min_i32(span.end, rounded.last_visible()),
                    full_start: max_i32(span.full_start, rounded.first_full()),
                    full_end: min_i32(span.full_end, rounded.last_full()),
                };
                if next.start >= next.end {
                    None
                } else {
                    span_for(nodes, node.parent as int, line, next)
                }
            },
        }
    }
}

/// coverage out of 255 of column `x` under the clip `id` and its ancestors,
/// starting from `acc`
pub open spec fn chain_coverage(nodes: Seq<ClipNode>, id: int, line: int, x: i32, acc: int) -> int
    decreases id,
{
    if id <= 0 || id > nodes.len() || nodes[id - 1].parent >= id {
        acc
    } else {
        let node = nodes[id - 1];
        match rounded_line(node.area, node.radii, line) {
            None => 0,
            Some(rounded) => chain_coverage(
                nodes,
                node.parent as int,
                line,
                x,
                (acc * rounded.coverage_at((x - rounded.x) as i32) + 127) / 255,
            ),
        }
    }
}

/// the pieces drawn of columns `start..end` on row `line` under the clip `id`:
/// the columns its chain lets through, each with the chain's coverage
pub open spec fn clip_pieces(nodes: Seq<ClipNode>, id: int, line: int, start: i32, end: i32) -> Seq<ClipPiece> {
    match span_for(nodes, id, line, ClipSpan { start, end, full_start: start, full_end: end }) {
        Some(span) => span.pieces_for(|x: i32| chain_coverage(nodes, id, line, x, 255) as u8),
        None => Seq::empty(),
    }
}

/// less coverage going in gives no more coming out, and a chain never adds coverage
proof fn lemma_chain_coverage_monotone(nodes: Seq<ClipNode>, id: int, line: int, x: i32, low: int, high: int)
    requires
        nodes_wf(nodes),
        0 <= low <= high <= 255,
    ensures
        0 <= chain_coverage(nodes, id, line, x, low) <= chain_coverage(nodes, id, line, x, high),
        chain_coverage(nodes, id, line, x, low) <= low,
    decreases id,
{
    if !(id <= 0 || id > nodes.len() || nodes[id - 1].parent >= id) {
        let node = nodes[id - 1];
        assert(nodes[id - 1].parent <= id - 1);
        match rounded_line(node.area, node.radii, line) {
            None => {},
            Some(rounded) => {
                lemma_rounded_line_wf(node.area, node.radii, line);
                let c = rounded.coverage_at((x - rounded.x) as i32);
                lemma_coverage_in_range(rounded, (x - rounded.x) as i32);
                assert(0 <= (low * c + 127) / 255 <= (high * c + 127) / 255 <= high && (low * c + 127) / 255 <= low)
                    by (nonlinear_arith)
                    requires
                        0 <= low <= high <= 255,
                        0 <= c <= 255,
                {
                    assert(low * c <= high * c);
                    assert(high * c <= high * 255);
                    assert(low * c <= low * 255);
                }
                lemma_chain_coverage_monotone(
                    nodes,
                    node.parent as int,
                    line,
                    x,
                    (low * c + 127) / 255,
                    (high * c + 127) / 255,
                );
            },
        }
    }
}

/// a clip lets through no more of a column than the chain of its parent does,
/// and no more than its own rounded rectangle does; a row its rectangle misses
/// it hides entirely
pub proof fn law_clip_never_exceeds_its_parent(nodes: Seq<ClipNode>, id: int, line: int, x: i32)
    requires
        nodes_wf(nodes),
        1 <= id <= nodes.len(),
    ensures
        0 <= chain_coverage(nodes, id, line, x, 255) <= chain_coverage(
            nodes,
            nodes[id - 1].parent as int,
            line,
            x,
            255,
        ),
        rounded_line(nodes[id - 1].area, nodes[id - 1].radii, line) matches Some(rounded)
            ==> chain_coverage(nodes, id, line, x, 255) <= rounded.coverage_at((x - rounded.x) as i32),
        rounded_line(nodes[id - 1].area, nodes[id - 1].radii, line) is None ==> chain_coverage(
            nodes,
            id,
            line,
            x,
            255,
        ) == 0,
{
    let node = nodes[id - 1];
    assert(nodes[id - 1].parent <= id - 1);
    lemma_chain_coverage_monotone(nodes, node.parent as int, line, x, 255, 255);
    match rounded_line(node.area, node.radii, line) {
        None => {},
        Some(rounded) => {
            lemma_rounded_line_wf(node.area, node.radii, line);
            let c = rounded.coverage_at((x - rounded.x) as i32);
            lemma_coverage_in_range(rounded, (x - rounded.x) as i32);
            assert((255 * c + 127) / 255 == c) by (nonlinear_arith)
                requires
                    0 <= c <= 255,
            ;
            lemma_chain_coverage_monotone(nodes, node.parent as int, line, x, c, 255);
        },
    }
}

/// under a clip whose parent is an outermost clip, a column's coverage is the
/// product of the two rectangles' own coverages, out of 255 and rounded to
/// nearest
pub proof fn law_nested_coverage_is_product(nodes: Seq<ClipNode>, id: int, line: int, x: i32)
    requires
        nodes_wf(nodes),
        1 <= id <= nodes.len(),
        nodes[id - 1].parent >= 1,
        nodes[nodes[id - 1].parent - 1].parent == 0,
        rounded_line(nodes[id - 1].area, nodes[id - 1].radii, line) is Some,
        rounded_line(nodes[nodes[id - 1].parent - 1].area, nodes[nodes[id - 1].parent - 1].radii, line) is Some,
    ensures
        ({
            let own = rounded_line(nodes[id - 1].area, nodes[id - 1].radii, line)->0;
            let parent = nodes[nodes[id - 1].parent - 1];
            let outer = rounded_line(parent.area, parent.radii, line)->0;
            chain_coverage(nodes, id, line, x, 255) == (own.coverage_at((x - own.x) as i32) * outer.coverage_at(
                (x - outer.x) as i32,
            ) + 127) / 255
        }),
{
    let node = nodes[id - 1];
    assert(nodes[id - 1].parent <= id - 1);
    let p = node.parent as int;
    assert(nodes[p - 1].parent <= p - 1);
    let own = rounded_line(node.area, node.radii, line)->0;
    lemma_rounded_line_wf(node.area, node.radii, line);
    let c = own.coverage_at((x - own.x) as i32);
    lemma_coverage_in_range(own, (x - own.x) as i32);
    assert((255 * c + 127) / 255 == c) by (nonlinear_arith)
        requires
            0 <= c <= 255,
    ;
    let parent = nodes[p - 1];
    let outer = rounded_line(parent.area, parent.radii, line)->0;
    let d = outer.coverage_at((x - outer.x) as i32);
    assert(chain_coverage(nodes, id, line, x, 255) == chain_coverage(nodes, p, line, x, c));
    assert(chain_coverage(nodes, p, line, x, c) == chain_coverage(nodes, 0, line, x, (c * d + 127) / 255));
}

/// a square clip over its parent's own area has every column of the parent's
/// coverage
proof fn lemma_square_child_coverage(nodes: Seq<ClipNode>, id: int, line: int, x: i32)
    requires
        nodes_wf(nodes),
        1 <= id <= nodes.len(),
        nodes[id - 1].parent >= 1,
        nodes[id - 1].area == nodes[nodes[id - 1].parent - 1].area,
        nodes[id - 1].radii == (Radii { top_left: 0, top_right: 0, bottom_right: 0, bottom_left: 0 }),
    ensures
        chain_coverage(nodes, id, line, x, 255) == chain_coverage(nodes, nodes[id - 1].parent as int, line, x, 255),
{
    let node = nodes[id - 1];
    assert(nodes[id - 1].parent <= id - 1);
    let p = node.parent as int;
    let parent = nodes[p - 1];
    assert(nodes[p - 1].parent <= p - 1);
    match rounded_line(node.area, node.radii, line) {
        None => {
            assert(rounded_line(parent.area, parent.radii, line) is None);
        },
        Some(own) => {
            let column = (x - own.x) as i32;
            law_square_corners_cover_whole_columns(node.area, line, column);
            let outer = rounded_line(parent.area, parent.radii, line)->0;
            lemma_rounded_line_wf(parent.area, parent.radii, line);
            if 0 <= column < node.area.width {
                assert(own.coverage_at(column) == 255);
            } else {
                assert(own.coverage_at(column) == 0);
                assert(outer.coverage_at(column) == 0);
                lemma_chain_coverage_monotone(nodes, p, line, x, 0, 0);
                lemma_chain_coverage_monotone(nodes, parent.parent as int, line, x, 0, 0);
            }
        },
    }
}

/// a square clip over its parent's own area narrows no span further than the
/// parent does
proof fn lemma_square_child_span(nodes: Seq<ClipNode>, id: int, line: int, span: ClipSpan)
    requires
        nodes_wf(nodes),
        1 <= id <= nodes.len(),
        nodes[id - 1].parent >= 1,
        nodes[id - 1].area == nodes[nodes[id - 1].parent - 1].area,
        nodes[id - 1].radii == (Radii { top_left: 0, top_right: 0, bottom_right: 0, bottom_left: 0 }),
    ensures
        span_for(nodes, id, line, span) == span_for(nodes, nodes[id - 1].parent as int, line, span),
{
    let node = nodes[id - 1];
    assert(nodes[id - 1].parent <= id - 1);
    let p = node.parent as int;
    let parent = nodes[p - 1];
    assert(nodes[p - 1].parent <= p - 1);
    match rounded_line(node.area, node.radii, line) {
        None => {
            assert(rounded_line(parent.area, parent.radii, line) is None);
        },
        Some(own) => {
            let outer = rounded_line(parent.area, parent.radii, line)->0;
            lemma_rounded_line_wf(parent.area, parent.radii, line);
            lemma_rounded_line_wf(node.area, node.radii, line);
            let area = node.area;
            assert(own.left_start.0 == 0 && own.left_end.0 == 0);
            assert(own.right_start.0 == area.width * 16 && own.right_end.0 == area.width * 16);
            assert(own.first_visible() == area.x);
            assert(own.first_full() == area.x);
            assert(own.last_visible() == saturating_add_i32(area.x, area.width as int));
            assert(own.last_full() == saturating_add_i32(area.x, area.width as int));
            assert(outer.first_visible() >= area.x);
            assert(outer.first_full() >= area.x);
            assert(outer.last_visible() <= saturating_add_i32(area.x, area.width as int));
            assert(outer.last_full() <= saturating_add_i32(area.x, area.width as int));
            let next = ClipSpan {
                start: max_i32(span.start, own.first_visible()),
                end: min_i32(span.end, own.last_visible()),
                full_start: max_i32(span.full_start, own.first_full()),
                full_end: min_i32(span.full_end, own.last_full()),
            };
            let narrowed_once = ClipSpan {
                start: max_i32(span.start, outer.first_visible()),
                end: min_i32(span.end, outer.last_visible()),
                full_start: max_i32(span.full_start, outer.first_full()),
                full_end: min_i32(span.full_end, outer.last_full()),
            };
            let narrowed_twice = ClipSpan {
                start: max_i32(next.start, outer.first_visible()),
                end: min_i32(next.end, outer.last_visible()),
                full_start: max_i32(next.full_start, outer.first_full()),
                full_end: min_i32(next.full_end, outer.last_full()),
            };
            assert(narrowed_twice == narrowed_once);
            if next.start >= next.end {
                assert(narrowed_once.start >= narrowed_once.end);
                assert(span_for(nodes, p, line, span) is None);
            } else {
                assert(span_for(nodes, id, line, span) == span_for(nodes, p, line, next));
            }
        },
    }
}

/// a clip with square corners over exactly its parent's area changes nothing:
/// every column keeps the parent's coverage, so the rounded parent's
/// anti-aliased corners stay anti-aliased, and the same pieces are drawn
pub proof fn law_square_clip_over_parent_area_changes_nothing(
    nodes: Seq<ClipNode>,
    id: int,
    line: int,
    x: i32,
    start: i32,
    end: i32,
)
    requires
        nodes_wf(nodes),
        1 <= id <= nodes.len(),
        nodes[id - 1].parent >= 1,
        nodes[id - 1].area == nodes[nodes[id - 1].parent - 1].area,
        nodes[id - 1].radii == (Radii { top_left: 0, top_right: 0, bottom_right: 0, bottom_left: 0 }),
    ensures
        chain_coverage(nodes, id, line, x, 255) == chain_coverage(nodes, nodes[id - 1].parent as int, line, x, 255),
        clip_pieces(nodes, id, line, start, end) == clip_pieces(nodes, nodes[id - 1].parent as int, line, start, end),
{
    let p = nodes[id - 1].parent as int;
    lemma_square_child_coverage(nodes, id, line, x);
    lemma_square_child_span(nodes, id, line, ClipSpan { start, end, full_start: start, full_end: end });
    let child = |column: i32| chain_coverage(nodes, id, line, column, 255) as u8;
    let outer = |column: i32| chain_coverage(nodes, p, line, column, 255) as u8;
    assert forall|column: i32| #[trigger] child(column) == outer(column) by {
        lemma_square_child_coverage(nodes, id, line, column);
    }
    assert(child =~= outer);
}

/// every clip on the chain from `id` can compute coverage for column `x`
pub open spec fn chain_admits(nodes: Seq<ClipNode>, id: int, line: int, x: i32) -> bool
    decreases id,
{
    if id <= 0 || id > nodes.len() || nodes[id - 1].parent >= id {
        true
    } else {
        let node = nodes[id - 1];
        match rounded_line(node.area, node.radii, line) {
            None => true,
            Some(rounded) => rounded.admits(x) && chain_admits(nodes, node.parent as int, line, x),
        }
    }
}

/// clips refer only to earlier clips and have corners and widths the fixed point holds
pub open spec fn nodes_wf(nodes: Seq<ClipNode>) -> bool {
    &&& nodes.len() <= u16::MAX
    &&& forall|i: int|
        0 <= i < nodes.len() ==> {
            &&& #[trigger] nodes[i].parent <= i
            &&& nodes[i].radii.in_range()
            &&& nodes[i].area.width <= MAX_CLIP_WIDTH
        }
}

/// every clip keeps row `line` within the range of `i32` from its top
pub open spec fn nodes_reach_line(nodes: Seq<ClipNode>, line: i32) -> bool {
    forall|i: int| 0 <= i < nodes.len() ==> i32::MIN <= line - (#[trigger] nodes[i]).area.y <= i32::MAX
}

/// a narrowed span stays inside the span it started from
proof fn lemma_span_for_narrows(nodes: Seq<ClipNode>, id: int, line: int, span: ClipSpan)
    requires
        span_for(nodes, id, line, span) is Some,
    ensures
        span.start <= span_for(nodes, id, line, span)->0.start,
        span_for(nodes, id, line, span)->0.end <= span.end,
    decreases id,
{
    if !(id <= 0 || id > nodes.len() || nodes[id - 1].parent >= id) {
        let node = nodes[id - 1];
        let rounded = rounded_line(node.area, node.radii, line)->0;
        let next = ClipSpan {
            start: max_i32(span.start, rounded.first_visible()),
            end: min_i32(span.end, rounded.last_visible()),
            full_start: max_i32(span.full_start, rounded.first_full()),
            full_end: min_i32(span.full_end, rounded.last_full()),
        };
        lemma_span_for_narrows(nodes, node.parent as int, line, next);
    }
}

/// every column of a narrowed span admits coverage under the whole chain
proof fn lemma_span_for_admits(nodes: Seq<ClipNode>, id: int, line: int, span: ClipSpan, x: i32)
    requires
        nodes_wf(nodes),
        span_for(nodes, id, line, span) is Some,
        span_for(nodes, id, line, span)->0.start <= x < span_for(nodes, id, line, span)->0.end,
    ensures
        chain_admits(nodes, id, line, x),
    decreases id,
{
    if !(id <= 0 || id > nodes.len() || nodes[id - 1].parent >= id) {
        let node = nodes[id - 1];
        assert(node.parent <= id - 1);
        let rounded = rounded_line(node.area, node.radii, line)->0;
        let next = ClipSpan {
            start: max_i32(span.start, rounded.first_visible()),
            end: min_i32(span.end, rounded.last_visible()),
            full_start: max_i32(span.full_start, rounded.first_full()),
            full_end: min_i32(span.full_end, rounded.last_full()),
        };
        lemma_span_for_narrows(nodes, node.parent as int, line, next);
        lemma_rounded_line_wf(node.area, node.radii, line);
        lemma_visible_admits(rounded, x);
        lemma_span_for_admits(nodes, node.parent as int, line, next, x);
    }
}

/// the rounded clips pushed during a frame, with the one currently in effect
pub struct ClipStack {
    nodes: Vec<ClipNode>,
    current: ClipId,
}

impl ClipStack {
    /// clips refer only to earlier ones and the current one exists
    pub closed spec fn wf(&self) -> bool {
        &&& nodes_wf(self.nodes@)
        &&& self.current <= self.nodes@.len()
    }

    /// the clips pushed so far, the one with id `n` at index `n - 1`
    pub closed spec fn nodes_view(&self) -> Seq<ClipNode> {
        self.nodes@
    }

    pub closed spec fn current_view(&self) -> ClipId {
        self.current
    }

    /// the number of clips pushed this frame
    pub fn len(&self) -> (len: usize)
        ensures
            len == self.nodes_view().len(),
    {
        self.nodes.len()
    }

    /// the clip in effect
    pub fn current(&self) -> (id: ClipId)
        ensures
            id == self.current_view(),
    {
        self.current
    }

    /// every clip pushed so far keeps its rows within the range of `i32`
    pub open spec fn reaches_line(&self, line: i32) -> bool {
        nodes_reach_line(self.nodes_view(), line)
    }

    /// clips the current clip further to `area` with corners of `radii`, and makes
    /// that clip current
    pub fn push(&mut self, area: PhysicalRect, radii: Radii)
        requires
            old(self).wf(),
            old(self).nodes_view().len() < u16::MAX,
            radii.in_range(),
            area.width <= MAX_CLIP_WIDTH,
        ensures
            final(self).wf(),
            final(self).nodes_view() == old(self).nodes_view().push(
                ClipNode { parent: old(self).current_view(), area, radii },
            ),
            final(self).current_view() == final(self).nodes_view().len(),
    {
        let id = (self.nodes.len() + 1) as u16;
        let node = ClipNode { parent: self.current, area, radii };
        self.nodes.push(node);
        self.current = id;
        proof {
            assert forall|i: int| 0 <= i < self.nodes@.len() implies {
                &&& #[trigger] self.nodes@[i].parent <= i
                &&& self.nodes@[i].radii.in_range()
                &&& self.nodes@[i].area.width <= MAX_CLIP_WIDTH
            } by {
                if i < self.nodes@.len() - 1 {
                    assert(old(self).nodes@[i] == self.nodes@[i]);
                    assert(old(self).nodes@[i].parent <= i);
                }
            }
        }
    }

    /// makes the parent of the current clip current
    pub fn pop(&mut self)
        requires
            old(self).wf(),
            old(self).current_view() != 0,
        ensures
            final(self).wf(),
            final(self).nodes_view() == old(self).nodes_view(),
            final(self).current_view() == old(self).nodes_view()[old(self).current_view() - 1].parent,
    {
        let parent = self.nodes[self.current as usize - 1].parent;
        proof {
            assert(self.nodes@[self.current - 1].parent <= self.current - 1);
        }
        self.current = parent;
    }

    /// forgets every clip once none is in effect
    pub fn clear(&mut self)
        requires
            old(self).current_view() == 0,
        ensures
            final(self).wf(),
            final(self).nodes_view() == Seq::<ClipNode>::empty(),
            final(self).current_view() == 0,
    {
        self.nodes.clear();
    }

    /// the extent of every clip on row `line`, by index
    pub fn line_ranges(&self, line: i32, ranges: &mut Vec<Option<ClipLine>>)
        requires
            self.wf(),
            self.reaches_line(line),
        ensures
            final(ranges)@.len() == self.nodes_view().len(),
            forall|i: int|
                0 <= i < self.nodes_view().len() ==> #[trigger] final(ranges)@[i] == clip_line(
                    self.nodes_view(),
                    i,
                    line as int,
                ),
    {
        ranges.clear();
        let mut index: usize = 0;
        while index < self.nodes.len()
            invariant
                nodes_wf(self.nodes@),
                nodes_reach_line(self.nodes@, line),
                index <= self.nodes@.len(),
                ranges@.len() == index,
                forall|i: int| 0 <= i < index ==> #[trigger] ranges@[i] == clip_line(self.nodes@, i, line as int),
            decreases self.nodes@.len() - index,
        {
            let node = self.nodes[index];
            assert(self.nodes@[index as int].parent <= index);
            assert(i32::MIN <= line - self.nodes@[index as int].area.y <= i32::MAX);
            let range = match RoundedLine::new(node.area, node.radii, line) {
                None => None,
                Some(rounded) => {
                    let mut result = ClipLine {
                        parent: node.parent,
                        rounded,
                        start: rounded.visible_start(),
                        end: rounded.visible_end(),
                        full_start: rounded.full_start(),
                        full_end: rounded.full_end(),
                    };
                    let mut present = true;
                    if node.parent != 0 {
                        match &ranges[node.parent as usize - 1] {
                            None => {
                                present = false;
                            },
                            Some(parent) => {
                                if parent.start > result.start {
                                    result.start = parent.start;
                                }
                                if parent.end < result.end {
                                    result.end = parent.end;
                                }
                                if parent.full_start > result.full_start {
                                    result.full_start = parent.full_start;
                                }
                                if parent.full_end < result.full_end {
                                    result.full_end = parent.full_end;
                                }
                            },
                        }
                    }
                    if present && result.start < result.end {
                        Some(result)
                    } else {
                        None
                    }
                },
            };
            ranges.push(range);
            index = index + 1;
        }
    }

    /// coverage out of 255 of column `x` under the clip `id` and its ancestors
    fn chain_coverage(&self, id: ClipId, line: i32, x: i32) -> (coverage: u8)
        requires
            self.wf(),
            id <= self.nodes_view().len(),
            self.reaches_line(line),
            chain_admits(self.nodes_view(), id as int, line as int, x),
        ensures
            coverage == chain_coverage(self.nodes_view(), id as int, line as int, x, 255),
    {
        let mut cursor = id;
        let mut coverage: u32 = 255;
                while cursor != 0
            invariant
                nodes_wf(self.nodes@),
                nodes_reach_line(self.nodes@, line),
                cursor <= self.nodes@.len(),
                coverage <= 255,
                chain_admits(self.nodes@, cursor as int, line as int, x),
                chain_coverage(self.nodes@, id as int, line as int, x, 255) == chain_coverage(
                    self.nodes@,
                    cursor as int,
                    line as int,
                    x,
                    coverage as int,
                ),
            decreases cursor,
        {
            let node = self.nodes[cursor as usize - 1];
            assert(self.nodes@[cursor - 1].parent <= cursor - 1);
            assert(i32::MIN <= line - self.nodes@[cursor - 1].area.y <= i32::MAX);
            match RoundedLine::new(node.area, node.radii, line) {
                None => {
                    assert(chain_coverage(self.nodes@, cursor as int, line as int, x, coverage as int) == 0);
                    assert(chain_coverage(self.nodes_view(), id as int, line as int, x, 255) == 0);
                    return 0;
                },
                Some(rounded) => {
                    let value = rounded.coverage(x);
                    assert(coverage * value <= 255 * 255) by (nonlinear_arith)
                        requires
                            coverage <= 255,
                            value <= 255,
                    ;
                    coverage = (coverage * value as u32 + 127) / 255;
                    cursor = node.parent;
                },
            }
        }
        coverage as u8
    }

    /// the pieces to draw of columns `range` on row `line` under the clip `id`
    pub fn for_each(&self, id: ClipId, line: i32, range: std::ops::Range<i32>) -> (pieces: Vec<ClipPiece>)
        requires
            self.wf(),
            id <= self.nodes_view().len(),
            self.reaches_line(line),
        ensures
            pieces@ == clip_pieces(self.nodes_view(), id as int, line as int, range.start, range.end),
    {
        let clip_id = id;
        let mut cursor = id;
        let initial = ClipSpan { start: range.start, end: range.end, full_start: range.start, full_end: range.end };
        let mut span = initial;
        while cursor != 0
            invariant
                nodes_wf(self.nodes@),
                nodes_reach_line(self.nodes@, line),
                cursor <= self.nodes@.len(),
                clip_id == id,
                initial == (ClipSpan { start: range.start, end: range.end, full_start: range.start, full_end: range.end }),
                span_for(self.nodes@, clip_id as int, line as int, initial) == span_for(
                    self.nodes@,
                    cursor as int,
                    line as int,
                    span,
                ),
            decreases cursor,
        {
            let node = self.nodes[cursor as usize - 1];
            assert(self.nodes@[cursor - 1].parent <= cursor - 1);
            assert(i32::MIN <= line - self.nodes@[cursor - 1].area.y <= i32::MAX);
            let rounded = match RoundedLine::new(node.area, node.radii, line) {
                None => {
                    assert(span_for(self.nodes@, cursor as int, line as int, span) is None);
                    return Vec::new();
                },
                Some(rounded) => rounded,
            };
            let ghost before = span;
            let visible_start = rounded.visible_start();
            let visible_end = rounded.visible_end();
            let full_start = rounded.full_start();
            let full_end = rounded.full_end();
            if visible_start > span.start {
                span.start = visible_start;
            }
            if visible_end < span.end {
                span.end = visible_end;
            }
            if full_start > span.full_start {
                span.full_start = full_start;
            }
            if full_end < span.full_end {
                span.full_end = full_end;
            }
            if span.start >= span.end {
                assert(span_for(self.nodes@, cursor as int, line as int, before) is None);
                return Vec::new();
            }
            cursor = node.parent;
        }
        let ghost nodes = self.nodes@;
        proof {
            assert forall|x: i32| span.start <= x < span.end implies chain_admits(
                nodes,
                clip_id as int,
                line as int,
                x,
            ) by {
                lemma_span_for_admits(nodes, clip_id as int, line as int, initial, x);
            }
        }
        let coverage = |x: i32| -> (coverage: u8)
            requires
                span.start <= x < span.end,
            ensures
                coverage == chain_coverage(self.nodes_view(), clip_id as int, line as int, x, 255),
            { self.chain_coverage(clip_id, line, x) };
        let pieces = span.for_each(coverage);
        proof {
            let target = |x: i32| chain_coverage(nodes, clip_id as int, line as int, x, 255) as u8;
            let observed = choose|observed: spec_fn(i32) -> u8|
                {
                    &&& pieces@ == #[trigger] span.pieces_for(observed)
                    &&& forall|x: i32|
                        span.start <= x < span.end && !(span.clamped_full_start() <= x
                            < span.clamped_full_end()) ==> call_ensures(coverage, (x,), #[trigger] observed(x))
                };
            let full_start = span.clamped_full_start();
            let full_end = span.clamped_full_end();
            if full_start < full_end {
                assert forall|x: i32| span.start <= x < full_start implies #[trigger] observed(x) == target(x) by {
                    assert(call_ensures(coverage, (x,), observed(x)));
                }
                assert forall|x: i32| full_end <= x < span.end implies #[trigger] observed(x) == target(x) by {
                    assert(call_ensures(coverage, (x,), observed(x)));
                }
                lemma_partial_pieces_agree(span.start, full_start, observed, target);
                lemma_partial_pieces_agree(full_end, span.end, observed, target);
            } else {
                assert forall|x: i32| span.start <= x < span.end implies #[trigger] observed(x) == target(x) by {
                    assert(call_ensures(coverage, (x,), observed(x)));
                }
                lemma_partial_pieces_agree(span.start, span.end, observed, target);
            }
            assert(pieces@ == span.pieces_for(target));
        }
        pieces
    }
}

/// popping right after a push makes the clip that was current before the push
/// current again, and keeps the pushed clip on the stack
pub proof fn law_pop_undoes_push(nodes: Seq<ClipNode>, current: ClipId, area: PhysicalRect, radii: Radii)
    ensures
        ({
            let pushed = nodes.push(ClipNode { parent: current, area, radii });
            let id = pushed.len();
            &&& pushed[id - 1].parent == current
            &&& pushed.subrange(0, nodes.len() as int) == nodes
        }),
{
    let pushed = nodes.push(ClipNode { parent: current, area, radii });
    assert(pushed.subrange(0, nodes.len() as int) =~= nodes);
}

impl Default for ClipStack {
    /// an empty stack with no clip in effect
    fn default() -> (stack: Self)
        ensures
            stack.wf(),
            stack.nodes_view() == Seq::<ClipNode>::empty(),
            stack.current_view() == 0,
    {
        ClipStack { nodes: Vec::new(), current: 0 }
    }
}

} // verus!
