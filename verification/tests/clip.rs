use blit::clip::{ClipPiece, ClipSpan, ClipStack};
use blit::geometry::PhysicalRect;
use blit::rounded::{line_edges, Radii, RoundedLine};

fn radii(radius: i32) -> Radii {
    Radii { top_left: radius, top_right: radius, bottom_right: radius, bottom_left: radius }
}

fn area(x: i32, y: i32, width: i32, height: i32) -> PhysicalRect {
    PhysicalRect { x, y, width, height }
}

fn piece(start: i32, end: i32, coverage: u8) -> ClipPiece {
    ClipPiece { start, end, coverage }
}

#[test]
fn span_draws_partial_columns_one_by_one_and_full_columns_at_once() {
    let span = ClipSpan { start: 0, end: 10, full_start: 3, full_end: 7 };
    let pieces = span.for_each(|x| (x * 10) as u8);
    assert_eq!(
        pieces,
        vec![
            piece(1, 2, 10),
            piece(2, 3, 20),
            piece(3, 7, 255),
            piece(7, 8, 70),
            piece(8, 9, 80),
            piece(9, 10, 90),
        ]
    );
}

#[test]
fn span_without_full_columns_asks_every_column() {
    let span = ClipSpan { start: 2, end: 5, full_start: 4, full_end: 4 };
    let pieces = span.for_each(|_| 7);
    assert_eq!(pieces, vec![piece(2, 3, 7), piece(3, 4, 7), piece(4, 5, 7)]);
}

#[test]
fn span_clamps_full_columns_into_the_span() {
    let span = ClipSpan { start: 2, end: 6, full_start: -5, full_end: 50 };
    let pieces = span.for_each(|_| 1);
    assert_eq!(pieces, vec![piece(2, 6, 255)]);
}

#[test]
fn rounded_row_edges_and_coverage() {
    let line = RoundedLine::new(area(0, 0, 16, 16), radii(8), 0).unwrap();
    assert_eq!((line.left_start.0, line.left_end.0), (67, 128));
    assert_eq!((line.right_start.0, line.right_end.0), (128, 189));
    assert_eq!(line.visible_start(), 4);
    assert_eq!(line.visible_end(), 12);
    assert_eq!(line.full_start(), 8);
    assert_eq!(line.full_end(), 8);
    let coverage: Vec<u8> = (4..12).map(|x| line.coverage(x)).collect();
    assert_eq!(coverage, vec![43, 96, 149, 202, 202, 149, 96, 43]);
    assert_eq!(line.coverage(-1), 0);
    assert_eq!(line.coverage(16), 0);
    assert!(RoundedLine::new(area(0, 0, 16, 16), radii(8), 16).is_none());
    assert!(RoundedLine::new(area(0, 0, 0, 16), radii(8), 3).is_none());
}

#[test]
fn square_clip_lets_the_whole_row_through() {
    let mut stack = ClipStack::default();
    stack.push(area(0, 0, 10, 10), radii(0));
    assert_eq!(stack.current(), 1);
    assert_eq!(stack.for_each(1, 5, 0..20), vec![piece(0, 10, 255)]);
    assert_eq!(stack.for_each(1, 10, 0..20), vec![]);
    assert_eq!(stack.for_each(0, 10, 0..20), vec![piece(0, 20, 255)]);
}

#[test]
fn rounded_clip_draws_corner_columns_with_their_coverage() {
    let mut stack = ClipStack::default();
    stack.push(area(0, 0, 16, 16), radii(8));
    assert_eq!(
        stack.for_each(1, 0, 0..16),
        vec![
            piece(4, 5, 43),
            piece(5, 6, 96),
            piece(6, 7, 149),
            piece(7, 8, 202),
            piece(8, 9, 202),
            piece(9, 10, 149),
            piece(10, 11, 96),
            piece(11, 12, 43),
        ]
    );
    assert_eq!(
        stack.for_each(1, 5, 0..16),
        vec![piece(0, 1, 134), piece(1, 15, 255), piece(15, 16, 255)]
    );
}

#[test]
fn nested_clips_narrow_to_their_parents() {
    let mut stack = ClipStack::default();
    stack.push(area(0, 0, 16, 16), radii(0));
    stack.push(area(4, 0, 20, 16), radii(0));
    assert_eq!(stack.current(), 2);
    let mut ranges = Vec::new();
    stack.line_ranges(3, &mut ranges);
    assert_eq!(ranges.len(), 2);
    let outer = ranges[0].unwrap();
    assert_eq!((outer.start, outer.end, outer.full_start, outer.full_end), (0, 16, 0, 16));
    let inner = ranges[1].unwrap();
    assert_eq!(inner.parent, 1);
    assert_eq!((inner.start, inner.end, inner.full_start, inner.full_end), (4, 16, 4, 16));
    assert_eq!(stack.for_each(2, 3, 0..30), vec![piece(4, 16, 255)]);

    stack.line_ranges(20, &mut ranges);
    assert_eq!(ranges, vec![None, None]);

    stack.pop();
    assert_eq!(stack.current(), 1);
    stack.pop();
    assert_eq!(stack.current(), 0);
    stack.clear();
    stack.line_ranges(3, &mut ranges);
    assert!(ranges.is_empty());
}

#[test]
fn bordered_row_edges() {
    let span = PhysicalRect { x: 0, y: 0, width: 16, height: 16 };
    let (y, border, edges) = line_edges(span, 0, radii(8), 2, [0, 0, 0, 0], 16);
    assert_eq!((y, border.0), (0, 32));
    let edges: Vec<u32> = edges.iter().map(|edge| edge.0).collect();
    assert_eq!(edges, vec![67, 128, 128, 128, 128, 128, 128, 189]);

    let (y, _, edges) = line_edges(span, 5, radii(8), 2, [0, 0, 0, 0], 16);
    assert_eq!(y, 5);
    let edges: Vec<u32> = edges.iter().map(|edge| edge.0).collect();
    assert_eq!(edges, vec![5, 10, 38, 45, 211, 218, 246, 251]);

    let (y, _, edges) = line_edges(span, 8, radii(0), 2, [0, 0, 0, 0], 16);
    assert_eq!(y, 7);
    let edges: Vec<u32> = edges.iter().map(|edge| edge.0).collect();
    assert_eq!(edges, vec![0, 0, 32, 32, 224, 224, 256, 256]);
}
