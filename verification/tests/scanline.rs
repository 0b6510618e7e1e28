use blit::geometry::PhysicalRect;
use blit::scanline::{
    advance_active, first_visible, next_busy_line, occlude, order_by_start, row_spans, should_split, Segment, MAX_SEGMENTS,
};

fn rect(x: i32, y: i32, width: i32, height: i32) -> PhysicalRect {
    PhysicalRect { x, y, width, height }
}

#[test]
fn overlapping_damage_merges_into_one_span() {
    let damage = [rect(0, 0, 10, 10), rect(5, 0, 10, 10), rect(30, 0, 5, 5)];
    assert_eq!(row_spans(&damage, 2, 100, 50), (vec![(0, 15), (30, 35)], 5));
    assert_eq!(row_spans(&damage, 7, 100, 50), (vec![(0, 15)], 10));
}

#[test]
fn touching_damage_merges_and_gaps_stay_apart() {
    let damage = [rect(5, 0, 5, 5), rect(0, 0, 5, 5), rect(11, 0, 4, 5)];
    assert_eq!(row_spans(&damage, 0, 100, 50), (vec![(0, 10), (11, 15)], 5));
}

#[test]
fn damage_below_the_row_only_bounds_the_rows_it_applies_to() {
    let damage = [rect(0, 20, 10, 10)];
    assert_eq!(row_spans(&damage, 2, 100, 50), (vec![], 20));
    assert_eq!(row_spans(&[], 2, 100, 50), (vec![], 50));
}

#[test]
fn damage_is_clamped_to_the_surface() {
    let damage = [rect(-5, -5, 10, 100), rect(i32::MAX - 1, 0, 10, 10)];
    assert_eq!(row_spans(&damage, 3, 3, 8), (vec![(0, 3)], 8));
}

#[test]
fn active_commands_follow_their_vertical_bounds() {
    let vertical = [(0, 5), (2, 4), (3, 10), (6, 8)];
    let starts = [0usize, 1, 2, 3];
    let mut active = Vec::new();

    let taken = advance_active(&mut active, &starts, 0, &vertical, 0);
    assert_eq!((taken, active.clone()), (1, vec![0]));
    let taken = advance_active(&mut active, &starts, taken, &vertical, 2);
    assert_eq!((taken, active.clone()), (2, vec![0, 1]));
    let taken = advance_active(&mut active, &starts, taken, &vertical, 3);
    assert_eq!((taken, active.clone()), (3, vec![0, 1, 2]));
    let taken = advance_active(&mut active, &starts, taken, &vertical, 4);
    assert_eq!((taken, active.clone()), (3, vec![0, 2]));
    let taken = advance_active(&mut active, &starts, taken, &vertical, 6);
    assert_eq!((taken, active.clone()), (4, vec![2, 3]));
    let taken = advance_active(&mut active, &starts, taken, &vertical, 10);
    assert_eq!((taken, active.clone()), (4, vec![]));
}

#[test]
fn commands_that_end_before_their_row_never_join() {
    let vertical = [(0, 1), (5, 9)];
    let starts = [0usize, 1];
    let mut active = Vec::new();
    let taken = advance_active(&mut active, &starts, 0, &vertical, 3);
    assert_eq!((taken, active.clone()), (1, vec![]));
    assert_eq!(next_busy_line(&starts, taken, &vertical, 3, 100), 5);
    assert_eq!(next_busy_line(&starts, taken, &vertical, 3, 4), 4);
    assert_eq!(next_busy_line(&starts, 2, &vertical, 3, 40), 40);
}

fn segment(start: usize, end: usize, first: Option<usize>) -> Segment {
    Segment { start, end, first }
}

#[test]
fn occluders_split_unassigned_segments() {
    let mut segments = vec![segment(0, 10, None)];
    occlude(&mut segments, 3, 6, 2);
    assert_eq!(segments, vec![segment(0, 3, None), segment(3, 6, Some(2)), segment(6, 10, None)]);
    occlude(&mut segments, 0, 4, 5);
    assert_eq!(segments, vec![segment(0, 3, Some(5)), segment(3, 6, Some(2)), segment(6, 10, None)]);
    occlude(&mut segments, 8, 20, 1);
    assert_eq!(
        segments,
        vec![segment(0, 3, Some(5)), segment(3, 6, Some(2)), segment(6, 8, None), segment(8, 10, Some(1))]
    );
}

#[test]
fn splits_beyond_the_segment_limit_are_refused() {
    let mut segments: Vec<Segment> = (0..MAX_SEGMENTS - 1).map(|k| segment(k * 10, k * 10 + 10, None)).collect();
    occlude(&mut segments, 3, 6, 7);
    assert_eq!(segments.len(), MAX_SEGMENTS - 1);
    assert_eq!(segments[0], segment(0, 10, None));
    occlude(&mut segments, 10, 15, 7);
    assert_eq!(segments.len(), MAX_SEGMENTS);
    assert_eq!(segments[1], segment(10, 15, Some(7)));
    assert_eq!(segments[2], segment(15, 20, None));
}

#[test]
fn commands_are_ordered_by_vertical_start_then_index() {
    let vertical = [(5, 9), (0, 3), (5, 6), (2, 8), (0, 1)];

    assert_eq!(order_by_start(&vertical), vec![1, 4, 3, 0, 2]);
    assert!(order_by_start(&[]).is_empty());
}

#[test]
fn the_last_opaque_command_covering_a_range_hides_those_below() {
    let vertical = [(0, 10), (0, 10), (0, 10), (5, 10)];
    let spans = [Some((0, 100)), Some((10, 20)), Some((0, 50)), Some((0, 100))];
    let active = [0, 1, 2];
    let opaque = [0, 1, 2, 3];

    assert_eq!(first_visible(&active, &opaque, &vertical, &spans, 2, 5, 40), 2);
    assert_eq!(first_visible(&active, &opaque, &vertical, &spans, 2, 40, 90), 0);
    assert_eq!(first_visible(&active, &opaque, &vertical, &spans, 2, 12, 18), 2);
    assert_eq!(first_visible(&active, &[0, 1], &vertical, &spans, 2, 12, 18), 1);
}

#[test]
fn a_range_is_split_when_a_half_covering_opaque_command_hides_an_expensive_one() {
    let vertical = [(0, 10), (0, 10), (0, 10)];
    let horizontal = [(0, 100), (20, 30), (0, 100)];
    let spans = [None, None, Some((0, 60))];
    let opaque = [2];

    assert!(should_split(0, &opaque, &[1], &vertical, &horizontal, &spans, 3, 0, 100));
    assert!(!should_split(1, &opaque, &[1], &vertical, &horizontal, &spans, 3, 0, 100));
    assert!(!should_split(0, &opaque, &[], &vertical, &horizontal, &spans, 3, 0, 100));
    assert!(!should_split(0, &opaque, &[1], &vertical, &horizontal, &spans, 3, 0, 200));
    assert!(!should_split(0, &opaque, &[1], &vertical, &horizontal, &spans, 3, 40, 100));
}
