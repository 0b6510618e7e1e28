use blit::command_list::{ClipId, CommandDiffConfig, CommandList, CommandListDiffer};
use blit::geometry::PhysicalRect;

fn bounds(x: i32) -> PhysicalRect {
    PhysicalRect { x, y: 0, width: 10, height: 10 }
}

/// a text command whose content is identified by `id`
fn push_text(list: &mut CommandList, id: u64, x: i32, clip: ClipId) {
    list.push(bounds(x), clip, id);
}

#[test]
fn clear_retains_owned_storage() {
    let mut list = CommandList::new();
    let clip = list.push_clip(ClipId::default(), 1);
    push_text(&mut list, 1, 0, clip);
    let capacities = list.capacities();

    list.clear();

    assert!(list.is_empty());
    assert!(list.clips().is_empty());
    assert_eq!(list.capacities(), capacities);
}

#[test]
fn command_list_diff_tracks_insertions_removals_and_changes() {
    let mut old = CommandList::new();
    push_text(&mut old, 1, 0, ClipId::default());
    push_text(&mut old, 3, 20, ClipId::default());
    let mut inserted = CommandList::new();
    push_text(&mut inserted, 1, 0, ClipId::default());
    push_text(&mut inserted, 2, 10, ClipId::default());
    push_text(&mut inserted, 3, 20, ClipId::default());
    let mut differ = CommandListDiffer::default();

    assert_eq!(differ.diff(&old, &inserted), &[bounds(10)]);
    assert_eq!(differ.diff(&inserted, &old), &[bounds(10)]);

    let mut changed = CommandList::new();
    push_text(&mut changed, 4, 30, ClipId::default());
    let damage = differ.diff(&old, &changed);
    assert!(damage.contains(&bounds(0)));
    assert!(damage.contains(&bounds(20)));
    assert!(damage.contains(&bounds(30)));
}

#[test]
fn command_list_diff_compares_clip_chains_by_value() {
    let area = 10;
    let empty_area = 0;
    let mut old = CommandList::new();
    let old_clip = old.push_clip(ClipId::default(), area);
    push_text(&mut old, 1, 0, old_clip);
    let mut new = CommandList::new();
    new.push_clip(ClipId::default(), empty_area);
    let new_clip = new.push_clip(ClipId::default(), area);
    push_text(&mut new, 1, 0, new_clip);
    let mut differ = CommandListDiffer::default();

    assert!(differ.diff(&old, &new).is_empty());
}

#[test]
fn diff_bounds_output_and_search_storage() {
    let mut old = CommandList::new();
    let mut new = CommandList::new();
    for id in 0..40 {
        push_text(&mut old, id, id as i32, ClipId::default());
        push_text(&mut new, id + 100, id as i32 + 100, ClipId::default());
    }
    let config = CommandDiffConfig { max_edits: 1, max_rectangles: 2 };
    let mut differ = CommandListDiffer::new(config);

    assert_eq!(differ.diff(&old, &new).len(), config.max_rectangles);
    assert!(differ.trace_len() <= 3);
    assert!(differ.frontier_len() <= config.max_edits * 2 + 3);
}

#[test]
fn identical_lists_have_no_damage() {
    let mut old = CommandList::new();
    let mut new = CommandList::new();
    for id in 0..5 {
        push_text(&mut old, id, id as i32 * 10, ClipId::default());
        push_text(&mut new, id, id as i32 * 10, ClipId::default());
    }
    let mut differ = CommandListDiffer::default();
    assert!(differ.diff(&old, &new).is_empty());
}

#[test]
fn empty_bounds_are_not_damage() {
    let old = CommandList::new();
    let mut new = CommandList::new();
    new.push(PhysicalRect { x: 0, y: 0, width: 0, height: 10 }, ClipId::default(), 1);
    let mut differ = CommandListDiffer::default();
    assert!(differ.diff(&old, &new).is_empty());
}

#[test]
fn full_damage_list_halves_by_union() {
    let old = CommandList::new();
    let mut new = CommandList::new();
    for id in 0..3 {
        push_text(&mut new, id, id as i32 * 10, ClipId::default());
    }
    let mut differ = CommandListDiffer::new(CommandDiffConfig { max_edits: 8, max_rectangles: 2 });
    let damage = differ.diff(&old, &new);
    assert_eq!(damage, &[PhysicalRect { x: 0, y: 0, width: 20, height: 10 }, bounds(20)]);
}

#[test]
fn clip_chain_comparison_walks_parents() {
    let mut left = CommandList::new();
    let outer = left.push_clip(ClipId::default(), 1);
    let inner = left.push_clip(outer, 2);
    let mut right = CommandList::new();
    let other_outer = right.push_clip(ClipId::default(), 3);
    let other_inner = right.push_clip(other_outer, 2);
    assert!(!left.clips_equal(inner, &right, other_inner));
    assert!(left.clips_equal(outer, &left, outer));
    assert_eq!(left.clip(ClipId(0)), None);
    assert_eq!(left.clip(inner).unwrap().parent, outer);
}

#[test]
fn removal_at_the_end_damages_only_the_removed_command() {
    let mut old = CommandList::new();
    old.push(PhysicalRect { x: 0, y: 0, width: 10, height: 10 }, ClipId::default(), 1);
    old.push(PhysicalRect { x: 10, y: 0, width: 10, height: 10 }, ClipId::default(), 2);
    let mut new = CommandList::new();
    new.push(PhysicalRect { x: 0, y: 0, width: 10, height: 10 }, ClipId::default(), 1);
    let mut differ = CommandListDiffer::new(CommandDiffConfig { max_edits: 0, max_rectangles: 4 });

    assert_eq!(differ.diff(&old, &new), &[PhysicalRect { x: 10, y: 0, width: 10, height: 10 }]);
}

#[test]
fn no_edits_allowed_compares_positions() {
    let mut old = CommandList::new();
    old.push(PhysicalRect { x: 0, y: 0, width: 10, height: 10 }, ClipId::default(), 1);
    old.push(PhysicalRect { x: 10, y: 0, width: 10, height: 10 }, ClipId::default(), 2);
    let mut new = CommandList::new();
    new.push(PhysicalRect { x: 10, y: 0, width: 10, height: 10 }, ClipId::default(), 2);
    new.push(PhysicalRect { x: 20, y: 0, width: 10, height: 10 }, ClipId::default(), 3);
    let mut differ = CommandListDiffer::new(CommandDiffConfig { max_edits: 0, max_rectangles: 8 });

    assert_eq!(
        differ.diff(&old, &new),
        &[
            PhysicalRect { x: 0, y: 0, width: 10, height: 10 },
            PhysicalRect { x: 10, y: 0, width: 10, height: 10 },
            PhysicalRect { x: 10, y: 0, width: 10, height: 10 },
            PhysicalRect { x: 20, y: 0, width: 10, height: 10 },
        ]
    );
}

fn shifted_lists() -> (CommandList, CommandList) {
    let mut old = CommandList::new();
    old.push(bounds(0), ClipId::default(), 1);
    old.push(bounds(10), ClipId::default(), 2);
    let mut new = CommandList::new();
    new.push(bounds(10), ClipId::default(), 2);
    new.push(bounds(20), ClipId::default(), 3);
    (old, new)
}

#[test]
fn search_within_the_edit_limit_damages_only_unmatched_commands() {
    let (old, new) = shifted_lists();
    let mut differ = CommandListDiffer::default();
    let damage = differ.diff(&old, &new).to_vec();

    assert_eq!(damage.len(), 2);
    assert!(damage.contains(&bounds(0)));
    assert!(damage.contains(&bounds(20)));
}

#[test]
fn more_edits_than_allowed_falls_back_to_positions() {
    let (old, new) = shifted_lists();
    let mut differ = CommandListDiffer::new(CommandDiffConfig { max_edits: 1, max_rectangles: 8 });

    assert_eq!(differ.diff(&old, &new), &[bounds(0), bounds(10), bounds(10), bounds(20)]);
}

fn lcs(left: &[u64], right: &[u64]) -> usize {
    let mut lengths = [[0usize; 9]; 9];
    for left_index in 0..left.len() {
        for right_index in 0..right.len() {
            lengths[left_index + 1][right_index + 1] = if left[left_index] == right[right_index] {
                lengths[left_index][right_index] + 1
            } else {
                lengths[left_index][right_index + 1].max(lengths[left_index + 1][right_index])
            };
        }
    }
    lengths[left.len()][right.len()]
}

#[test]
fn diff_matches_minimum_edit_distance() {
    let mut random = 1u64;
    let mut old = CommandList::new();
    let mut new = CommandList::new();
    let mut differ = CommandListDiffer::new(CommandDiffConfig { max_edits: 64, max_rectangles: 64 });
    for _ in 0..500 {
        let mut old_values = [0u64; 8];
        let mut new_values = [0u64; 8];
        random = random.wrapping_mul(6_364_136_223_846_793_005).wrapping_add(1);
        let old_len = ((random >> 32) as usize) % 9;
        random = random.wrapping_mul(6_364_136_223_846_793_005).wrapping_add(1);
        let new_len = ((random >> 32) as usize) % 9;
        old.clear();
        new.clear();
        for value in &mut old_values[..old_len] {
            random = random.wrapping_mul(6_364_136_223_846_793_005).wrapping_add(1);
            *value = random >> 61;
            old.push(bounds(*value as i32), ClipId::default(), *value);
        }
        for value in &mut new_values[..new_len] {
            random = random.wrapping_mul(6_364_136_223_846_793_005).wrapping_add(1);
            *value = random >> 61;
            new.push(bounds(*value as i32), ClipId::default(), *value);
        }
        let common = lcs(&old_values[..old_len], &new_values[..new_len]);
        assert_eq!(differ.diff(&old, &new).len(), old_len + new_len - common * 2);
    }
}

#[test]
fn damage_is_the_bounds_of_the_unmatched_commands() {
    let mut old = CommandList::new();
    for (x, id) in [(0, 1), (10, 2), (20, 3), (30, 4)] {
        old.push(bounds(x), ClipId::default(), id);
    }
    let mut new = CommandList::new();
    for (x, id) in [(10, 2), (40, 5), (30, 4), (50, 6)] {
        new.push(bounds(x), ClipId::default(), id);
    }
    let mut differ = CommandListDiffer::default();
    let damage = differ.diff(&old, &new).to_vec();

    assert_eq!(damage.len(), 4);
    for x in [0, 20, 40, 50] {
        assert!(damage.contains(&bounds(x)));
    }
}
