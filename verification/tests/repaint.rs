use blit::command_list::{ClipId, CommandList};
use blit::geometry::PhysicalRect;
use vstd::seq::Seq;
use blit::repaint::{DamageTracker, FullRepaint, IncrementalRepaint, MyersTracker, Renderer, Repaint};

fn bounds(x: i32) -> PhysicalRect {
    PhysicalRect { x, y: 0, width: 10, height: 10 }
}

/// a text command whose content is identified by `id`
fn push_text(list: &mut CommandList, id: u64, x: i32, clip: ClipId) {
    list.push(bounds(x), clip, id);
}

#[test]
fn tracks_insertions_removals_and_changes() {
    let mut old = CommandList::new();
    push_text(&mut old, 1, 0, ClipId::default());
    push_text(&mut old, 3, 20, ClipId::default());
    let mut inserted = CommandList::new();
    push_text(&mut inserted, 1, 0, ClipId::default());
    push_text(&mut inserted, 2, 10, ClipId::default());
    push_text(&mut inserted, 3, 20, ClipId::default());
    let mut tracker = MyersTracker::default();

    assert_eq!(tracker.diff(&old, &inserted), &[bounds(10)]);
    assert_eq!(tracker.diff(&inserted, &old), &[bounds(10)]);

    let mut changed = CommandList::new();
    push_text(&mut changed, 4, 30, ClipId::default());
    let damage = tracker.diff(&old, &changed);
    assert!(damage.contains(&bounds(0)));
    assert!(damage.contains(&bounds(20)));
    assert!(damage.contains(&bounds(30)));
}

#[test]
fn compares_clip_chains_by_value() {
    let area = 10;
    let mut old = CommandList::new();
    let old_clip = old.push_clip(ClipId::default(), area);
    push_text(&mut old, 1, 0, old_clip);
    let mut new = CommandList::new();
    new.push_clip(ClipId::default(), 0);
    let new_clip = new.push_clip(ClipId::default(), area);
    push_text(&mut new, 1, 0, new_clip);
    let mut tracker = MyersTracker::default();

    assert!(tracker.diff(&old, &new).is_empty());
}

#[test]
fn bounds_output_and_search_storage() {
    let mut old = CommandList::new();
    let mut new = CommandList::new();
    for id in 0..40 {
        push_text(&mut old, id, id as i32, ClipId::default());
        push_text(&mut new, id + 100, id as i32 + 100, ClipId::default());
    }
    let mut tracker = MyersTracker::new(1, 2);

    assert_eq!(tracker.diff(&old, &new).len(), 2);
    assert!(tracker.trace_len() <= 3);
    assert!(tracker.frontier_len() <= 5);
}

#[test]
fn tracker_trait_reports_the_same_damage() {
    let mut old = CommandList::new();
    push_text(&mut old, 1, 0, ClipId::default());
    let mut new = CommandList::new();
    push_text(&mut new, 2, 0, ClipId::default());
    let mut tracker = MyersTracker::default();

    let damage = DamageTracker::damage(&mut tracker, &old, &new, bounds(0)).to_vec();
    assert_eq!(damage, vec![bounds(0), bounds(0)]);
}

/// records the damage of every frame it is asked to render
#[derive(Default)]
struct Recorder {
    frames: Vec<Vec<PhysicalRect>>,
}

impl Renderer for Recorder {
    fn last_frame(&self) -> (CommandList, Seq<PhysicalRect>) {
        unreachable!()
    }

    fn render(&mut self, _commands: &CommandList, damage: &[PhysicalRect]) {
        self.frames.push(damage.to_vec());
    }
}

fn screen() -> PhysicalRect {
    PhysicalRect { x: 0, y: 0, width: 640, height: 480 }
}

fn single(id: u64, x: i32) -> CommandList {
    let mut list = CommandList::new();
    push_text(&mut list, id, x, ClipId::default());
    list
}

#[test]
fn full_repaint_damages_the_whole_screen() {
    let mut repaint = FullRepaint::default();
    let mut renderer = Recorder::default();
    let mut commands = single(1, 0);

    repaint.render(&mut renderer, &mut commands, screen());
    repaint.render(&mut renderer, &mut commands, screen());

    assert_eq!(renderer.frames, vec![vec![screen()], vec![screen()]]);
}

#[test]
fn incremental_repaint_starts_with_the_whole_screen_then_diffs() {
    let mut repaint = IncrementalRepaint::new(MyersTracker::default(), false);
    let mut renderer = Recorder::default();

    repaint.render(&mut renderer, &mut single(1, 0), screen());
    repaint.render(&mut renderer, &mut single(1, 0), screen());
    repaint.render(&mut renderer, &mut single(2, 20), screen());

    assert_eq!(renderer.frames, vec![vec![screen()], vec![], vec![bounds(20), bounds(0)]]);
}

#[test]
fn invalidation_repaints_the_whole_screen_again() {
    let mut repaint = IncrementalRepaint::new(MyersTracker::default(), false);
    let mut renderer = Recorder::default();

    repaint.render(&mut renderer, &mut single(1, 0), screen());
    repaint.invalidate();
    repaint.render(&mut renderer, &mut single(1, 0), screen());

    assert_eq!(renderer.frames, vec![vec![screen()], vec![screen()]]);
}

#[test]
fn swapped_buffer_replays_damage_on_next_frame() {
    let mut repaint = IncrementalRepaint::new(MyersTracker::default(), true);
    let mut renderer = Recorder::default();

    repaint.render(&mut renderer, &mut single(1, 0), screen());
    repaint.render(&mut renderer, &mut single(2, 0), screen());
    repaint.render(&mut renderer, &mut single(2, 0), screen());
    repaint.render(&mut renderer, &mut single(2, 0), screen());

    assert_eq!(
        renderer.frames,
        vec![
            vec![screen()],
            vec![bounds(0), bounds(0), screen()],
            vec![bounds(0), bounds(0)],
            vec![],
        ]
    );
}

#[test]
fn render_keeps_the_commands_and_hands_back_the_previous_list() {
    let mut repaint = IncrementalRepaint::new(MyersTracker::default(), false);
    let mut renderer = Recorder::default();
    let mut first = single(1, 0);
    let mut second = single(2, 10);

    repaint.render(&mut renderer, &mut first, screen());
    assert_eq!(first.len(), 0);
    repaint.render(&mut renderer, &mut second, screen());
    assert_eq!(second.len(), 1);
    assert_eq!(renderer.frames[1].len(), 2);
    assert!(renderer.frames[1].contains(&bounds(0)));
    assert!(renderer.frames[1].contains(&bounds(10)));
}
