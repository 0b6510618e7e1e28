//! damage tracking between resolved command lists

use vstd::prelude::*;

use crate::command_list::CommandList;
use crate::damage::{all_nonempty, damage_covers, diff_lists, is_matching, minimal_damage, representable_lists, trimmed_damage};
use crate::geometry::PhysicalRect;

verus! {

/// damage that leaves nothing changed uncovered: its rectangles are non-empty,
/// it is empty between equal lists, and the commands outside some matching of
/// equal commands are covered by it
pub open spec fn conservative_damage(previous: CommandList, current: CommandList, damage: Seq<PhysicalRect>) -> bool {
    &&& all_nonempty(damage)
    &&& previous.values() == current.values() ==> damage.len() == 0
    &&& exists|m: Seq<(int, int)>|
        #![trigger is_matching(previous.values(), current.values(), m)]
        is_matching(previous.values(), current.values(), m) && (representable_lists(&previous, &current)
            ==> damage_covers(&previous, &current, m, damage))
}

/// computes conservative physical damage between resolved command lists
pub trait DamageTracker {
    fn damage(&mut self, previous: &CommandList, current: &CommandList, screen: PhysicalRect) -> (damage: &[PhysicalRect])
        requires
            previous.wf(),
            current.wf(),
        ensures
            conservative_damage(*previous, *current, damage@),
    ;
}

/// finds changed commands with a bounded Myers search
///
/// - matching commands at the start and end are skipped first
/// - a wavefront grows by edit distance until both sequences are covered
/// - backtracking turns insertions and removals into damage
/// - reaching the edit limit falls back to positional comparison
///
/// damage grows to the rectangle limit, then neighboring insertion-order pairs
/// are unioned to halve the list. growth and compaction repeat as needed.
pub struct MyersTracker {
    max_edits: usize,
    max_rectangles: usize,
    frontier: Vec<isize>,
    trace: Vec<isize>,
    damage: Vec<PhysicalRect>,
}

impl MyersTracker {
    #[verifier::type_invariant]
    spec fn limits_ok(&self) -> bool {
        self.max_rectangles > 0
    }

    pub closed spec fn edit_limit(&self) -> usize {
        self.max_edits
    }

    pub closed spec fn rectangle_limit(&self) -> usize {
        self.max_rectangles
    }

    /// the damage found by the last diff
    pub closed spec fn damage_view(&self) -> Seq<PhysicalRect> {
        self.damage@
    }

    pub closed spec fn frontier_view(&self) -> Seq<isize> {
        self.frontier@
    }

    pub closed spec fn trace_view(&self) -> Seq<isize> {
        self.trace@
    }

    pub fn new(max_edits: usize, max_rectangles: usize) -> (tracker: Self)
        requires
            max_rectangles > 0,
        ensures
            tracker.edit_limit() == max_edits,
            tracker.rectangle_limit() == max_rectangles,
            tracker.damage_view().len() == 0,
            tracker.frontier_view().len() == 0,
            tracker.trace_view().len() == 0,
    {
        MyersTracker { max_edits, max_rectangles, frontier: Vec::new(), trace: Vec::new(), damage: Vec::new() }
    }

    /// the damage from `previous` to `current`
    ///
    /// commands outside some matching of equivalent commands are covered by the
    /// damage, which never holds more than the rectangle limit; within the edit
    /// limit the matching is a longest one and, when the fewest edits fit the
    /// rectangle limit, the damage is the bounds of the non-empty unmatched
    /// commands, one rectangle each; otherwise the commands between the common prefix
    /// and suffix are compared by position
    pub fn diff(&mut self, previous: &CommandList, current: &CommandList) -> (damage: &[PhysicalRect])
        requires
            previous.wf(),
            current.wf(),
        ensures
            final(self).edit_limit() == old(self).edit_limit(),
            final(self).rectangle_limit() == old(self).rectangle_limit(),
            damage@ == final(self).damage_view(),
            damage@.len() <= old(self).rectangle_limit(),
            all_nonempty(damage@),
            previous.values() == current.values() ==> damage@.len() == 0,
            exists|m: Seq<(int, int)>|
                #![trigger is_matching(previous.values(), current.values(), m)]
                is_matching(previous.values(), current.values(), m) && (representable_lists(previous, current)
                    ==> damage_covers(previous, current, m, damage@)),
            final(self).frontier_view().len() <= 2 * old(self).edit_limit() + 3
                || final(self).frontier_view() == old(self).frontier_view(),
            final(self).trace_view().len() <= (old(self).edit_limit() + 1) * (old(self).edit_limit() + 2) / 2,
            trimmed_damage(previous, current, old(self).edit_limit() as int, old(self).rectangle_limit() as int, damage@),
            minimal_damage(previous, current, old(self).edit_limit() as int, old(self).rectangle_limit() as int, damage@),
    {
        proof {
            use_type_invariant(&*self);
        }
        let max_edits = self.max_edits;
        let max_rectangles = self.max_rectangles;
        let mut frontier = Vec::new();
        let mut trace = Vec::new();
        let mut damage = Vec::new();
        std::mem::swap(&mut frontier, &mut self.frontier);
        std::mem::swap(&mut trace, &mut self.trace);
        std::mem::swap(&mut damage, &mut self.damage);
        diff_lists(previous, current, max_edits, max_rectangles, &mut frontier, &mut trace, &mut damage);
        self.frontier = frontier;
        self.trace = trace;
        self.damage = damage;
        self.damage.as_slice()
    }

    /// the number of wavefront entries kept for the next search
    pub fn frontier_len(&self) -> (len: usize)
        ensures
            len == self.frontier_view().len(),
    {
        self.frontier.len()
    }

    /// the number of stored wavefront values kept for the next search
    pub fn trace_len(&self) -> (len: usize)
        ensures
            len == self.trace_view().len(),
    {
        self.trace.len()
    }
}

impl Default for MyersTracker {
    fn default() -> (tracker: Self)
        ensures
            tracker.edit_limit() == 8,
            tracker.rectangle_limit() == 32,
            tracker.damage_view().len() == 0,
            tracker.frontier_view().len() == 0,
            tracker.trace_view().len() == 0,
    {
        Self::new(8, 32)
    }
}

impl DamageTracker for MyersTracker {
    fn damage(&mut self, previous: &CommandList, current: &CommandList, screen: PhysicalRect) -> (damage: &[PhysicalRect])
        ensures
            damage@.len() <= old(self).rectangle_limit(),
    {
        self.diff(previous, current)
    }
}

/// draws resolved command lists; what it draws with is up to its implementor
pub trait Renderer {
    /// the commands and damage of the last frame drawn
    spec fn last_frame(&self) -> (CommandList, Seq<PhysicalRect>);

    /// renders `commands` where `damage` says; damage rectangles may overlap
    /// and are read as their union
    fn render(&mut self, commands: &CommandList, damage: &[PhysicalRect])
        ensures
            final(self).last_frame() == (*commands, damage@),
    ;
}

/// controls how resolved command lists are rendered and retained
pub trait Repaint {
    /// makes the next frame repaint the full screen
    fn invalidate(&mut self);

    fn render<R: Renderer>(&mut self, renderer: &mut R, commands: &mut CommandList, screen: PhysicalRect)
        requires
            old(commands).wf(),
    ;
}

/// repaints the full screen without retaining frame history
#[derive(Clone, Copy, Debug, Default)]
pub struct FullRepaint;

impl Repaint for FullRepaint {
    fn invalidate(&mut self) {
    }

    /// renders the whole screen
    fn render<R: Renderer>(&mut self, renderer: &mut R, commands: &mut CommandList, screen: PhysicalRect)
        ensures
            final(renderer).last_frame() == (*old(commands), seq![screen]),
            *final(commands) == *old(commands),
    {
        renderer.render(commands, &[screen]);
    }
}

/// the command list of the last frame rendered, which is always well formed
struct KeptCommands {
    list: CommandList,
}

impl KeptCommands {
    #[verifier::type_invariant]
    spec fn kept_wf(&self) -> bool {
        self.list.wf()
    }
}

/// repaints changed commands while retaining frame history
///
/// with `swapped`, the target alternates between two buffers, so each frame
/// also repaints what the previous frame damaged in the other buffer
pub struct IncrementalRepaint<D> {
    tracker: D,
    previous: KeptCommands,
    previous_damage: Vec<PhysicalRect>,
    render_damage: Vec<PhysicalRect>,
    swapped: bool,
    invalidated: bool,
}

impl<D: DamageTracker> IncrementalRepaint<D> {
    /// the commands of the last frame rendered
    pub closed spec fn previous_commands(&self) -> CommandList {
        self.previous.list
    }

    /// the damage of the last frame that the other buffer still lacks
    pub closed spec fn previous_damage(&self) -> Seq<PhysicalRect> {
        self.previous_damage@
    }

    /// the next frame repaints the full screen
    pub closed spec fn is_invalidated(&self) -> bool {
        self.invalidated
    }

    pub closed spec fn is_swapped(&self) -> bool {
        self.swapped
    }

    /// `swapped` retains damage needed by the other buffer
    pub fn new(tracker: D, swapped: bool) -> (repaint: Self)
        ensures
            repaint.is_invalidated(),
            repaint.is_swapped() == swapped,
            repaint.previous_damage().len() == 0,
            repaint.previous_commands().records().len() == 0,
    {
        IncrementalRepaint {
            tracker,
            previous: KeptCommands { list: CommandList::new() },
            previous_damage: Vec::new(),
            render_damage: Vec::new(),
            swapped,
            invalidated: true,
        }
    }

    /// the damage to render `commands` with: the full screen after an
    /// invalidation, otherwise what the tracker finds since the last frame; on a
    /// swapped target followed by the damage of the last frame, which is then
    /// replaced by this frame's own
    pub fn frame_damage(&mut self, commands: &CommandList, screen: PhysicalRect) -> (damage: &[PhysicalRect])
        requires
            commands.wf(),
        ensures
            !final(self).is_invalidated(),
            final(self).is_swapped() == old(self).is_swapped(),
            final(self).previous_commands() == old(self).previous_commands(),
            ({
                let carried = if old(self).is_swapped() { old(self).previous_damage() } else { Seq::empty() };
                let own = damage@.subrange(0, damage@.len() - carried.len());
                &&& damage@.len() >= carried.len()
                &&& damage@ == own + carried
                &&& old(self).is_invalidated() ==> own == seq![screen]
                &&& !old(self).is_invalidated() ==> conservative_damage(old(self).previous_commands(), *commands, own)
                &&& final(self).previous_damage() == if old(self).is_swapped() { own } else { Seq::empty() }
            }),
    {
        proof {
            use_type_invariant(&self.previous);
        }
        let mut out: Vec<PhysicalRect> = Vec::new();
        std::mem::swap(&mut out, &mut self.render_damage);
        out.clear();
        if self.invalidated {
            self.invalidated = false;
            out.push(screen);
        } else {
            let found = self.tracker.damage(&self.previous.list, commands, screen);
            let mut index: usize = 0;
            while index < found.len()
                invariant
                    index <= found@.len(),
                    out@ == found@.subrange(0, index as int),
                decreases found@.len() - index,
            {
                out.push(found[index]);
                index = index + 1;
                proof {
                    assert(out@ =~= found@.subrange(0, index as int));
                }
            }
            proof {
                assert(found@.subrange(0, index as int) =~= found@);
            }
        }
        let own = out.len();
        let ghost own_damage = out@;
        let mut kept: Vec<PhysicalRect> = Vec::new();
        std::mem::swap(&mut kept, &mut self.previous_damage);
        if self.swapped {
            let mut index: usize = 0;
            while index < kept.len()
                invariant
                    index <= kept@.len(),
                    own_damage.len() == own,
                    out@ == own_damage + kept@.subrange(0, index as int),
                decreases kept@.len() - index,
            {
                out.push(kept[index]);
                index = index + 1;
                proof {
                    assert(out@ =~= own_damage + kept@.subrange(0, index as int));
                }
            }
            proof {
                assert(kept@.subrange(0, index as int) =~= kept@);
            }
        } else {
            proof {
                assert(out@ =~= own_damage + Seq::<PhysicalRect>::empty());
            }
        }
        kept.clear();
        if self.swapped {
            let mut index: usize = 0;
            while index < own
                invariant
                    index <= own,
                    own_damage.len() == own,
                    out@.len() >= own,
                    out@.subrange(0, own as int) == own_damage,
                    kept@ == own_damage.subrange(0, index as int),
                decreases own - index,
            {
                let rect = out[index];
                proof {
                    assert(out@.subrange(0, own as int)[index as int] == rect);
                }
                kept.push(rect);
                index = index + 1;
                proof {
                    assert(kept@ =~= own_damage.subrange(0, index as int));
                }
            }
            proof {
                assert(own_damage.subrange(0, own as int) =~= own_damage);
            }
        }
        proof {
            assert(out@.subrange(0, own as int) =~= own_damage);
        }
        self.previous_damage = kept;
        self.render_damage = out;
        self.render_damage.as_slice()
    }

    /// keeps `commands` as the last frame's and hands back the list it replaces
    pub fn finish(&mut self, commands: &mut CommandList)
        requires
            old(commands).wf(),
        ensures
            final(self).previous_commands() == *old(commands),
            *final(commands) == old(self).previous_commands(),
            final(commands).wf(),
            final(self).previous_damage() == old(self).previous_damage(),
            final(self).is_invalidated() == old(self).is_invalidated(),
            final(self).is_swapped() == old(self).is_swapped(),
    {
        proof {
            use_type_invariant(&self.previous);
        }
        std::mem::swap(&mut self.previous.list, commands);
    }
}

impl<D: DamageTracker> Repaint for IncrementalRepaint<D> {
    /// the next frame repaints the full screen, and nothing is owed to the other buffer
    fn invalidate(&mut self)
        ensures
            final(self).is_invalidated(),
            final(self).previous_damage().len() == 0,
            final(self).is_swapped() == old(self).is_swapped(),
            final(self).previous_commands() == old(self).previous_commands(),
    {
        self.invalidated = true;
        self.previous_damage.clear();
    }

    /// renders the damage of `commands` and keeps them for the next frame
    fn render<R: Renderer>(&mut self, renderer: &mut R, commands: &mut CommandList, screen: PhysicalRect)
        ensures
            !final(self).is_invalidated(),
            final(self).is_swapped() == old(self).is_swapped(),
            final(self).previous_commands() == *old(commands),
            *final(commands) == old(self).previous_commands(),
            !old(self).is_swapped() ==> final(self).previous_damage().len() == 0,
            old(self).is_swapped() && old(self).is_invalidated() ==> final(self).previous_damage() == seq![screen],
            final(renderer).last_frame().0 == *old(commands),
            ({
                let damage = final(renderer).last_frame().1;
                let carried = if old(self).is_swapped() { old(self).previous_damage() } else { Seq::empty() };
                let own = damage.subrange(0, damage.len() - carried.len());
                &&& damage.len() >= carried.len()
                &&& damage == own + carried
                &&& old(self).is_invalidated() ==> own == seq![screen]
                &&& !old(self).is_invalidated() ==> conservative_damage(old(self).previous_commands(), *old(commands), own)
                &&& final(self).previous_damage() == if old(self).is_swapped() { own } else { Seq::empty() }
            }),
    {
        let damage = self.frame_damage(commands, screen);
        renderer.render(commands, damage);
        self.finish(commands);
    }
}

} // verus!
