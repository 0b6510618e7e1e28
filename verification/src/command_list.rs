//! resolved renderer commands, reduced to what damage tracking compares
//!
//! a command is its physical bounds, the clip chain it is drawn in and a key
//! that identifies its paint content; two commands are equivalent when all
//! three agree, with clip chains compared by the shapes along them

use vstd::prelude::*;

use crate::damage::{all_nonempty, diff_lists, damage_covers, is_matching, minimal_damage, representable_lists, trimmed_damage};
use crate::geometry::PhysicalRect;

verus! {

/// a clip in a command list; `ClipId(0)` is the unclipped root
#[derive(Clone, Copy, Debug, Default, PartialEq, Eq, Hash, Structural)]
pub struct ClipId(pub u32);

/// a clip shape and the clip it nests in
#[derive(Clone, Copy, Debug, PartialEq, Eq, Structural)]
pub struct ClipNode {
    pub parent: ClipId,
    pub shape: u64,
}

/// one resolved command
#[derive(Clone, Copy, Debug, PartialEq, Eq, Structural)]
pub struct Record {
    pub bounds: PhysicalRect,
    pub clip: ClipId,
    pub content: u64,
}

/// what makes two commands equivalent: bounds, content and clip shapes
pub type CommandValue = (PhysicalRect, u64, Seq<u64>);

/// the most commands a list holds: a record takes thirty-two bytes, so no
/// allocation holds more
pub const MAX_COMMANDS: usize = usize::MAX / 32;

/// the shapes along a clip chain, innermost first
pub open spec fn chain(clips: Seq<ClipNode>, id: u32) -> Seq<u64>
    decreases id,
{
    if id == 0 || id as int > clips.len() {
        Seq::empty()
    } else {
        let node = clips[id - 1];
        if node.parent.0 >= id {
            seq![node.shape]
        } else {
            seq![node.shape] + chain(clips, node.parent.0)
        }
    }
}

/// resolved commands with their clip chains
pub struct CommandList {
    commands: Vec<Record>,
    clips: Vec<ClipNode>,
}

impl CommandList {
    pub closed spec fn records(&self) -> Seq<Record> {
        self.commands@
    }

    pub closed spec fn clip_nodes(&self) -> Seq<ClipNode> {
        self.clips@
    }

    /// every clip nests in an earlier one and every command names an existing clip
    pub open spec fn wf(&self) -> bool {
        &&& self.records().len() <= MAX_COMMANDS
        &&& forall|i: int|
            0 <= i < self.clip_nodes().len() ==> (#[trigger] self.clip_nodes()[i]).parent.0 <= i
        &&& forall|i: int|
            0 <= i < self.records().len() ==> (#[trigger] self.records()[i]).clip.0 <= self.clip_nodes().len()
    }

    /// the shapes along a clip chain of this list
    pub open spec fn clip_chain(&self, id: ClipId) -> Seq<u64> {
        chain(self.clip_nodes(), id.0)
    }

    /// the value a command is compared by
    pub open spec fn value(&self, index: int) -> CommandValue {
        let record = self.records()[index];
        (record.bounds, record.content, self.clip_chain(record.clip))
    }

    /// the values of all commands, in order
    pub open spec fn values(&self) -> Seq<CommandValue> {
        Seq::new(self.records().len(), |i: int| self.value(i))
    }

    /// an empty list
    pub fn new() -> (list: Self)
        ensures
            list.wf(),
            list.records() == Seq::<Record>::empty(),
            list.clip_nodes() == Seq::<ClipNode>::empty(),
    {
        CommandList { commands: Vec::new(), clips: Vec::new() }
    }

    pub fn len(&self) -> (len: usize)
        ensures
            len == self.records().len(),
    {
        self.commands.len()
    }

    pub fn is_empty(&self) -> (empty: bool)
        ensures
            empty == (self.records().len() == 0),
    {
        self.commands.len() == 0
    }

    /// declares a clip nested in `parent`
    pub fn push_clip(&mut self, parent: ClipId, shape: u64) -> (id: ClipId)
        requires
            old(self).wf(),
            parent.0 <= old(self).clip_nodes().len(),
            old(self).clip_nodes().len() < u32::MAX,
        ensures
            final(self).wf(),
            id.0 == old(self).clip_nodes().len() + 1,
            final(self).clip_nodes() == old(self).clip_nodes().push(ClipNode { parent, shape }),
            final(self).records() == old(self).records(),
            final(self).clip_chain(id) == seq![shape] + old(self).clip_chain(parent),
    {
        let id = (self.clips.len() + 1) as u32;
        self.clips.push(ClipNode { parent, shape });
        proof {
            lemma_chain_extend(old(self).clips@, ClipNode { parent, shape });
            assert forall|c: u32| c <= old(self).clips@.len() implies chain(self.clips@, c) == chain(old(self).clips@, c) by {
                lemma_chain_keep(old(self).clips@, ClipNode { parent, shape }, c);
            }
        }
        ClipId(id)
    }

    /// the clip with this id, or `None` for the root
    pub fn clip(&self, id: ClipId) -> (node: Option<&ClipNode>)
        ensures
            id.0 == 0 || id.0 > self.clip_nodes().len() ==> node.is_none(),
            0 < id.0 <= self.clip_nodes().len() ==> node == Some(&self.clip_nodes()[id.0 - 1]),
    {
        if id.0 == 0 || id.0 as usize > self.clips.len() {
            None
        } else {
            Some(&self.clips[(id.0 - 1) as usize])
        }
    }

    pub fn clips(&self) -> (clips: &[ClipNode])
        ensures
            clips@ == self.clip_nodes(),
    {
        self.clips.as_slice()
    }

    /// appends a command drawn in `clip`
    pub fn push(&mut self, bounds: PhysicalRect, clip: ClipId, content: u64)
        requires
            old(self).wf(),
            clip.0 <= old(self).clip_nodes().len(),
            old(self).records().len() < MAX_COMMANDS,
        ensures
            final(self).wf(),
            final(self).records() == old(self).records().push(Record { bounds, clip, content }),
            final(self).clip_nodes() == old(self).clip_nodes(),
    {
        self.commands.push(Record { bounds, clip, content });
    }

    /// the command at `index`
    pub fn get(&self, index: usize) -> (record: Record)
        requires
            index < self.records().len(),
        ensures
            record == self.records()[index as int],
    {
        self.commands[index]
    }

    /// the storage reserved for commands and for clips
    ///
    /// each holds at least as many as are stored; the rest depends on the
    /// allocator
    pub fn capacities(&self) -> (capacities: (usize, usize))
        ensures
            capacities.0 >= self.records().len(),
            capacities.1 >= self.clip_nodes().len(),
    {
        (vec_capacity(&self.commands), vec_capacity(&self.clips))
    }

    /// removes every command and clip; reserved storage is kept
    pub fn clear(&mut self)
        ensures
            final(self).wf(),
            final(self).records() == Seq::<Record>::empty(),
            final(self).clip_nodes() == Seq::<ClipNode>::empty(),
    {
        self.commands.clear();
        self.clips.clear();
    }

    /// whether the command at `index` and the one at `other_index` of `other` paint alike
    pub fn equivalent(&self, index: usize, other: &CommandList, other_index: usize) -> (same: bool)
        requires
            self.wf(),
            other.wf(),
            index < self.records().len(),
            other_index < other.records().len(),
        ensures
            same == (self.value(index as int) == other.value(other_index as int)),
    {
        let left = self.commands[index];
        let right = other.commands[other_index];
        if left.bounds.x != right.bounds.x || left.bounds.y != right.bounds.y || left.bounds.width
            != right.bounds.width || left.bounds.height != right.bounds.height {
            return false;
        }
        if left.content != right.content {
            return false;
        }
        self.clips_equal(left.clip, other, right.clip)
    }

    /// whether two clip chains hold the same shapes
    pub fn clips_equal(&self, clip: ClipId, other: &CommandList, other_clip: ClipId) -> (same: bool)
        requires
            self.wf(),
            other.wf(),
            clip.0 <= self.clip_nodes().len(),
            other_clip.0 <= other.clip_nodes().len(),
        ensures
            same == (self.clip_chain(clip) == other.clip_chain(other_clip)),
    {
        let ghost first = self.clip_chain(clip);
        let ghost other_first = other.clip_chain(other_clip);
        let mut a = clip;
        let mut b = other_clip;
        loop
            invariant
                self.wf(),
                other.wf(),
                a.0 <= self.clip_nodes().len(),
                b.0 <= other.clip_nodes().len(),
                (first == other_first) == (self.clip_chain(a) == other.clip_chain(b)),
                first == self.clip_chain(clip),
                other_first == other.clip_chain(other_clip),
            decreases a.0,
        {
            if a.0 == 0 && b.0 == 0 {
                return true;
            }
            if a.0 == 0 || b.0 == 0 {
                proof {
                    assert(self.clip_chain(a).len() != other.clip_chain(b).len());
                }
                return false;
            }
            let left = self.clips[(a.0 - 1) as usize];
            let right = other.clips[(b.0 - 1) as usize];
            proof {
                assert(self.clip_nodes()[a.0 - 1] == left);
                assert(other.clip_nodes()[b.0 - 1] == right);
            }
            if left.shape != right.shape {
                proof {
                    assert(self.clip_chain(a)[0] != other.clip_chain(b)[0]);
                }
                return false;
            }
            proof {
                let ca = self.clip_chain(a);
                let cb = other.clip_chain(b);
                let pa = self.clip_chain(left.parent);
                let pb = other.clip_chain(right.parent);
                assert(ca == seq![left.shape] + pa);
                assert(cb == seq![right.shape] + pb);
                if pa == pb {
                    assert(ca =~= cb);
                }
                if ca == cb {
                    assert(pa =~= ca.drop_first());
                    assert(pb =~= cb.drop_first());
                }
            }
            a = left.parent;
            b = right.parent;
        }
    }
}

/// `Vec::capacity`: the number of elements the vector can hold without
/// reallocating, which is never less than its length; nothing more is claimed
/// of the value, which depends on the allocator
#[verifier::external_body]
fn vec_capacity<T>(v: &Vec<T>) -> (capacity: usize)
    ensures
        capacity >= v.len(),
{
    v.capacity()
}

/// limits of the damage search
#[derive(Clone, Copy, Debug, PartialEq, Eq, Structural)]
pub struct CommandDiffConfig {
    pub max_edits: usize,
    pub max_rectangles: usize,
}

impl Default for CommandDiffConfig {
    fn default() -> (config: Self)
        ensures
            config.max_edits == 8,
            config.max_rectangles == 32,
    {
        CommandDiffConfig { max_edits: 8, max_rectangles: 32 }
    }
}

/// finds the damage between consecutive command lists with a bounded Myers search
pub struct CommandListDiffer {
    config: CommandDiffConfig,
    frontier: Vec<isize>,
    trace: Vec<isize>,
    damage: Vec<PhysicalRect>,
}

impl CommandListDiffer {
    pub closed spec fn config_view(&self) -> CommandDiffConfig {
        self.config
    }

    /// the damage found by the last diff
    pub closed spec fn damage_view(&self) -> Seq<PhysicalRect> {
        self.damage@
    }

    pub closed spec fn frontier_view(&self) -> Seq<isize> {
        self.frontier@
    }

    pub closed spec fn trace_view(&self) -> Seq<isize> {
        self.trace@
    }

    pub open spec fn wf(&self) -> bool {
        self.config_view().max_rectangles > 0
    }

    pub fn new(config: CommandDiffConfig) -> (differ: Self)
        requires
            config.max_rectangles > 0,
        ensures
            differ.wf(),
            differ.config_view() == config,
            differ.damage_view().len() == 0,
            differ.frontier_view().len() == 0,
            differ.trace_view().len() == 0,
    {
        CommandListDiffer { config, frontier: Vec::new(), trace: Vec::new(), damage: Vec::new() }
    }

    pub fn set_config(&mut self, config: CommandDiffConfig)
        requires
            config.max_rectangles > 0,
        ensures
            final(self).wf(),
            final(self).config_view() == config,
            final(self).damage_view() == old(self).damage_view(),
    {
        self.config = config;
    }

    /// the damage from `previous` to `current`
    ///
    /// commands outside some matching of equivalent commands are covered by the
    /// damage, which never holds more than the configured number of rectangles;
    /// within the edit limit the matching is a longest one and, when the fewest
    /// edits fit the rectangle limit, the damage is the bounds of the non-empty
    /// unmatched commands, one rectangle each; otherwise the commands between the
    /// common prefix and suffix are compared by position
    pub fn diff(&mut self, previous: &CommandList, current: &CommandList) -> (damage: &[PhysicalRect])
        requires
            old(self).wf(),
            previous.wf(),
            current.wf(),
        ensures
            final(self).wf(),
            final(self).config_view() == old(self).config_view(),
            damage@ == final(self).damage_view(),
            damage@.len() <= old(self).config_view().max_rectangles,
            all_nonempty(damage@),
            previous.values() == current.values() ==> damage@.len() == 0,
            exists|m: Seq<(int, int)>|
                #![trigger is_matching(previous.values(), current.values(), m)]
                is_matching(previous.values(), current.values(), m) && (representable_lists(previous, current)
                    ==> damage_covers(previous, current, m, damage@)),
            final(self).frontier_view().len() <= 2 * old(self).config_view().max_edits + 3
                || final(self).frontier_view() == old(self).frontier_view(),
            final(self).trace_view().len() <= (old(self).config_view().max_edits + 1) * (
            old(self).config_view().max_edits + 2) / 2,
            trimmed_damage(
                previous,
                current,
                old(self).config_view().max_edits as int,
                old(self).config_view().max_rectangles as int,
                damage@,
            ),
            minimal_damage(
                previous,
                current,
                old(self).config_view().max_edits as int,
                old(self).config_view().max_rectangles as int,
                damage@,
            ),
    {
        diff_lists(
            previous,
            current,
            self.config.max_edits,
            self.config.max_rectangles,
            &mut self.frontier,
            &mut self.trace,
            &mut self.damage,
        );
        self.damage.as_slice()
    }

    /// the number of wavefront entries kept for the next search
    pub fn frontier_len(&self) -> (len: usize)
        ensures
            len == self.frontier_view().len(),
    {
        self.frontier.len()
    }

    /// the number of stored wavefront values kept for the next search
    pub fn trace_len(&self) -> (len: usize)
        ensures
            len == self.trace_view().len(),
    {
        self.trace.len()
    }
}

impl Default for CommandListDiffer {
    fn default() -> (differ: Self)
        ensures
            differ.wf(),
            differ.config_view().max_edits == 8,
            differ.config_view().max_rectangles == 32,
            differ.damage_view().len() == 0,
            differ.frontier_view().len() == 0,
            differ.trace_view().len() == 0,
    {
        Self::new(CommandDiffConfig { max_edits: 8, max_rectangles: 32 })
    }
}

/// appending a clip leaves every existing chain alone
proof fn lemma_chain_keep(clips: Seq<ClipNode>, node: ClipNode, id: u32)
    requires
        id <= clips.len(),
        forall|i: int| 0 <= i < clips.len() ==> (#[trigger] clips[i]).parent.0 <= i,
    ensures
        chain(clips.push(node), id) == chain(clips, id),
    decreases id,
{
    if id > 0 {
        let parent = clips[id - 1].parent.0;
        assert(clips[id - 1].parent.0 <= id - 1);
        lemma_chain_keep(clips, node, parent);
    }
}

/// an appended clip extends the chain of its parent
proof fn lemma_chain_extend(clips: Seq<ClipNode>, node: ClipNode)
    requires
        clips.len() < u32::MAX,
        forall|i: int| 0 <= i < clips.len() ==> (#[trigger] clips[i]).parent.0 <= i,
        node.parent.0 <= clips.len(),
    ensures
        chain(clips.push(node), (clips.len() + 1) as u32) == seq![node.shape] + chain(clips, node.parent.0),
{
    lemma_chain_keep(clips, node, node.parent.0);
    assert(clips.push(node)[clips.len() as int] == node);
}

} // verus!
