//! stable widget identity, interaction requests and retained geometry

use std::collections::hash_map::DefaultHasher;
use std::hash::{Hash, Hasher};

use vstd::prelude::*;
use vstd::std_specs::hash::DefaultHasherAdditionalSpecFns;

use crate::input::PointerButton;

verus! {

/// `Hash::hash` of `source` into `hasher`: what it writes is up to the
/// source's `Hash` implementation, which reaches the hasher only through the
/// `Hasher` methods, each of which adds bytes to what was written; so the writes
/// made before stay at the front, and nothing more is claimed of what follows
#[verifier::external_body]
fn hash_into<S: Hash>(source: &S, hasher: &mut DefaultHasher)
    ensures
        old(hasher)@.is_prefix_of(final(hasher)@),
{
    source.hash(hasher);
}

/// a widget identity that is stable across frames
#[derive(Clone, Copy, Debug, PartialEq, Eq, PartialOrd, Ord, Hash, Structural)]
pub struct WidgetId(u64);

impl WidgetId {
    pub closed spec fn raw(self) -> u64 {
        self.0
    }

    /// the id hashed from `source` with the standard library's default hasher
    ///
    /// `DefaultHasher::new` starts from fixed keys, so equal sources give equal
    /// ids; the id finishes what the source's `Hash` implementation wrote
    pub fn new<S: Hash>(source: S) -> (id: Self)
        ensures
            exists|writes: Seq<Seq<u8>>| id.raw() == DefaultHasher::spec_finish(writes),
    {
        let mut hasher = DefaultHasher::new();
        hash_into(&source, &mut hasher);
        WidgetId(hasher.finish())
    }

    /// the id of a child of this widget named by `source`: the hash of the pair
    /// of this id and the source, that is of this id's eight bytes, least
    /// significant first, followed by what the source's `Hash` implementation
    /// writes
    pub fn child<S: Hash>(self, source: S) -> (id: Self)
        ensures
            exists|writes: Seq<Seq<u8>>| id.raw() == DefaultHasher::spec_finish(writes),
            exists|rest: Seq<Seq<u8>>|
                id.raw() == DefaultHasher::spec_finish(#[trigger] parent_writes(self).add(rest)),
    {
        let mut hasher = DefaultHasher::new();
        let parent = vstd::bytes::u64_to_le_bytes(self.0);
        hasher.write(parent.as_slice());
        let ghost before = hasher@;
        hash_into(&source, &mut hasher);
        proof {
            let rest = hasher@.subrange(before.len() as int, hasher@.len() as int);
            assert(hasher@ =~= parent_writes(self).add(rest));
        }
        WidgetId(hasher.finish())
    }
}

/// what hashing an id writes: its eight bytes, least significant first
pub open spec fn parent_writes(id: WidgetId) -> Seq<Seq<u8>> {
    seq![vstd::bytes::spec_u64_to_le_bytes(id.raw())]
}

/// children of two different widgets are hashed from different writes, whatever
/// their sources write: the parent's bytes come first and tell the parents apart,
/// so a row of one list and the same row of another get different ids unless
/// the hash itself collides
pub proof fn law_children_of_different_parents_hash_different_writes(
    first: WidgetId,
    second: WidgetId,
    first_rest: Seq<Seq<u8>>,
    second_rest: Seq<Seq<u8>>,
)
    requires
        first != second,
    ensures
        parent_writes(first).add(first_rest) != parent_writes(second).add(second_rest),
{
    vstd::bytes::lemma_auto_spec_u64_to_from_le_bytes();
    assert(first.raw() != second.raw());
    if parent_writes(first).add(first_rest) == parent_writes(second).add(second_rest) {
        assert(parent_writes(first).add(first_rest)[0] == parent_writes(second).add(second_rest)[0]);
        assert(vstd::bytes::spec_u64_from_le_bytes(vstd::bytes::spec_u64_to_le_bytes(first.raw())) == first.raw());
        assert(vstd::bytes::spec_u64_from_le_bytes(vstd::bytes::spec_u64_to_le_bytes(second.raw())) == second.raw());
    }
}

/// which interactions a widget takes part in
#[derive(Clone, Copy, Debug, Default, PartialEq, Eq, Structural)]
pub struct Sense {
    pub click: bool,
    pub drag: bool,
    pub focus: bool,
    pub scroll: bool,
}

impl Sense {
    #[allow(non_snake_case)]
    pub fn CLICK() -> (sense: Self)
        ensures
            sense == (Sense { click: true, drag: false, focus: false, scroll: false }),
    {
        Sense { click: true, drag: false, focus: false, scroll: false }
    }

    #[allow(non_snake_case)]
    pub fn CLICK_AND_DRAG() -> (sense: Self)
        ensures
            sense == (Sense { click: true, drag: true, focus: false, scroll: false }),
    {
        Sense { click: true, drag: true, focus: false, scroll: false }
    }

    #[allow(non_snake_case)]
    pub fn DRAG() -> (sense: Self)
        ensures
            sense == (Sense { click: false, drag: true, focus: false, scroll: false }),
    {
        Sense { click: false, drag: true, focus: false, scroll: false }
    }

    #[allow(non_snake_case)]
    pub fn FOCUS() -> (sense: Self)
        ensures
            sense == (Sense { click: true, drag: false, focus: true, scroll: false }),
    {
        Sense { click: true, drag: false, focus: true, scroll: false }
    }

    #[allow(non_snake_case)]
    pub fn SCROLL() -> (sense: Self)
        ensures
            sense == (Sense { click: false, drag: false, focus: false, scroll: true }),
    {
        Sense { click: false, drag: false, focus: false, scroll: true }
    }

    #[allow(non_snake_case)]
    pub fn SCROLL_AND_DRAG() -> (sense: Self)
        ensures
            sense == (Sense { click: false, drag: true, focus: false, scroll: true }),
    {
        Sense { click: false, drag: true, focus: false, scroll: true }
    }
}

/// the geometry registered for `id`, first registration first
pub open spec fn lookup<G>(entries: Seq<(WidgetId, G)>, id: WidgetId) -> Option<G>
    decreases entries.len(),
{
    if entries.len() == 0 {
        None
    } else if entries[0].0 == id {
        Some(entries[0].1)
    } else {
        lookup(entries.drop_first(), id)
    }
}

/// geometry resolved in one frame and read during the next
pub struct GeometryState<G> {
    previous: Vec<(WidgetId, G)>,
    current: Vec<(WidgetId, G)>,
}

impl<G: Copy> GeometryState<G> {
    /// what the previous frame resolved
    pub closed spec fn previous_view(&self) -> Seq<(WidgetId, G)> {
        self.previous@
    }

    /// what the current frame has registered so far
    pub closed spec fn current_view(&self) -> Seq<(WidgetId, G)> {
        self.current@
    }

    pub fn new() -> (state: Self)
        ensures
            state.previous_view() == Seq::<(WidgetId, G)>::empty(),
            state.current_view() == Seq::<(WidgetId, G)>::empty(),
    {
        GeometryState { previous: Vec::new(), current: Vec::new() }
    }

    /// the geometry the previous frame resolved for `id`
    pub fn get(&self, id: WidgetId) -> (geometry: Option<G>)
        ensures
            geometry == lookup(self.previous_view(), id),
    {
        let mut index: usize = 0;
        proof {
            assert(self.previous@.subrange(0, self.previous@.len() as int) =~= self.previous@);
        }
        while index < self.previous.len()
            invariant
                0 <= index <= self.previous@.len(),
                lookup(self.previous@, id) == lookup(self.previous@.subrange(index as int, self.previous@.len() as int), id),
            decreases self.previous@.len() - index,
        {
            let (candidate, geometry) = self.previous[index];
            proof {
                let rest = self.previous@.subrange(index as int, self.previous@.len() as int);
                assert(rest[0] == self.previous@[index as int]);
                assert(rest.drop_first() =~= self.previous@.subrange(index + 1, self.previous@.len() as int));
            }
            if candidate == id {
                return Some(geometry);
            }
            index += 1;
        }
        proof {
            assert(self.previous@.subrange(index as int, self.previous@.len() as int) =~= Seq::<(WidgetId, G)>::empty());
        }
        None
    }

    /// records the geometry resolved for `id` in the current frame
    pub fn register(&mut self, id: WidgetId, geometry: G)
        ensures
            final(self).current_view() == old(self).current_view().push((id, geometry)),
            final(self).previous_view() == old(self).previous_view(),
    {
        self.current.push((id, geometry));
    }

    /// makes the current frame's geometry the previous frame's
    pub fn end_frame(&mut self)
        ensures
            final(self).previous_view() == old(self).current_view(),
            final(self).current_view() == Seq::<(WidgetId, G)>::empty(),
    {
        std::mem::swap(&mut self.previous, &mut self.current);
        self.current.clear();
    }
}

/// geometry registered during a frame is what `get` returns during the next one,
/// and nothing registered before that frame is returned
pub proof fn law_geometry_next_frame<G>(registered: Seq<(WidgetId, G)>, id: WidgetId, geometry: G)
    requires
        lookup(registered, id) == None::<G>,
    ensures
        lookup(registered.push((id, geometry)), id) == Some(geometry),
    decreases registered.len(),
{
    if registered.len() > 0 {
        assert(registered.push((id, geometry)).drop_first() =~= registered.drop_first().push((id, geometry)));
        law_geometry_next_frame(registered.drop_first(), id, geometry);
    }
}

/// primary-pointer ownership begins with `activated`, remains `active`, and ends
/// with `deactivated`
#[derive(Clone, Copy, Debug, PartialEq)]
pub struct Interaction<P, Ph> {
    /// owns primary pointer
    pub active: bool,
    /// ownership began on current input
    pub activated: bool,
    /// ownership ended on current input
    pub deactivated: bool,
    /// pointer inside hit area
    pub hovered: bool,
    /// primary pointer released inside hit area without dragging
    pub clicked: bool,
    /// owns drag beyond movement threshold while pointer is down
    pub dragging: bool,
    /// pointer movement since previous input during a drag, otherwise zero
    pub drag_delta: P,
    /// scroll input routed to this hit area
    pub scroll: Option<ScrollInteraction<P, Ph>>,
}

/// scroll input routed to a hit area
#[derive(Clone, Copy, Debug, PartialEq)]
pub struct ScrollInteraction<P, Ph> {
    /// distance in logical pixels
    pub delta: P,
    /// pixel-based gesture rather than a discrete wheel step
    pub continuous: bool,
    /// gesture phase
    pub phase: Ph,
}

/// the pointer part of one input event
#[derive(Clone, Copy, Debug, PartialEq)]
pub enum PointerInput<P, Ph> {
    /// an input that does not involve the pointer
    Other,
    Down { position: P, button: PointerButton },
    Up { position: P, button: PointerButton, leave: bool },
    Move { position: P },
    Leave,
    Scroll { position: P, scroll: ScrollInteraction<P, Ph> },
}

/// what the pointer did on the current input
#[derive(Clone, Copy, Debug, PartialEq)]
pub enum PointerEvent<P, Ph> {
    Idle,
    Down,
    Move(P),
    Up { leave: bool },
    Scroll(ScrollInteraction<P, Ph>),
}

/// the primary pointer across inputs
#[derive(Clone, Copy, Debug)]
pub struct PointerState<P, Ph> {
    pub origin: P,
    pub position: Option<P>,
    pub down: bool,
    pub dragging: bool,
    pub event: PointerEvent<P, Ph>,
}

/// a widget's hit area and what it senses
#[derive(Clone, Copy, Debug)]
pub struct HitItem<R> {
    pub id: WidgetId,
    pub area: R,
    pub sense: Sense,
}

/// which hit areas a search looks at
#[derive(Clone, Copy, Debug, PartialEq, Eq, Structural)]
pub enum Wanted {
    Any,
    Scroll,
    Drag,
}

impl Wanted {
    pub open spec fn accepts(self, sense: Sense) -> bool {
        match self {
            Wanted::Any => true,
            Wanted::Scroll => sense.scroll,
            Wanted::Drag => sense.drag,
        }
    }
}

/// `found` is the last wanted item of `hits` whose area `contains` said holds
/// the pointer, every later wanted area having been said not to; `None` when no
/// wanted area was said to hold it
pub open spec fn topmost<P, R, C: Fn(R, P) -> bool>(
    hits: Seq<HitItem<R>>,
    position: P,
    contains: C,
    wanted: Wanted,
    found: Option<int>,
) -> bool {
    match found {
        Some(i) => {
            &&& 0 <= i < hits.len()
            &&& wanted.accepts(hits[i].sense)
            &&& call_ensures(contains, (hits[i].area, position), true)
            &&& forall|j: int|
                i < j < hits.len() && wanted.accepts(#[trigger] hits[j].sense) ==> call_ensures(
                    contains,
                    (hits[j].area, position),
                    false,
                )
        },
        None => forall|j: int|
            0 <= j < hits.len() && wanted.accepts(#[trigger] hits[j].sense) ==> call_ensures(
                contains,
                (hits[j].area, position),
                false,
            ),
    }
}

/// the id of the item at `found`, if any
pub open spec fn id_at<R>(hits: Seq<HitItem<R>>, found: Option<int>) -> Option<WidgetId> {
    match found {
        Some(i) => Some(hits[i].id),
        None => None,
    }
}

/// the hit areas registered for requests, in the order the hits came
///
/// a hit takes the sense of the first request with its id; hits nobody
/// requested are dropped
pub open spec fn registered<R>(hits: Seq<(WidgetId, R)>, requests: Seq<(WidgetId, Sense)>) -> Seq<HitItem<R>>
    decreases hits.len(),
{
    if hits.len() == 0 {
        Seq::empty()
    } else {
        let (id, area) = hits.last();
        let before = registered(hits.drop_last(), requests);
        match first_request(requests, id) {
            Some(k) => before.push(HitItem { id, area, sense: requests[k].1 }),
            None => before,
        }
    }
}

/// only widgets that asked for a response register hits: each registered hit
/// has the id and area of a given hit and the sense of the first request for
/// its id, so a widget that did not ask can neither be found under the pointer
/// nor keep an owner's place at the end of the frame
pub proof fn law_only_requested_widgets_register<R>(
    hits: Seq<(WidgetId, R)>,
    requests: Seq<(WidgetId, Sense)>,
    owner: Option<WidgetId>,
)
    ensures
        registered(hits, requests).len() <= hits.len(),
        forall|k: int|
            #![trigger registered(hits, requests)[k]]
            0 <= k < registered(hits, requests).len() ==> {
                let item = registered(hits, requests)[k];
                &&& first_request(requests, item.id) is Some
                &&& requests[first_request(requests, item.id)->0].1 == item.sense
                &&& exists|h: int| 0 <= h < hits.len() && #[trigger] hits[h] == (item.id, item.area)
            },
        kept(owner, registered(hits, requests)) matches Some(id) ==> first_request(requests, id) is Some,
    decreases hits.len(),
{
    if hits.len() > 0 {
        law_only_requested_widgets_register(hits.drop_last(), requests, owner);
        let before = registered(hits.drop_last(), requests);
        let (id, area) = hits.last();
        assert forall|k: int|
            #![trigger registered(hits, requests)[k]]
            0 <= k < registered(hits, requests).len() implies {
                let item = registered(hits, requests)[k];
                &&& first_request(requests, item.id) is Some
                &&& requests[first_request(requests, item.id)->0].1 == item.sense
                &&& exists|h: int| 0 <= h < hits.len() && #[trigger] hits[h] == (item.id, item.area)
            } by {
            if k < before.len() {
                assert(registered(hits, requests)[k] == before[k]);
                let item = before[k];
                let h = choose|h: int| 0 <= h < hits.drop_last().len() && #[trigger] hits.drop_last()[h] == (item.id, item.area);
                assert(hits[h] == hits.drop_last()[h]);
            } else {
                assert(hits[hits.len() - 1] == (id, area));
            }
        }
        if let Some(id) = kept(owner, registered(hits, requests)) {
            let k = choose|k: int| 0 <= k < registered(hits, requests).len() && (#[trigger] registered(hits, requests)[k]).id == id;
            assert(registered(hits, requests)[k].id == id);
        }
    }
}

/// focus kept at the end of a frame that started with no hit areas stays only
/// on a widget that asked for a response and registered a hit area in it
pub proof fn law_focus_stays_only_on_registered<R>(
    focused: Option<WidgetId>,
    earlier: Seq<HitItem<R>>,
    hits: Seq<(WidgetId, R)>,
    requests: Seq<(WidgetId, Sense)>,
)
    requires
        earlier.len() == 0,
    ensures
        kept(focused, earlier + registered(hits, requests)) matches Some(id) ==> {
            &&& focused == Some(id)
            &&& has_hit(registered(hits, requests), id)
            &&& first_request(requests, id) is Some
        },
{
    assert(earlier + registered(hits, requests) =~= registered(hits, requests));
    law_only_requested_widgets_register(hits, requests, focused);
}

/// the index of the first request for `id`
pub open spec fn first_request(requests: Seq<(WidgetId, Sense)>, id: WidgetId) -> Option<int> {
    if exists|k: int| 0 <= k < requests.len() && (#[trigger] requests[k]).0 == id {
        Some(
            choose|k: int|
                0 <= k < requests.len() && (#[trigger] requests[k]).0 == id && forall|l: int|
                    0 <= l < k ==> (#[trigger] requests[l]).0 != id,
        )
    } else {
        None
    }
}

/// some current hit has `id`
pub open spec fn has_hit<R>(hits: Seq<HitItem<R>>, id: WidgetId) -> bool {
    exists|k: int| 0 <= k < hits.len() && (#[trigger] hits[k]).id == id
}

/// the owner kept at the end of a frame: one with no hit area this frame is dropped
pub open spec fn kept<R>(owner: Option<WidgetId>, hits: Seq<HitItem<R>>) -> Option<WidgetId> {
    match owner {
        Some(id) => if has_hit(hits, id) { owner } else { None },
        None => None,
    }
}

/// whether two optional ids are equal
fn same_id(a: Option<WidgetId>, b: Option<WidgetId>) -> (equal: bool)
    ensures
        equal == (a == b),
{
    match (a, b) {
        (Some(x), Some(y)) => x.0 == y.0,
        (None, None) => true,
        _ => false,
    }
}

/// the index of the topmost wanted hit area `contains` says holds `position`
fn find_topmost<P: Copy, R: Copy, C: Fn(R, P) -> bool>(
    hits: &Vec<HitItem<R>>,
    position: P,
    contains: &C,
    wanted: Wanted,
) -> (found: Option<usize>)
    requires
        forall|area: R, point: P| call_requires(*contains, (area, point)),
    ensures
        topmost(hits@, position, *contains, wanted, match found { Some(i) => Some(i as int), None => None }),
{
    let mut index = hits.len();
    while index > 0
        invariant
            index <= hits@.len(),
            forall|area: R, point: P| call_requires(*contains, (area, point)),
            forall|j: int|
                index <= j < hits@.len() && wanted.accepts(#[trigger] hits@[j].sense) ==> call_ensures(
                    *contains,
                    (hits@[j].area, position),
                    false,
                ),
        decreases index,
    {
        index = index - 1;
        let item = hits[index];
        let accepted = match wanted {
            Wanted::Any => true,
            Wanted::Scroll => item.sense.scroll,
            Wanted::Drag => item.sense.drag,
        };
        if accepted {
            if contains(item.area, position) {
                return Some(index);
            }
        }
    }
    None
}

/// what a primary press decides: the topmost area under the pointer becomes
/// hovered, and active or focused where it senses clicks or focus; the topmost
/// area that senses drags becomes the drag owner; a change of the active widget
/// is reported as activated and deactivated
pub open spec fn press_outcome<P, R, Ph, C: Fn(R, P) -> bool>(
    hits: Seq<HitItem<R>>,
    position: P,
    contains: C,
    hovered: Option<int>,
    dragged: Option<int>,
    previous_active: Option<WidgetId>,
    state: InteractionState<P, R, Ph>,
) -> bool {
    let active = match hovered {
        Some(i) => if hits[i].sense.click { Some(hits[i].id) } else { None },
        None => None,
    };
    &&& topmost(hits, position, contains, Wanted::Any, hovered)
    &&& topmost(hits, position, contains, Wanted::Drag, dragged)
    &&& state.hovered == id_at(hits, hovered)
    &&& state.active == active
    &&& state.focused == match hovered {
        Some(i) => if hits[i].sense.focus { Some(hits[i].id) } else { None },
        None => None,
    }
    &&& state.drag_owner == id_at(hits, dragged)
    &&& active != previous_active ==> state.activated == active && state.deactivated == previous_active
    &&& active == previous_active ==> state.activated is None && state.deactivated is None
}

/// which widgets own the pointer, focus and hover, and what the current input did
pub struct InteractionState<P, R, Ph> {
    pub active: Option<WidgetId>,
    pub focused: Option<WidgetId>,
    pub hovered: Option<WidgetId>,
    pub drag_owner: Option<WidgetId>,
    pub scroll_owner: Option<WidgetId>,
    pub activated: Option<WidgetId>,
    pub deactivated: Option<WidgetId>,
    pub pointer: PointerState<P, Ph>,
    pub previous_hits: Vec<HitItem<R>>,
    pub current_hits: Vec<HitItem<R>>,
    pub requests: Vec<(WidgetId, Sense)>,
    /// the drag delta reported when there is none
    pub zero: P,
}

impl<P: Copy, R: Copy, Ph: Copy> InteractionState<P, R, Ph> {
    /// nothing owned, hovered or focused, and no pointer seen
    pub fn new(zero: P) -> (state: Self)
        ensures
            state.active is None,
            state.focused is None,
            state.hovered is None,
            state.drag_owner is None,
            state.scroll_owner is None,
            state.activated is None,
            state.deactivated is None,
            state.pointer.position is None,
            !state.pointer.down,
            !state.pointer.dragging,
            state.pointer.event is Idle,
            state.pointer.origin == zero,
            state.previous_hits@.len() == 0,
            state.current_hits@.len() == 0,
            state.requests@.len() == 0,
            state.zero == zero,
    {
        InteractionState {
            active: None,
            focused: None,
            hovered: None,
            drag_owner: None,
            scroll_owner: None,
            activated: None,
            deactivated: None,
            pointer: PointerState { origin: zero, position: None, down: false, dragging: false, event: PointerEvent::Idle },
            previous_hits: Vec::new(),
            current_hits: Vec::new(),
            requests: Vec::new(),
            zero,
        }
    }

    /// takes the input of a new frame: updates the pointer, then finds what the
    /// pointer hovers and scrolls among the previous frame's hit areas, and on a
    /// primary press which widget becomes active, focused and drag owner
    ///
    /// `contains` tells whether an area holds a point, `offset` the movement from
    /// one point to another, `beyond_drag_threshold` whether a point has moved far
    /// enough from the press to start a drag
    pub fn begin_frame<C, O, B>(&mut self, input: PointerInput<P, Ph>, contains: C, offset: O, beyond_drag_threshold: B)
        where
            C: Fn(R, P) -> bool,
            O: Fn(P, P) -> P,
            B: Fn(P, P) -> bool,
        requires
            forall|area: R, point: P| call_requires(contains, (area, point)),
            forall|from: P, to: P| call_requires(offset, (from, to)),
            forall|origin: P, point: P| call_requires(beyond_drag_threshold, (origin, point)),
        ensures
            final(self).requests@.len() == 0,
            final(self).previous_hits@ == old(self).previous_hits@,
            final(self).current_hits@ == old(self).current_hits@,
            final(self).zero == old(self).zero,
            // ownership begins with activation: an activated widget is active and owns the pressed pointer
            final(self).activated is Some ==> final(self).activated == final(self).active && final(self).pointer.down,
            // ownership ends with deactivation: a deactivated widget is no longer active, or the pointer was released
            final(self).deactivated is Some ==> final(self).deactivated != final(self).active
                || final(self).pointer.event is Up,
            // the pointer
            match input {
                PointerInput::Down { position, button } => if button == PointerButton::Primary {
                    &&& final(self).pointer.origin == position
                    &&& final(self).pointer.position == Some(position)
                    &&& final(self).pointer.down
                    &&& !final(self).pointer.dragging
                    &&& final(self).pointer.event == PointerEvent::<P, Ph>::Down
                } else {
                    &&& final(self).pointer.origin == old(self).pointer.origin
                    &&& final(self).pointer.position == Some(position)
                    &&& final(self).pointer.down == old(self).pointer.down
                    &&& final(self).pointer.dragging == old(self).pointer.dragging
                    &&& final(self).pointer.event == PointerEvent::<P, Ph>::Idle
                },
                PointerInput::Up { position, button, leave } => {
                    &&& final(self).pointer.origin == old(self).pointer.origin
                    &&& final(self).pointer.position == Some(position)
                    &&& final(self).pointer.dragging == old(self).pointer.dragging
                    &&& if button == PointerButton::Primary {
                        &&& !final(self).pointer.down
                        &&& final(self).pointer.event == PointerEvent::<P, Ph>::Up { leave }
                    } else {
                        &&& final(self).pointer.down == old(self).pointer.down
                        &&& final(self).pointer.event == PointerEvent::<P, Ph>::Idle
                    }
                },
                PointerInput::Move { position } => {
                    &&& final(self).pointer.origin == old(self).pointer.origin
                    &&& final(self).pointer.position == Some(position)
                    &&& final(self).pointer.down == old(self).pointer.down
                    &&& final(self).pointer.event matches PointerEvent::Move(delta) && call_ensures(
                        offset,
                        (
                            match old(self).pointer.position {
                                Some(previous) => previous,
                                None => position,
                            },
                            position,
                        ),
                        delta,
                    )
                    &&& if old(self).pointer.down && !old(self).pointer.dragging {
                        call_ensures(
                            beyond_drag_threshold,
                            (old(self).pointer.origin, position),
                            final(self).pointer.dragging,
                        )
                    } else {
                        final(self).pointer.dragging == old(self).pointer.dragging
                    }
                },
                PointerInput::Leave => {
                    &&& final(self).pointer.origin == old(self).pointer.origin
                    &&& final(self).pointer.position is None
                    &&& final(self).pointer.down == old(self).pointer.down
                    &&& final(self).pointer.dragging == old(self).pointer.dragging
                    &&& final(self).pointer.event == PointerEvent::<P, Ph>::Idle
                },
                PointerInput::Scroll { position, scroll } => {
                    &&& final(self).pointer.origin == old(self).pointer.origin
                    &&& final(self).pointer.position == Some(position)
                    &&& final(self).pointer.down == old(self).pointer.down
                    &&& final(self).pointer.dragging == old(self).pointer.dragging
                    &&& final(self).pointer.event == PointerEvent::<P, Ph>::Scroll(scroll)
                },
                PointerInput::Other => {
                    &&& final(self).pointer.origin == old(self).pointer.origin
                    &&& final(self).pointer.position == old(self).pointer.position
                    &&& final(self).pointer.down == old(self).pointer.down
                    &&& final(self).pointer.dragging == old(self).pointer.dragging
                    &&& final(self).pointer.event == PointerEvent::<P, Ph>::Idle
                },
            },
            // hover and scroll ownership follow the pointer
            match final(self).pointer.position {
                Some(position) => {
                    &&& exists|found: Option<int>|
                        topmost(old(self).previous_hits@, position, contains, Wanted::Any, found)
                            && final(self).hovered == #[trigger] id_at(old(self).previous_hits@, found)
                    &&& exists|found: Option<int>|
                        topmost(old(self).previous_hits@, position, contains, Wanted::Scroll, found)
                            && final(self).scroll_owner == #[trigger] id_at(old(self).previous_hits@, found)
                },
                None => final(self).hovered is None && final(self).scroll_owner is None,
            },
            // a drag that starts hands the pointer to the drag owner
            ({
                let started = input is Move && !old(self).pointer.dragging && final(self).pointer.dragging;
                let pressed = final(self).pointer.event is Down;
                let released = final(self).pointer.event is Up;
                let owner = if started { old(self).drag_owner } else { old(self).active };
                &&& !pressed ==> final(self).active == owner
                &&& !pressed ==> final(self).focused == old(self).focused
                &&& !pressed ==> final(self).drag_owner == old(self).drag_owner
                &&& !pressed && !released ==> {
                    &&& started && owner != old(self).active ==> final(self).activated == owner
                        && final(self).deactivated == old(self).active
                    &&& !(started && owner != old(self).active) ==> final(self).activated is None
                        && final(self).deactivated is None
                }
                &&& released ==> final(self).activated is None && final(self).deactivated == old(self).active
            }),
            // a primary press activates, focuses and picks the drag owner under the pointer
            final(self).pointer.event is Down ==> exists|hovered: Option<int>, dragged: Option<int>|
                #[trigger] press_outcome(
                    old(self).previous_hits@,
                    final(self).pointer.position->0,
                    contains,
                    hovered,
                    dragged,
                    old(self).active,
                    *final(self),
                ),
    {
        self.requests.clear();
        self.pointer.event = PointerEvent::Idle;
        self.activated = None;
        self.deactivated = None;
        match input {
            PointerInput::Down { position, button } => {
                if button == PointerButton::Primary {
                    self.pointer.origin = position;
                    self.pointer.position = Some(position);
                    self.pointer.down = true;
                    self.pointer.dragging = false;
                    self.pointer.event = PointerEvent::Down;
                } else {
                    self.pointer.position = Some(position);
                }
            },
            PointerInput::Move { position } => {
                let previous = match self.pointer.position {
                    Some(previous) => previous,
                    None => position,
                };
                let delta = offset(previous, position);
                self.pointer.position = Some(position);
                self.pointer.event = PointerEvent::Move(delta);
                if self.pointer.down && !self.pointer.dragging {
                    let beyond = beyond_drag_threshold(self.pointer.origin, position);
                    if beyond {
                        self.pointer.dragging = true;
                        let previous = self.active;
                        self.active = self.drag_owner;
                        if !same_id(self.active, previous) {
                            self.deactivated = previous;
                            self.activated = self.active;
                        }
                    }
                }
            },
            PointerInput::Up { position, button, leave } => {
                self.pointer.position = Some(position);
                if button == PointerButton::Primary {
                    self.pointer.down = false;
                    self.pointer.event = PointerEvent::Up { leave };
                    self.deactivated = self.active;
                }
            },
            PointerInput::Leave => {
                self.pointer.position = None;
            },
            PointerInput::Scroll { position, scroll } => {
                self.pointer.position = Some(position);
                self.pointer.event = PointerEvent::Scroll(scroll);
            },
            PointerInput::Other => {},
        }
        let hovered = match self.pointer.position {
            Some(position) => find_topmost(&self.previous_hits, position, &contains, Wanted::Any),
            None => None,
        };
        self.hovered = match hovered {
            Some(i) => Some(self.previous_hits[i].id),
            None => None,
        };
        let scrolled = match self.pointer.position {
            Some(position) => find_topmost(&self.previous_hits, position, &contains, Wanted::Scroll),
            None => None,
        };
        self.scroll_owner = match scrolled {
            Some(i) => Some(self.previous_hits[i].id),
            None => None,
        };
        let ghost found_hovered: Option<int> = match hovered {
            Some(i) => Some(i as int),
            None => None,
        };
        let ghost found_scrolled: Option<int> = match scrolled {
            Some(i) => Some(i as int),
            None => None,
        };
        let ghost mut found_dragged: Option<int> = None;
        let ghost previous_active = self.active;
        if matches!(self.pointer.event, PointerEvent::Down) {
            let previous = self.active;
            self.active = match hovered {
                Some(i) => if self.previous_hits[i].sense.click {
                    Some(self.previous_hits[i].id)
                } else {
                    None
                },
                None => None,
            };
            if !same_id(self.active, previous) {
                self.deactivated = previous;
                self.activated = self.active;
            }
            self.focused = match hovered {
                Some(i) => if self.previous_hits[i].sense.focus {
                    Some(self.previous_hits[i].id)
                } else {
                    None
                },
                None => None,
            };
            let dragged = match self.pointer.position {
                Some(position) => find_topmost(&self.previous_hits, position, &contains, Wanted::Drag),
                None => None,
            };
            self.drag_owner = match dragged {
                Some(i) => Some(self.previous_hits[i].id),
                None => None,
            };
            proof {
                found_dragged = match dragged {
                    Some(i) => Some(i as int),
                    None => None,
                };
                assert(press_outcome(
                    old(self).previous_hits@,
                    self.pointer.position->0,
                    contains,
                    found_hovered,
                    found_dragged,
                    previous_active,
                    *self,
                ));
            }
        }
        proof {
            if let Some(position) = self.pointer.position {
                assert(id_at(old(self).previous_hits@, found_hovered) == self.hovered);
                assert(id_at(old(self).previous_hits@, found_scrolled) == self.scroll_owner);
            }
        }
    }

    /// records that `id` takes part in interactions with `sense` this frame and
    /// reports what the current input did to it
    pub fn response(&mut self, id: WidgetId, sense: Sense) -> (interaction: Interaction<P, Ph>)
        ensures
            final(self).requests@ == old(self).requests@.push((id, sense)),
            final(self).activated == old(self).activated,
            final(self).deactivated == old(self).deactivated,
            final(self).drag_owner == old(self).drag_owner,
            final(self).scroll_owner == old(self).scroll_owner,
            final(self).zero == old(self).zero,
            final(self).active == old(self).active,
            final(self).focused == old(self).focused,
            final(self).hovered == old(self).hovered,
            final(self).pointer == old(self).pointer,
            final(self).previous_hits@ == old(self).previous_hits@,
            final(self).current_hits@ == old(self).current_hits@,
            ({
                let active = old(self).active == Some(id);
                let hovered = old(self).hovered == Some(id);
                let pointer = old(self).pointer;
                &&& interaction.hovered == hovered
                &&& interaction.active == (active && pointer.down)
                &&& interaction.activated == (old(self).activated == Some(id))
                &&& interaction.deactivated == (old(self).deactivated == Some(id))
                &&& interaction.clicked == (active && hovered && pointer.event is Up && !pointer.dragging)
                &&& interaction.dragging == (active && pointer.down && pointer.dragging)
                &&& interaction.drag_delta == match pointer.event {
                    PointerEvent::Move(delta) => if active && pointer.dragging {
                        delta
                    } else {
                        old(self).zero
                    },
                    _ => old(self).zero,
                }
                &&& interaction.scroll == match pointer.event {
                    PointerEvent::Scroll(scroll) => if old(self).scroll_owner == Some(id) {
                        Some(scroll)
                    } else {
                        None
                    },
                    _ => None,
                }
            }),
    {
        self.requests.push((id, sense));
        let active = same_id(self.active, Some(id));
        let hovered = same_id(self.hovered, Some(id));
        let clicked = active && hovered && matches!(self.pointer.event, PointerEvent::Up { .. })
            && !self.pointer.dragging;
        let drag_delta = match self.pointer.event {
            PointerEvent::Move(delta) => if active && self.pointer.dragging {
                delta
            } else {
                self.zero
            },
            _ => self.zero,
        };
        let scroll = match self.pointer.event {
            PointerEvent::Scroll(scroll) => if same_id(self.scroll_owner, Some(id)) {
                Some(scroll)
            } else {
                None
            },
            _ => None,
        };
        Interaction {
            hovered,
            active: active && self.pointer.down,
            activated: same_id(self.activated, Some(id)),
            deactivated: same_id(self.deactivated, Some(id)),
            clicked,
            dragging: active && self.pointer.down && self.pointer.dragging,
            drag_delta,
            scroll,
        }
    }

    /// records the hit areas of this frame's widgets that asked for a response,
    /// in the order given, each with the sense its widget asked for
    pub fn register_hits(&mut self, hits: Vec<(WidgetId, R)>)
        ensures
            final(self).current_hits@ == old(self).current_hits@ + registered(hits@, old(self).requests@),
            final(self).requests@ == old(self).requests@,
            final(self).previous_hits@ == old(self).previous_hits@,
            final(self).activated == old(self).activated,
            final(self).deactivated == old(self).deactivated,
            final(self).drag_owner == old(self).drag_owner,
            final(self).scroll_owner == old(self).scroll_owner,
            final(self).zero == old(self).zero,
            final(self).active == old(self).active,
            final(self).focused == old(self).focused,
            final(self).hovered == old(self).hovered,
            final(self).pointer == old(self).pointer,
    {
        let mut index: usize = 0;
        while index < hits.len()
            invariant
                index <= hits@.len(),
                self.requests@ == old(self).requests@,
                self.previous_hits@ == old(self).previous_hits@,
                self.activated == old(self).activated,
                self.deactivated == old(self).deactivated,
                self.drag_owner == old(self).drag_owner,
                self.scroll_owner == old(self).scroll_owner,
                self.zero == old(self).zero,
                self.active == old(self).active,
                self.focused == old(self).focused,
                self.hovered == old(self).hovered,
                self.pointer == old(self).pointer,
                self.current_hits@ == old(self).current_hits@ + registered(
                    hits@.subrange(0, index as int),
                    self.requests@,
                ),
            decreases hits@.len() - index,
        {
            let (id, area) = hits[index];
            let mut request: usize = 0;
            let mut found = false;
            while request < self.requests.len()
                invariant
                    request <= self.requests@.len(),
                    !found ==> forall|l: int| 0 <= l < request ==> (#[trigger] self.requests@[l]).0 != id,
                    found ==> request < self.requests@.len() && self.requests@[request as int].0 == id
                        && forall|l: int| 0 <= l < request ==> (#[trigger] self.requests@[l]).0 != id,
                ensures
                    !found ==> request == self.requests@.len() && forall|l: int|
                        0 <= l < request ==> (#[trigger] self.requests@[l]).0 != id,
                    found ==> request < self.requests@.len() && self.requests@[request as int].0 == id
                        && forall|l: int| 0 <= l < request ==> (#[trigger] self.requests@[l]).0 != id,
                decreases self.requests@.len() - request + if found { 0int } else { 1 },
            {
                if self.requests[request].0.0 == id.0 {
                    found = true;
                    break;
                }
                request = request + 1;
            }
            proof {
                let prefix = hits@.subrange(0, index as int + 1);
                assert(prefix.drop_last() =~= hits@.subrange(0, index as int));
                assert(prefix.last() == (id, area));
                if found {
                    assert(0 <= request < self.requests@.len() && self.requests@[request as int].0 == id);
                    let k = first_request(self.requests@, id)->0;
                    assert(first_request(self.requests@, id) is Some);
                    if k < request {
                        assert(self.requests@[k].0 != id);
                    }
                    if k > request {
                        assert(self.requests@[request as int].0 != id);
                    }
                } else {
                    assert(first_request(self.requests@, id) is None);
                }
            }
            if found {
                let sense = self.requests[request].1;
                self.current_hits.push(HitItem { id, area, sense });
            }
            index = index + 1;
        }
        proof {
            assert(hits@.subrange(0, hits@.len() as int) =~= hits@);
        }
    }

    /// whether `id` has keyboard focus
    pub fn is_focused(&self, id: WidgetId) -> (focused: bool)
        ensures
            focused == (self.focused == Some(id)),
    {
        same_id(self.focused, Some(id))
    }

    /// gives `id` keyboard focus; false when it already had it
    pub fn focus(&mut self, id: WidgetId) -> (changed: bool)
        ensures
            changed == (old(self).focused != Some(id)),
            *final(self) == (InteractionState { focused: Some(id), ..*old(self) }),
    {
        if same_id(self.focused, Some(id)) {
            return false;
        }
        self.focused = Some(id);
        true
    }

    /// takes keyboard focus away; false when nothing had it
    pub fn clear_focus(&mut self) -> (changed: bool)
        ensures
            changed == (old(self).focused is Some),
            *final(self) == (InteractionState { focused: None, ..*old(self) }),
    {
        let changed = self.focused.is_some();
        self.focused = None;
        changed
    }

    /// where the pointer is, if it is over the surface
    pub fn pointer_position(&self) -> (position: Option<P>)
        ensures
            position == self.pointer.position,
    {
        self.pointer.position
    }

    /// closes the frame: owners without a hit area this frame lose their
    /// ownership, a primary release ends pointer ownership and dragging, and this
    /// frame's hit areas become the ones the next frame is tested against
    ///
    /// tells whether the widget under the pointer changes with the new hit areas
    pub fn end_frame<C: Fn(R, P) -> bool>(&mut self, contains: C) -> (hover_changed: bool)
        requires
            forall|area: R, point: P| call_requires(contains, (area, point)),
        ensures
            final(self).previous_hits@ == old(self).current_hits@,
            final(self).current_hits@.len() == 0,
            final(self).focused == kept(old(self).focused, old(self).current_hits@),
            final(self).active == match old(self).pointer.event {
                PointerEvent::Up { .. } => None,
                _ => kept(old(self).active, old(self).current_hits@),
            },
            final(self).drag_owner == match old(self).pointer.event {
                PointerEvent::Up { .. } => None,
                _ => old(self).drag_owner,
            },
            final(self).pointer.dragging == match old(self).pointer.event {
                PointerEvent::Up { .. } => false,
                _ => old(self).pointer.dragging,
            },
            final(self).pointer.position == match old(self).pointer.event {
                PointerEvent::Up { leave } => if leave {
                    None
                } else {
                    old(self).pointer.position
                },
                _ => old(self).pointer.position,
            },
            final(self).pointer.down == old(self).pointer.down,
            final(self).pointer.event == old(self).pointer.event,
            final(self).hovered == old(self).hovered,
            final(self).pointer.origin == old(self).pointer.origin,
            final(self).scroll_owner == old(self).scroll_owner,
            final(self).activated == old(self).activated,
            final(self).deactivated == old(self).deactivated,
            final(self).requests@ == old(self).requests@,
            final(self).zero == old(self).zero,
            match final(self).pointer.position {
                Some(position) => exists|found: Option<int>|
                    topmost(old(self).current_hits@, position, contains, Wanted::Any, found)
                        && hover_changed == (#[trigger] id_at(old(self).current_hits@, found) != old(self).hovered),
                None => hover_changed == (old(self).hovered is Some),
            },
    {
        let active = self.active;
        let focused = self.focused;
        self.active = self.kept_owner(active);
        self.focused = self.kept_owner(focused);
        match self.pointer.event {
            PointerEvent::Up { leave } => {
                self.active = None;
                self.drag_owner = None;
                self.pointer.dragging = false;
                if leave {
                    self.pointer.position = None;
                }
            },
            _ => {},
        }
        std::mem::swap(&mut self.previous_hits, &mut self.current_hits);
        self.current_hits.clear();
        let next = match self.pointer.position {
            Some(position) => find_topmost(&self.previous_hits, position, &contains, Wanted::Any),
            None => None,
        };
        let next_hovered = match next {
            Some(i) => Some(self.previous_hits[i].id),
            None => None,
        };
        proof {
            let found: Option<int> = match next {
                Some(i) => Some(i as int),
                None => None,
            };
            assert(id_at(old(self).current_hits@, found) == next_hovered);
        }
        !same_id(next_hovered, self.hovered)
    }

    /// `owner`, unless no hit area of this frame belongs to it
    fn kept_owner(&self, owner: Option<WidgetId>) -> (result: Option<WidgetId>)
        ensures
            result == kept(owner, self.current_hits@),
    {
        match owner {
            Some(id) => {
                let mut index: usize = 0;
                while index < self.current_hits.len()
                    invariant
                        owner == Some(id),
                        index <= self.current_hits@.len(),
                        forall|k: int| 0 <= k < index ==> (#[trigger] self.current_hits@[k]).id != id,
                    decreases self.current_hits@.len() - index,
                {
                    if self.current_hits[index].id.0 == id.0 {
                        assert(self.current_hits@[index as int].id == id);
                        assert(has_hit(self.current_hits@, id));
                        return owner;
                    }
                    index = index + 1;
                }
                None
            },
            None => None,
        }
    }
}

} // verus!
