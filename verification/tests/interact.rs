use blit::input::PointerButton;
use blit::interact::{GeometryState, InteractionState, PointerInput, ScrollInteraction, Sense, WidgetId};

type Point = (f32, f32);
type Area = (f32, f32, f32, f32);

fn contains(area: Area, point: Point) -> bool {
    point.0 >= area.0 && point.0 < area.0 + area.2 && point.1 >= area.1 && point.1 < area.1 + area.3
}

fn offset(from: Point, to: Point) -> Point {
    (to.0 - from.0, to.1 - from.1)
}

fn beyond(origin: Point, point: Point) -> bool {
    let x = point.0 - origin.0;
    let y = point.1 - origin.1;
    x * x + y * y >= 36.0
}

fn frame(
    state: &mut InteractionState<Point, Area, ()>,
    input: PointerInput<Point, ()>,
    widgets: &[(WidgetId, Sense, Area)],
) -> Vec<blit::interact::Interaction<Point, ()>> {
    state.begin_frame(input, contains, offset, beyond);
    let responses = widgets.iter().map(|(id, sense, _)| state.response(*id, *sense)).collect();
    state.register_hits(widgets.iter().map(|(id, _, area)| (*id, *area)).collect());
    state.end_frame(contains);
    responses
}

fn down(x: f32, y: f32) -> PointerInput<Point, ()> {
    PointerInput::Down { position: (x, y), button: PointerButton::Primary }
}

fn up(x: f32, y: f32) -> PointerInput<Point, ()> {
    PointerInput::Up { position: (x, y), button: PointerButton::Primary, leave: false }
}

#[test]
fn press_and_release_inside_clicks() {
    let button = WidgetId::new("button");
    let widgets = [(button, Sense::CLICK(), (0.0, 0.0, 10.0, 10.0))];
    let mut state = InteractionState::new((0.0, 0.0));
    frame(&mut state, PointerInput::Other, &widgets);

    let pressed = frame(&mut state, down(5.0, 5.0), &widgets)[0];
    assert!(pressed.hovered && pressed.active && pressed.activated);
    assert!(!pressed.clicked && !pressed.deactivated);

    let released = frame(&mut state, up(5.0, 5.0), &widgets)[0];
    assert!(released.clicked && released.deactivated && released.hovered);
    assert!(!released.active);
    assert_eq!(state.active, None);
}

#[test]
fn release_outside_does_not_click() {
    let button = WidgetId::new("button");
    let widgets = [(button, Sense::CLICK(), (0.0, 0.0, 10.0, 10.0))];
    let mut state = InteractionState::new((0.0, 0.0));
    frame(&mut state, PointerInput::Other, &widgets);
    frame(&mut state, down(5.0, 5.0), &widgets);

    let released = frame(&mut state, up(50.0, 5.0), &widgets)[0];
    assert!(!released.clicked && !released.hovered && released.deactivated);
}

#[test]
fn dragging_starts_beyond_the_threshold_and_reports_movement() {
    let handle = WidgetId::new("handle");
    let widgets = [(handle, Sense::CLICK_AND_DRAG(), (0.0, 0.0, 10.0, 10.0))];
    let mut state = InteractionState::new((0.0, 0.0));
    frame(&mut state, PointerInput::Other, &widgets);
    frame(&mut state, down(1.0, 1.0), &widgets);

    let small = frame(&mut state, PointerInput::Move { position: (3.0, 1.0) }, &widgets)[0];
    assert!(small.active && !small.dragging);
    assert_eq!(small.drag_delta, (0.0, 0.0));

    let far = frame(&mut state, PointerInput::Move { position: (20.0, 1.0) }, &widgets)[0];
    assert!(far.active && far.dragging);
    assert_eq!(far.drag_delta, (17.0, 0.0));

    let released = frame(&mut state, up(20.0, 1.0), &widgets)[0];
    assert!(!released.clicked && !released.dragging);
}

#[test]
fn scroll_goes_to_the_topmost_scroll_area_under_the_pointer() {
    let outer = WidgetId::new("outer");
    let inner = WidgetId::new("inner");
    let widgets = [
        (outer, Sense::SCROLL(), (0.0, 0.0, 100.0, 100.0)),
        (inner, Sense::SCROLL(), (10.0, 10.0, 20.0, 20.0)),
    ];
    let mut state = InteractionState::new((0.0, 0.0));
    frame(&mut state, PointerInput::Other, &widgets);

    let scroll = ScrollInteraction { delta: (0.0, 3.0), continuous: true, phase: () };
    let responses = frame(&mut state, PointerInput::Scroll { position: (15.0, 15.0), scroll }, &widgets);
    assert_eq!(responses[0].scroll, None);
    assert_eq!(responses[1].scroll, Some(scroll));

    let responses = frame(&mut state, PointerInput::Scroll { position: (50.0, 50.0), scroll }, &widgets);
    assert_eq!(responses[0].scroll, Some(scroll));
    assert_eq!(responses[1].scroll, None);
}

#[test]
fn focus_follows_presses_and_requests() {
    let field = WidgetId::new("field");
    let widgets = [(field, Sense::FOCUS(), (0.0, 0.0, 10.0, 10.0))];
    let mut state = InteractionState::new((0.0, 0.0));
    frame(&mut state, PointerInput::Other, &widgets);
    frame(&mut state, down(5.0, 5.0), &widgets);
    assert!(state.is_focused(field));

    frame(&mut state, down(50.0, 50.0), &widgets);
    assert!(!state.is_focused(field));

    assert!(state.focus(field));
    assert!(!state.focus(field));
    assert!(state.is_focused(field));
    assert!(state.clear_focus());
    assert!(!state.clear_focus());
}

#[test]
fn owners_without_a_hit_area_lose_ownership() {
    let field = WidgetId::new("field");
    let widgets = [(field, Sense::FOCUS(), (0.0, 0.0, 10.0, 10.0))];
    let mut state = InteractionState::new((0.0, 0.0));
    frame(&mut state, PointerInput::Other, &widgets);
    frame(&mut state, down(5.0, 5.0), &widgets);
    assert!(state.is_focused(field));

    frame(&mut state, PointerInput::Other, &[]);
    assert!(!state.is_focused(field));
    assert_eq!(state.active, None);
}

#[test]
fn hover_change_is_reported_at_the_end_of_a_frame() {
    let first = WidgetId::new("first");
    let mut state = InteractionState::<Point, Area, ()>::new((0.0, 0.0));
    state.begin_frame(PointerInput::Move { position: (5.0, 5.0) }, contains, offset, beyond);
    state.response(first, Sense::CLICK());
    state.register_hits(vec![(first, (0.0, 0.0, 10.0, 10.0))]);
    assert!(state.end_frame(contains));
    assert_eq!(state.pointer_position(), Some((5.0, 5.0)));

    state.begin_frame(PointerInput::Other, contains, offset, beyond);
    state.response(first, Sense::CLICK());
    state.register_hits(vec![(first, (0.0, 0.0, 10.0, 10.0))]);
    assert!(!state.end_frame(contains));

    state.begin_frame(PointerInput::Leave, contains, offset, beyond);
    assert_eq!(state.pointer_position(), None);
}

#[test]
fn child_ids_are_stable() {
    let parent = WidgetId::new("list");
    assert_eq!(parent.child(3u32), parent.child(3u32));
    assert_ne!(parent.child(3u32), parent.child(4u32));
}

#[test]
fn interaction_reports_active_lifecycle() {
    let id = WidgetId::new("interaction lifecycle");
    let widgets = [(id, Sense::CLICK(), (0.0, 0.0, 10.0, 10.0))];
    let mut state = InteractionState::new((0.0, 0.0));
    frame(&mut state, PointerInput::Other, &widgets);

    let activated = frame(&mut state, down(5.0, 5.0), &widgets)[0];
    assert!(activated.active);
    assert!(activated.activated);
    assert!(!activated.deactivated);

    let active = frame(&mut state, PointerInput::Other, &widgets)[0];
    assert!(active.active);
    assert!(!active.activated);
    assert!(!active.deactivated);

    let deactivated = frame(&mut state, up(15.0, 5.0), &widgets)[0];
    assert!(!deactivated.active);
    assert!(deactivated.deactivated);
    assert!(!deactivated.clicked);
}

#[test]
fn widgets_without_a_request_register_no_hit() {
    let asked = WidgetId::new("asked");
    let silent = WidgetId::new("silent");
    let mut state: InteractionState<Point, Area, ()> = InteractionState::new((0.0, 0.0));
    let mut step = |state: &mut InteractionState<Point, Area, ()>, input: PointerInput<Point, ()>| {
        state.begin_frame(input, contains, offset, beyond);
        let response = state.response(asked, Sense::CLICK());
        state.register_hits(vec![(silent, (0.0, 0.0, 10.0, 10.0)), (asked, (20.0, 0.0, 10.0, 10.0))]);
        state.end_frame(contains);
        response
    };
    step(&mut state, PointerInput::Other);

    step(&mut state, down(5.0, 5.0));
    assert_eq!(state.active, None);
    assert_eq!(state.focused, None);
    step(&mut state, up(5.0, 5.0));

    let pressed = step(&mut state, down(25.0, 5.0));
    assert!(pressed.activated);
    assert_eq!(state.active, Some(asked));
}

#[test]
fn resolved_geometry_is_available_on_the_next_frame() {
    let id = WidgetId::new("geometry");
    let mut geometry: GeometryState<(f32, f32)> = GeometryState::new();
    geometry.register(id, (3.0, 4.0));
    assert_eq!(geometry.get(id), None);
    geometry.end_frame();

    let resolved = geometry.get(id).unwrap();
    assert_eq!(resolved.0, 3.0);
    assert_eq!(resolved.1, 4.0);
}

#[test]
fn scroll_drag_cancels_button_click() {
    let scroll = WidgetId::new("scroll");
    let button = WidgetId::new("button");
    let widgets = [
        (scroll, Sense::SCROLL_AND_DRAG(), (0.0, 0.0, 10.0, 100.0)),
        (button, Sense::CLICK(), (0.0, 0.0, 10.0, 20.0)),
    ];
    let mut state = InteractionState::new((0.0, 0.0));
    frame(&mut state, PointerInput::Other, &widgets);
    frame(&mut state, down(5.0, 5.0), &widgets);
    frame(&mut state, PointerInput::Move { position: (5.0, 12.0) }, &widgets);

    let released = frame(&mut state, up(5.0, 12.0), &widgets);
    assert!(released[1].hovered);
    assert!(!released[1].clicked);
}

#[test]
fn focus_moves_between_text_inputs_and_clears_when_absent() {
    let first = WidgetId::new("first input");
    let second = WidgetId::new("second input");
    let widgets = [
        (first, Sense::FOCUS(), (0.0, 0.0, 10.0, 5.0)),
        (second, Sense::FOCUS(), (0.0, 5.0, 10.0, 5.0)),
    ];
    let mut state = InteractionState::new((0.0, 0.0));
    frame(&mut state, PointerInput::Other, &widgets);
    frame(&mut state, down(2.0, 2.0), &widgets);
    assert!(state.is_focused(first));

    frame(&mut state, up(2.0, 2.0), &widgets);
    frame(&mut state, down(2.0, 7.0), &widgets);
    assert!(state.is_focused(second));
    assert!(!state.is_focused(first));

    frame(&mut state, up(2.0, 7.0), &widgets);
    frame(&mut state, PointerInput::Other, &[]);
    assert!(!state.is_focused(second));
}
