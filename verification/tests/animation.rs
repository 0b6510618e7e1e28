use std::time::Duration;

use blit::animation::{Easing, Transition, TransitionProperties};

#[test]
fn a_new_transition_animates_nothing() {
    let transition = Transition::new(Duration::from_millis(100));
    assert_eq!(
        transition,
        Transition { duration: Duration::from_millis(100), easing: Easing::Linear, properties: TransitionProperties::NONE() }
    );
    assert!(transition.properties.is_empty());
}

#[test]
fn union_builds_the_composite_sets() {
    let x = TransitionProperties::X();
    let y = TransitionProperties::Y();
    let width = TransitionProperties::WIDTH();
    let height = TransitionProperties::HEIGHT();
    assert_eq!(x.union(y), TransitionProperties::POSITION());
    assert_eq!(width.union(height), TransitionProperties::SIZE());
    assert_eq!(TransitionProperties::POSITION().union(TransitionProperties::SIZE()), TransitionProperties::LAYOUT());
    assert_eq!(x.union(y), y.union(x));
    assert_eq!(x.union(TransitionProperties::NONE()), x);
    assert_eq!(x.union(x), x);
}

#[test]
fn intersection_keeps_shared_components() {
    let position = TransitionProperties::POSITION();
    let size = TransitionProperties::SIZE();
    assert!(position.intersection(size).is_empty());
    assert_eq!(position.intersection(TransitionProperties::LAYOUT()), position);
    assert_eq!(position.intersection(position.union(size)), position);
    assert_eq!(position.intersection(TransitionProperties::X()), TransitionProperties::X());
    assert!(position.contains(TransitionProperties::Y()));
    assert!(!position.contains(TransitionProperties::WIDTH()));
}

#[test]
fn layout_adds_every_component_once() {
    let transition = Transition::new(Duration::from_millis(50)).easing(Easing::EaseInQuad);
    let layout = transition.layout();
    assert_eq!(layout, transition.x().y().width().height());
    assert_eq!(layout, transition.position().size());
    assert_eq!(layout.layout(), layout);
    assert_eq!(layout.properties, TransitionProperties::LAYOUT());
    assert_eq!(layout.easing, Easing::EaseInQuad);
}
