//! layout transitions between resolved rectangles

use std::time::Duration;

use vstd::prelude::*;

verus! {

/// the set of rectangle components a transition animates
#[derive(Clone, Copy, Debug, Default, PartialEq, Eq, Structural)]
pub struct TransitionProperties(u8);

/// the set whose bits are `bits`
pub closed spec fn from_bits(bits: u8) -> TransitionProperties {
    TransitionProperties(bits)
}

/// the components of either set
pub open spec fn union_of(a: TransitionProperties, b: TransitionProperties) -> TransitionProperties {
    from_bits(a.bits() | b.bits())
}

/// the components of both sets
pub open spec fn intersection_of(a: TransitionProperties, b: TransitionProperties) -> TransitionProperties {
    from_bits(a.bits() & b.bits())
}

/// a set is its bits: the bits of `from_bits(bits)` are `bits`, and every set is
/// made from its own bits
pub proof fn lemma_bits(a: TransitionProperties, bits: u8)
    ensures
        from_bits(bits).bits() == bits,
        from_bits(a.bits()) == a,
{
}

impl TransitionProperties {
    /// no component
    #[allow(non_snake_case)]
    pub fn NONE() -> (value: Self)
        ensures
            value == from_bits(0),
            value.bits() == 0,
            is_component_set(value),
    {
        TransitionProperties(0)
    }

    /// the horizontal position
    #[allow(non_snake_case)]
    pub fn X() -> (value: Self)
        ensures
            value == from_bits(1),
            value.bits() == 1,
            is_component_set(value),
    {
        TransitionProperties(1)
    }

    /// the vertical position
    #[allow(non_snake_case)]
    pub fn Y() -> (value: Self)
        ensures
            value == from_bits(2),
            value.bits() == 2,
            is_component_set(value),
    {
        TransitionProperties(2)
    }

    /// the width
    #[allow(non_snake_case)]
    pub fn WIDTH() -> (value: Self)
        ensures
            value == from_bits(4),
            value.bits() == 4,
            is_component_set(value),
    {
        TransitionProperties(4)
    }

    /// the height
    #[allow(non_snake_case)]
    pub fn HEIGHT() -> (value: Self)
        ensures
            value == from_bits(8),
            value.bits() == 8,
            is_component_set(value),
    {
        TransitionProperties(8)
    }

    /// both coordinates
    #[allow(non_snake_case)]
    pub fn POSITION() -> (value: Self)
        ensures
            value == from_bits(3),
            value.bits() == 3,
            is_component_set(value),
    {
        TransitionProperties(3)
    }

    /// both dimensions
    #[allow(non_snake_case)]
    pub fn SIZE() -> (value: Self)
        ensures
            value == from_bits(12),
            value.bits() == 12,
            is_component_set(value),
    {
        TransitionProperties(12)
    }

    /// every component
    #[allow(non_snake_case)]
    pub fn LAYOUT() -> (value: Self)
        ensures
            value == from_bits(15),
            value.bits() == 15,
            is_component_set(value),
    {
        TransitionProperties(15)
    }

    /// the bits of the set
    pub closed spec fn bits(self) -> u8 {
        self.0
    }

    /// whether the sets share a component
    pub fn contains(self, other: Self) -> (shared: bool)
        ensures
            shared == (self.bits() & other.bits() != 0),
    {
        self.0 & other.0 != 0
    }

    pub fn union(self, other: Self) -> (result: Self)
        ensures
            result == union_of(self, other),
            result.bits() == self.bits() | other.bits(),
            is_component_set(self) && is_component_set(other) ==> is_component_set(result),
    {
        let x = self.0;
        let y = other.0;
        assert(x <= 15 && y <= 15 ==> x | y <= 15) by (bit_vector);
        TransitionProperties(x | y)
    }

    pub fn intersection(self, other: Self) -> (result: Self)
        ensures
            result == intersection_of(self, other),
            result.bits() == self.bits() & other.bits(),
            is_component_set(self) && is_component_set(other) ==> is_component_set(result),
    {
        let x = self.0;
        let y = other.0;
        assert(x <= 15 && y <= 15 ==> x & y <= 15) by (bit_vector);
        TransitionProperties(x & y)
    }

    pub fn is_empty(self) -> (empty: bool)
        ensures
            empty == (self == from_bits(0)),
            empty == (self.bits() == 0),
    {
        self.0 == 0
    }
}

/// union of transition properties is commutative, associative and idempotent,
/// has no effect with the empty set, and makes the composite sets of their parts
pub proof fn law_union(a: TransitionProperties, b: TransitionProperties, c: TransitionProperties)
    ensures
        union_of(a, b) == union_of(b, a),
        union_of(a, union_of(b, c)) == union_of(union_of(a, b), c),
        union_of(a, from_bits(0)) == a,
        union_of(a, a) == a,
        from_bits(3) == union_of(from_bits(1), from_bits(2)),
        from_bits(12) == union_of(from_bits(4), from_bits(8)),
        from_bits(15) == union_of(from_bits(3), from_bits(12)),
        a.bits() != 0 ==> union_of(a, b).bits() & a.bits() != 0,
{
    let x = a.bits();
    let y = b.bits();
    let z = c.bits();
    assert(x | y == y | x) by (bit_vector);
    assert(x | (y | z) == (x | y) | z) by (bit_vector);
    assert(x | 0 == x) by (bit_vector);
    assert(x | x == x) by (bit_vector);
    assert(1u8 | 2u8 == 3u8) by (bit_vector);
    assert(4u8 | 8u8 == 12u8) by (bit_vector);
    assert(3u8 | 12u8 == 15u8) by (bit_vector);
    assert(x != 0 ==> (x | y) & x != 0) by (bit_vector);
}

/// every set made from the named components holds no other bit
pub open spec fn is_component_set(a: TransitionProperties) -> bool {
    a.bits() <= 15
}

/// intersection of transition properties is commutative, absorbs a union with
/// the same set, is empty with the empty set, keeps a set of components whole
/// with the full layout set, and is empty exactly when no component is shared
pub proof fn law_intersection(a: TransitionProperties, b: TransitionProperties)
    requires
        is_component_set(a),
    ensures
        intersection_of(a, b) == intersection_of(b, a),
        intersection_of(a, union_of(a, b)) == a,
        intersection_of(a, from_bits(0)) == from_bits(0),
        intersection_of(a, from_bits(15)) == a,
        (intersection_of(a, b) == from_bits(0)) <==> forall|flag: u8|
            #![trigger a.bits() & flag]
            (flag == 1 || flag == 2 || flag == 4 || flag == 8) ==> (a.bits() & flag == 0 || b.bits() & flag == 0),
{
    let x = a.bits();
    let y = b.bits();
    assert(x & y == y & x) by (bit_vector);
    assert(x & (x | y) == x) by (bit_vector);
    assert(x & 0 == 0) by (bit_vector);
    assert(x <= 15 ==> x & 15 == x) by (bit_vector);
    assert(x <= 15 ==> ((x & y == 0) <==> ((x & 1 == 0 || y & 1 == 0) && (x & 2 == 0 || y & 2 == 0) && (x & 4 == 0
        || y & 4 == 0) && (x & 8 == 0 || y & 8 == 0)))) by (bit_vector);
    if intersection_of(a, b) == from_bits(0) {
        assert(x & y == 0);
    } else {
        assert(x & y != 0);
        if (x & 1 != 0 && y & 1 != 0) {
            assert(a.bits() & 1 != 0);
        } else if (x & 2 != 0 && y & 2 != 0) {
            assert(a.bits() & 2 != 0);
        } else if (x & 4 != 0 && y & 4 != 0) {
            assert(a.bits() & 4 != 0);
        } else {
            assert(a.bits() & 8 != 0);
        }
    }
}

/// easing curve applied to a transition's progress
#[derive(Clone, Copy, Debug, Default, PartialEq, Eq, Structural)]
pub enum Easing {
    #[default]
    Linear,
    EaseInQuad,
    EaseOutQuad,
    EaseInOutQuad,
}

/// transition between layout rectangles resolved for an identified node
#[derive(Clone, Copy, Debug, PartialEq, Eq)]
pub struct Transition {
    pub duration: Duration,
    pub easing: Easing,
    pub properties: TransitionProperties,
}

/// `t` with the components of `bits` added to those it animates
pub open spec fn adding(t: Transition, bits: u8) -> Transition {
    Transition { properties: union_of(t.properties, from_bits(bits)), ..t }
}

impl Transition {
    /// a transition of `duration` that animates nothing until components are added
    pub fn new(duration: Duration) -> (transition: Self)
        ensures
            transition == (Transition { duration, easing: Easing::Linear, properties: from_bits(0) }),
    {
        Transition { duration, easing: Easing::Linear, properties: TransitionProperties::NONE() }
    }

    pub fn easing(self, easing: Easing) -> (transition: Self)
        ensures
            transition == (Transition { easing, ..self }),
    {
        Transition { easing, ..self }
    }

    pub fn x(self) -> (transition: Self)
        ensures
            transition == adding(self, 1),
    {
        Transition { properties: self.properties.union(TransitionProperties::X()), ..self }
    }

    pub fn y(self) -> (transition: Self)
        ensures
            transition == adding(self, 2),
    {
        Transition { properties: self.properties.union(TransitionProperties::Y()), ..self }
    }

    pub fn width(self) -> (transition: Self)
        ensures
            transition == adding(self, 4),
    {
        Transition { properties: self.properties.union(TransitionProperties::WIDTH()), ..self }
    }

    pub fn height(self) -> (transition: Self)
        ensures
            transition == adding(self, 8),
    {
        Transition { properties: self.properties.union(TransitionProperties::HEIGHT()), ..self }
    }

    /// animates placement relative to the current parent
    ///
    /// changing parents may snap rather than preserve the global position
    pub fn position(self) -> (transition: Self)
        ensures
            transition == adding(self, 3),
    {
        Transition { properties: self.properties.union(TransitionProperties::POSITION()), ..self }
    }

    pub fn size(self) -> (transition: Self)
        ensures
            transition == adding(self, 12),
    {
        Transition { properties: self.properties.union(TransitionProperties::SIZE()), ..self }
    }

    pub fn layout(self) -> (transition: Self)
        ensures
            transition == adding(self, 15),
    {
        Transition { properties: self.properties.union(TransitionProperties::LAYOUT()), ..self }
    }
}

/// adding every layout component one by one, by position and size, or twice,
/// gives the same transition
pub proof fn law_layout(t: Transition)
    ensures
        adding(adding(adding(adding(t, 1), 2), 4), 8) == adding(t, 15),
        adding(adding(t, 3), 12) == adding(t, 15),
        adding(adding(t, 15), 15) == adding(t, 15),
        adding(t, 15).properties == union_of(t.properties, from_bits(15)),
{
    let x = t.properties.bits();
    assert(((((x | 1) | 2) | 4) | 8) == x | 15) by (bit_vector);
    assert(((x | 3) | 12) == x | 15) by (bit_vector);
    assert(((x | 15) | 15) == x | 15) by (bit_vector);
    lemma_bits(t.properties, x | 1);
    lemma_bits(t.properties, (x | 1) | 2);
    lemma_bits(t.properties, ((x | 1) | 2) | 4);
    lemma_bits(t.properties, x | 3);
    lemma_bits(t.properties, x | 15);
    lemma_bits(t.properties, 1);
    lemma_bits(t.properties, 2);
    lemma_bits(t.properties, 3);
    lemma_bits(t.properties, 4);
    lemma_bits(t.properties, 8);
    lemma_bits(t.properties, 12);
    lemma_bits(t.properties, 15);
}

} // verus!
