//! compact frame-local indices
//!
//! each id stores an index plus one so that zero means "none"; layout and
//! content ids use their high bit to choose between two tables

use vstd::prelude::*;

verus! {

/// offset of a layout item in the frame's layout data, or none
#[derive(Clone, Copy, Debug, PartialEq, Eq, Structural)]
pub struct LayoutItemId(u32);

impl LayoutItemId {
    pub closed spec fn raw(self) -> u32 {
        self.0
    }

    /// the id without an item
    #[allow(non_snake_case)]
    pub fn NONE() -> (id: Self)
        ensures
            id.raw() == 0,
    {
        LayoutItemId(0)
    }

    pub fn new(offset: u32) -> (id: Self)
        requires
            offset < u32::MAX,
        ensures
            id.raw() == offset + 1,
    {
        LayoutItemId(offset + 1)
    }

    pub fn offset(self) -> (offset: Option<usize>)
        ensures
            offset == (if self.raw() == 0 { None } else { Some((self.raw() - 1) as usize) }),
    {
        if self.0 == 0 {
            None
        } else {
            Some((self.0 - 1) as usize)
        }
    }
}

/// the high bit that marks a positioned layout or an image
pub const HIGH_BIT: u32 = 0x8000_0000;

/// index into the normal layouts, or into the positioned layouts when the high bit is set
#[derive(Clone, Copy, Debug, Default, PartialEq, Eq, Structural)]
pub struct LayoutId(u32);

impl LayoutId {
    pub closed spec fn raw(self) -> u32 {
        self.0
    }

    #[allow(non_snake_case)]
    pub fn NONE() -> (id: Self)
        ensures
            id.raw() == 0,
    {
        LayoutId(0)
    }

    pub fn normal(index: usize) -> (id: Self)
        requires
            index + 1 < HIGH_BIT,
        ensures
            id.raw() == index + 1,
    {
        LayoutId((index + 1) as u32)
    }

    pub fn positioned(index: usize) -> (id: Self)
        requires
            index + 1 < HIGH_BIT,
        ensures
            id.raw() == HIGH_BIT + index + 1,
    {
        let id = (index + 1) as u32;
        assert(HIGH_BIT | id == HIGH_BIT + id) by (bit_vector)
            requires
                id < HIGH_BIT,
        ;
        LayoutId(HIGH_BIT | id)
    }

    /// the index in its table, or `None` for the empty id
    pub fn index(self) -> (index: Option<usize>)
        ensures
            index == layout_index(self.raw()),
    {
        let low = self.0 & !HIGH_BIT;
        let raw = self.0;
        assert(raw & !HIGH_BIT == raw % 0x8000_0000u32) by (bit_vector);
        if low == 0 {
            None
        } else {
            Some((low - 1) as usize)
        }
    }

    pub fn is_positioned(self) -> (positioned: bool)
        ensures
            positioned == (self.raw() >= HIGH_BIT),
    {
        let raw = self.0;
        assert((raw & HIGH_BIT != 0) == (raw >= 0x8000_0000)) by (bit_vector);
        self.0 & HIGH_BIT != 0
    }
}

/// the table index a raw layout id refers to
pub open spec fn layout_index(raw: u32) -> Option<usize> {
    if raw % HIGH_BIT == 0 {
        None
    } else {
        Some((raw % HIGH_BIT - 1) as usize)
    }
}

/// an id made for a normal layout gives back its index and is not positioned;
/// one made for a positioned layout gives back its index and is positioned
pub proof fn law_layout_id_round_trip(index: usize)
    requires
        index + 1 < HIGH_BIT,
    ensures
        layout_index((index + 1) as u32) == Some(index),
        ((index + 1) as u32) < HIGH_BIT,
        layout_index((HIGH_BIT + index + 1) as u32) == Some(index),
        (HIGH_BIT + index + 1) as u32 >= HIGH_BIT,
{
}

/// decoded content of a node
#[derive(Clone, Copy, Debug, PartialEq, Eq, Structural)]
pub enum ContentRef {
    Empty,
    Text(usize),
    Image(usize),
}

/// index into the frame's texts, or into its images when the high bit is set
#[derive(Clone, Copy, Debug, Default, PartialEq, Eq, Structural)]
pub struct ContentId(u32);

impl ContentId {
    pub closed spec fn raw(self) -> u32 {
        self.0
    }

    /// what an id with this raw value refers to
    pub open spec fn decoded(raw: u32) -> ContentRef {
        if raw == 0 {
            ContentRef::Empty
        } else if raw < HIGH_BIT {
            ContentRef::Text((raw - 1) as usize)
        } else if raw == HIGH_BIT {
            ContentRef::Empty
        } else {
            ContentRef::Image((raw - HIGH_BIT - 1) as usize)
        }
    }

    #[allow(non_snake_case)]
    pub fn NONE() -> (id: Self)
        ensures
            id.raw() == 0,
    {
        ContentId(0)
    }

    pub fn text(index: usize) -> (id: Self)
        requires
            index + 1 < HIGH_BIT,
        ensures
            id.raw() == index + 1,
            Self::decoded(id.raw()) == ContentRef::Text(index),
    {
        ContentId((index + 1) as u32)
    }

    pub fn image(index: usize) -> (id: Self)
        requires
            index + 1 < HIGH_BIT,
        ensures
            id.raw() == HIGH_BIT + index + 1,
            Self::decoded(id.raw()) == ContentRef::Image(index),
    {
        let id = (index + 1) as u32;
        assert(HIGH_BIT | id == HIGH_BIT + id) by (bit_vector)
            requires
                id < HIGH_BIT,
        ;
        ContentId(HIGH_BIT | id)
    }

    /// the content this id refers to
    ///
    /// the image bit alone, which no constructor makes, reads as no content
    pub fn decode(self) -> (content: ContentRef)
        ensures
            content == Self::decoded(self.raw()),
    {
        let raw = self.0;
        assert((raw & HIGH_BIT == 0) == (raw < 0x8000_0000)) by (bit_vector);
        assert(raw >= 0x8000_0000 ==> raw & !HIGH_BIT == raw - 0x8000_0000) by (bit_vector);
        if self.0 == 0 {
            ContentRef::Empty
        } else if self.0 & HIGH_BIT == 0 {
            ContentRef::Text((self.0 - 1) as usize)
        } else {
            let low = self.0 & !HIGH_BIT;
            if low == 0 {
                ContentRef::Empty
            } else {
                ContentRef::Image((low - 1) as usize)
            }
        }
    }
}

/// index into one of the frame's value tables, or none
#[derive(Clone, Copy, Debug, Default, PartialEq, Eq, Structural)]
pub struct StyleId(u32);

impl StyleId {
    pub closed spec fn raw(self) -> u32 {
        self.0
    }

    #[allow(non_snake_case)]
    pub fn NONE() -> (id: Self)
        ensures
            id.raw() == 0,
    {
        StyleId(0)
    }

    pub fn new(index: usize) -> (id: Self)
        requires
            index + 1 <= u32::MAX,
        ensures
            id.raw() == index + 1,
    {
        StyleId((index + 1) as u32)
    }

    pub fn index(self) -> (index: Option<usize>)
        ensures
            index == (if self.raw() == 0 { None } else { Some((self.raw() - 1) as usize) }),
    {
        if self.0 == 0 {
            None
        } else {
            Some((self.0 - 1) as usize)
        }
    }
}

#[derive(Clone, Copy, Debug, Default, PartialEq, Eq, Structural)]
pub struct ShadowId(u32);

impl ShadowId {
    pub closed spec fn raw(self) -> u32 {
        self.0
    }

    #[allow(non_snake_case)]
    pub fn NONE() -> (id: Self)
        ensures
            id.raw() == 0,
    {
        ShadowId(0)
    }

    pub fn new(index: usize) -> (id: Self)
        requires
            index + 1 <= u32::MAX,
        ensures
            id.raw() == index + 1,
    {
        ShadowId((index + 1) as u32)
    }

    pub fn index(self) -> (index: Option<usize>)
        ensures
            index == (if self.raw() == 0 { None } else { Some((self.raw() - 1) as usize) }),
    {
        if self.0 == 0 {
            None
        } else {
            Some((self.0 - 1) as usize)
        }
    }
}

#[derive(Clone, Copy, Debug, Default, PartialEq, Eq, Structural)]
pub struct ClipSpecId(u32);

impl ClipSpecId {
    pub closed spec fn raw(self) -> u32 {
        self.0
    }

    #[allow(non_snake_case)]
    pub fn NONE() -> (id: Self)
        ensures
            id.raw() == 0,
    {
        ClipSpecId(0)
    }

    pub fn new(index: usize) -> (id: Self)
        requires
            index + 1 <= u32::MAX,
        ensures
            id.raw() == index + 1,
    {
        ClipSpecId((index + 1) as u32)
    }

    pub fn index(self) -> (index: Option<usize>)
        ensures
            index == (if self.raw() == 0 { None } else { Some((self.raw() - 1) as usize) }),
    {
        if self.0 == 0 {
            None
        } else {
            Some((self.0 - 1) as usize)
        }
    }
}

/// identifies a node only during the current render
///
/// do not store this across renders
#[derive(Clone, Copy, Debug, PartialEq, Eq, Structural)]
pub struct NodeId {
    pub value: u32,
}

impl NodeId {
    /// the node's index in the frame
    pub fn index(self) -> (index: usize)
        requires
            self.value >= 1,
        ensures
            index == self.value - 1,
    {
        (self.value - 1) as usize
    }
}

/// retained frame graph memory after its buffers have grown
#[derive(Clone, Copy, Debug, Default, PartialEq, Eq, Structural)]
pub struct FrameGraphMemory {
    pub node_size: usize,
    pub node_capacity: usize,
    pub heap_bytes: usize,
}

} // verus!
