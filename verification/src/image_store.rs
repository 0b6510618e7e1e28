//! the images a software renderer holds, handed out as `u64` handles
//!
//! a dropped image stays readable until the frame that dropped it ends, so
//! commands recorded earlier in the frame can still draw it

use slotmap::{DefaultKey, Key, KeyData, SlotMap};
use vstd::prelude::*;

use crate::image::{ImageData, ImageId};

verus! {

/// slotmap's `SlotMap` of image data, its keys taken as the `u64` that
/// `KeyData::as_ffi` gives
#[verifier::external_body]
pub struct ImageSlots {
    map: SlotMap<DefaultKey, ImageData>,
}

/// the images in a slot map, by handle
pub uninterp spec fn image_slots(slots: ImageSlots) -> Map<u64, ImageData>;

/// the handle of the occupied slot a handle names: slotmap keeps the version of
/// an occupied slot odd, and `KeyData::from_ffi` makes the version odd
pub open spec fn occupied_handle(handle: u64) -> u64 {
    handle | 0x1_0000_0000
}

/// the live images of a map, all under handles of occupied slots
pub open spec fn handles_occupied(images: Map<u64, ImageData>) -> bool {
    &&& images.dom().finite()
    &&& forall|handle: u64| #[trigger] images.dom().contains(handle) ==> occupied_handle(handle) == handle
}

impl ImageSlots {
    /// `SlotMap::new`: an empty map
    #[verifier::external_body]
    fn new() -> (created: Self)
        ensures
            image_slots(created).dom() == Set::<u64>::empty(),
    {
        ImageSlots { map: SlotMap::new() }
    }

    /// `SlotMap::insert` and `KeyData::as_ffi`: stores `image` under a handle no
    /// stored image has
    ///
    /// slotmap panics once its slots are all taken and it would need its
    /// `u32::MAX`-th, which the bound on stored images rules out
    #[verifier::external_body]
    fn insert(&mut self, image: ImageData) -> (handle: u64)
        requires
            handles_occupied(image_slots(*old(self))),
            image_slots(*old(self)).dom().len() < u32::MAX - 1,
        ensures
            !image_slots(*old(self)).dom().contains(handle),
            occupied_handle(handle) == handle,
            image_slots(*final(self)) == image_slots(*old(self)).insert(handle, image),
    {
        let key: DefaultKey = self.map.insert(image);
        key.data().as_ffi()
    }

    /// `KeyData::from_ffi` and `SlotMap::get`: the image stored under the slot
    /// `handle` names
    #[verifier::external_body]
    fn get(&self, handle: u64) -> (image: Option<&ImageData>)
        ensures
            image_slots(*self).dom().contains(occupied_handle(handle)) ==> image == Some(
                &image_slots(*self)[occupied_handle(handle)],
            ),
            !image_slots(*self).dom().contains(occupied_handle(handle)) ==> image is None,
    {
        let key: DefaultKey = KeyData::from_ffi(handle).into();
        self.map.get(key)
    }

    /// `KeyData::from_ffi` and `SlotMap::remove`: takes out the image stored
    /// under the slot `handle` names
    #[verifier::external_body]
    fn remove(&mut self, handle: u64) -> (image: Option<ImageData>)
        ensures
            image_slots(*old(self)).dom().contains(occupied_handle(handle)) ==> {
                &&& image == Some(image_slots(*old(self))[occupied_handle(handle)])
                &&& image_slots(*final(self)) == image_slots(*old(self)).remove(occupied_handle(handle))
            },
            !image_slots(*old(self)).dom().contains(occupied_handle(handle)) ==> {
                &&& image is None
                &&& image_slots(*final(self)) == image_slots(*old(self))
            },
    {
        let key: DefaultKey = KeyData::from_ffi(handle).into();
        self.map.remove(key)
    }
}

/// `images` without those that `dropped` names
pub open spec fn without_dropped(images: Map<u64, ImageData>, dropped: Seq<u64>) -> Map<u64, ImageData>
    decreases dropped.len(),
{
    if dropped.len() == 0 {
        images
    } else {
        without_dropped(images, dropped.drop_last()).remove(occupied_handle(dropped.last()))
    }
}

/// the images a renderer holds, with those dropped during the current frame
pub struct RenderImages {
    slots: ImageSlots,
    dropped: Vec<u64>,
}

impl RenderImages {
    /// the images held, by handle, dropped ones included until the frame ends
    pub closed spec fn images(&self) -> Map<u64, ImageData> {
        image_slots(self.slots)
    }

    /// the handles dropped during the current frame
    pub closed spec fn dropped(&self) -> Seq<u64> {
        self.dropped@
    }

    pub closed spec fn wf(&self) -> bool {
        handles_occupied(image_slots(self.slots))
    }

    /// no images
    pub fn new() -> (images: Self)
        ensures
            images.wf(),
            images.images() == Map::<u64, ImageData>::empty(),
            images.dropped() == Seq::<u64>::empty(),
    {
        let images = RenderImages { slots: ImageSlots::new(), dropped: Vec::new() };
        proof {
            assert(image_slots(images.slots) =~= Map::<u64, ImageData>::empty());
        }
        images
    }

    /// stores a valid image and returns its handle, which no held image has
    pub fn create_image(&mut self, data: ImageData) -> (id: ImageId)
        requires
            old(self).wf(),
            data.valid(),
            old(self).images().dom().len() < u32::MAX - 1,
        ensures
            final(self).wf(),
            !old(self).images().dom().contains(id.0),
            final(self).images() == old(self).images().insert(id.0, data),
            final(self).dropped() == old(self).dropped(),
    {
        data.validate();
        let handle = self.slots.insert(data);
        proof {
            let images = image_slots(self.slots);
            assert(images.dom() =~= image_slots(old(self).slots).dom().insert(handle));
            assert forall|other: u64| #[trigger] images.dom().contains(other) implies occupied_handle(other)
                == other by {
                if other != handle {
                    assert(image_slots(old(self).slots).dom().contains(other));
                }
            }
        }
        ImageId(handle)
    }

    /// drops the image `id` names: it stays readable until the frame ends
    pub fn drop_image(&mut self, id: ImageId)
        requires
            old(self).wf(),
        ensures
            final(self).wf(),
            final(self).images() == old(self).images(),
            old(self).images().dom().contains(occupied_handle(id.0)) ==> final(self).dropped()
                == old(self).dropped().push(id.0),
            !old(self).images().dom().contains(occupied_handle(id.0)) ==> final(self).dropped()
                == old(self).dropped(),
    {
        if self.slots.get(id.0).is_some() {
            self.dropped.push(id.0);
        }
    }

    /// the image `id` names, while it is held
    pub fn get(&self, id: ImageId) -> (image: Option<&ImageData>)
        ensures
            self.images().dom().contains(occupied_handle(id.0)) ==> image == Some(
                &self.images()[occupied_handle(id.0)],
            ),
            !self.images().dom().contains(occupied_handle(id.0)) ==> image is None,
    {
        self.slots.get(id.0)
    }

    /// ends the frame: the images dropped during it are released
    pub fn finish_frame(&mut self)
        requires
            old(self).wf(),
        ensures
            final(self).wf(),
            final(self).images() == without_dropped(old(self).images(), old(self).dropped()),
            final(self).dropped() == Seq::<u64>::empty(),
    {
        let mut index: usize = 0;
        while index < self.dropped.len()
            invariant
                index <= self.dropped@.len(),
                self.dropped@ == old(self).dropped@,
                handles_occupied(image_slots(self.slots)),
                image_slots(self.slots) == without_dropped(
                    image_slots(old(self).slots),
                    self.dropped@.subrange(0, index as int),
                ),
            decreases self.dropped@.len() - index,
        {
            let handle = self.dropped[index];
            let ghost before = image_slots(self.slots);
            let _ = self.slots.remove(handle);
            proof {
                let prefix = self.dropped@.subrange(0, index + 1);
                assert(prefix.drop_last() =~= self.dropped@.subrange(0, index as int));
                assert(prefix.last() == handle);
                let images = image_slots(self.slots);
                assert(images == before.remove(occupied_handle(handle)));
                assert forall|other: u64| #[trigger] images.dom().contains(other) implies occupied_handle(other)
                    == other by {
                    assert(before.dom().contains(other));
                }
            }
            index = index + 1;
        }
        proof {
            assert(self.dropped@.subrange(0, index as int) =~= self.dropped@);
        }
        self.dropped.clear();
    }
}

} // verus!
