use vstd::prelude::*;

use crate::rendering::slot_storage::{
    empty_allocation, handle_slots, handle_slots_len, texture_slots_len, HandleSlots, TextureSlots, insert_handle, insert_texture, new_handle_slots,
    new_texture_slots, texture_slots,
};
use gpu_allocator::vulkan::Allocation;
use std::collections::HashMap;

verus! {

/// Unique identifier to a `Texture` in a `TextureContainer`.
///
/// It holds the 64-bit form of the slot-map key the texture was stored under.
#[derive(Debug, Clone, Copy, PartialEq, Eq, Structural, Hash)]
pub struct TextureId {
    pub key: u64,
}

/// Unique identifier to a `TextureView` in a `TextureContainer`.
///
/// It holds the 64-bit form of the slot-map key the view was stored under.
#[derive(Debug, Clone, Copy, PartialEq, Eq, Structural, Hash)]
pub struct TextureViewId {
    pub key: u64,
}

/// How many dimensions an image has.
#[derive(Debug, Clone, Copy, PartialEq, Eq, Structural)]
pub enum ImageDimension {
    OneD,
    TwoD,
    ThreeD,
}

/// Width, height and depth of an image, in texels.
#[derive(Debug, Clone, Copy, PartialEq, Eq, Structural)]
pub struct Extent3D {
    pub width: u32,
    pub height: u32,
    pub depth: u32,
}

/// The dimension of an image of the given extent: three when it is deeper
/// than one texel, else two when it is taller than one texel, else one.
pub open spec fn dimension_of(extent: Extent3D) -> ImageDimension {
    if extent.depth > 1 {
        ImageDimension::ThreeD
    } else if extent.height > 1 {
        ImageDimension::TwoD
    } else {
        ImageDimension::OneD
    }
}

/// Texture
#[derive(Debug)]
pub struct Texture {
    /// Raw `VkImage` handle.
    pub image: u64,
    pub alloc: Allocation,
    pub image_type: ImageDimension,
    pub extent: Extent3D,
    /// Raw `VkFormat` value.
    pub format: i32,
}

impl Default for Texture {
    /// A texture without image or memory.
    fn default() -> (res: Self)
        ensures
            res.image == 0,
            res.image_type == ImageDimension::OneD,
            res.extent == (Extent3D { width: 0, height: 0, depth: 0 }),
            res.format == 0,
    {
        Texture {
            image: 0,
            alloc: empty_allocation(),
            image_type: ImageDimension::OneD,
            extent: Extent3D { width: 0, height: 0, depth: 0 },
            format: 0,
        }
    }
}

/// Keeps the textures and texture views of a renderer under unique ids.
pub struct TextureContainer {
    images: TextureSlots,
    image_views: HandleSlots,
    image_view_to_image: HashMap<u64, u64>,
}

impl TextureContainer {
    /// The stored textures, by id key.
    pub closed spec fn textures(&self) -> Map<u64, Texture> {
        texture_slots(self.images)
    }

    /// The raw `VkImageView` handles of the stored views, by id key.
    pub closed spec fn views(&self) -> Map<u64, u64> {
        handle_slots(self.image_views)
    }

    /// For each view made from a description, the texture it was made for.
    pub closed spec fn links(&self) -> Map<u64, u64> {
        self.image_view_to_image@
    }

    /// Both collections are finite.
    pub closed spec fn wf(&self) -> bool {
        &&& self.textures().dom().finite()
        &&& self.views().dom().finite()
    }

    /// Creates empty `TextureContainer`
    pub fn new() -> (res: Self)
        ensures
            res.wf(),
            res.textures() == Map::<u64, Texture>::empty(),
            res.views() == Map::<u64, u64>::empty(),
            res.links() == Map::<u64, u64>::empty(),
    {
        Self {
            images: new_texture_slots(),
            image_views: new_handle_slots(),
            image_view_to_image: HashMap::new(),
        }
    }

    /// Stores the texture described by `create`, backed by the device image
    /// `image` and its memory `alloc`, under a new id.
    pub fn create_texture(&mut self, create: CreateTexture, image: u64, alloc: Allocation) -> (id: TextureId)
        requires
            old(self).wf(),
            old(self).textures().dom().len() < u32::MAX - 1,
        ensures
            final(self).wf(),
            !old(self).textures().dom().contains(id.key),
            final(self).textures() == old(self).textures().insert(
                id.key,
                Texture {
                    image,
                    alloc,
                    image_type: dimension_of(create.extent),
                    extent: create.extent,
                    format: create.image_format,
                },
            ),
            final(self).views() == old(self).views(),
            final(self).links() == old(self).links(),
    {
        let image_type = create.image_type();
        let texture = Texture {
            image,
            alloc,
            image_type,
            extent: create.extent,
            format: create.image_format,
        };
        let key = insert_texture(&mut self.images, texture);
        TextureId { key }
    }

    /// Creates `TextureView` with given `CreateTextureView`: the view holds
    /// no device handle yet and is linked to the texture it was made for.
    pub fn create_texture_view(&mut self, create: CreateTextureView) -> (id: TextureViewId)
        requires
            old(self).wf(),
            old(self).views().dom().len() < u32::MAX - 1,
        ensures
            final(self).wf(),
            !old(self).views().dom().contains(id.key),
            final(self).views() == old(self).views().insert(id.key, 0),
            final(self).links() == old(self).links().insert(id.key, create.texture_id.key),
            final(self).textures() == old(self).textures(),
    {
        broadcast use vstd::std_specs::hash::group_hash_axioms;
        let key = insert_handle(&mut self.image_views, 0);
        self.image_view_to_image.insert(key, create.texture_id.key);
        TextureViewId { key }
    }

    /// **FOR TESTING PURPOSES**
    ///
    /// Creates a dummy `Texture`
    pub fn create_texture_null(&mut self) -> (id: TextureId)
        requires
            old(self).wf(),
            old(self).textures().dom().len() < u32::MAX - 1,
        ensures
            final(self).wf(),
            !old(self).textures().dom().contains(id.key),
            final(self).textures().dom() == old(self).textures().dom().insert(id.key),
            forall|k: u64| k != id.key && old(self).textures().dom().contains(k)
                ==> final(self).textures()[k] == old(self).textures()[k],
            final(self).textures()[id.key].image == 0,
            final(self).textures()[id.key].image_type == ImageDimension::OneD,
            final(self).textures()[id.key].extent == (Extent3D { width: 0, height: 0, depth: 0 }),
            final(self).textures()[id.key].format == 0,
            final(self).views() == old(self).views(),
            final(self).links() == old(self).links(),
    {
        let key = insert_texture(&mut self.images, Texture::default());
        TextureId { key }
    }

    /// **FOR TESTING PURPOSES**
    ///
    /// Creates a dummy `TextureView`
    pub fn create_texture_view_null(&mut self) -> (id: TextureViewId)
        requires
            old(self).wf(),
            old(self).views().dom().len() < u32::MAX - 1,
        ensures
            final(self).wf(),
            !old(self).views().dom().contains(id.key),
            final(self).views() == old(self).views().insert(id.key, 0),
            final(self).textures() == old(self).textures(),
            final(self).links() == old(self).links(),
    {
        let key = insert_handle(&mut self.image_views, 0);
        TextureViewId { key }
    }

    /// The number of stored textures.
    pub fn texture_count(&self) -> (res: usize)
        ensures
            res == self.textures().dom().len(),
    {
        texture_slots_len(&self.images)
    }

    /// The number of stored texture views.
    pub fn view_count(&self) -> (res: usize)
        ensures
            res == self.views().dom().len(),
    {
        handle_slots_len(&self.image_views)
    }
}

/// Configuration parameters for creating a `Texture`.
#[derive(Debug, Clone)]
pub struct CreateTexture {
    pub extent: Extent3D,
    /// Raw `VkFormat` value.
    pub image_format: i32,
}

impl Default for CreateTexture {
    /// An empty extent and the undefined format.
    fn default() -> (res: Self)
        ensures
            res.extent == (Extent3D { width: 0, height: 0, depth: 0 }),
            res.image_format == 0,
    {
        CreateTexture { extent: Extent3D { width: 0, height: 0, depth: 0 }, image_format: 0 }
    }
}

impl CreateTexture {
    /// Creates new `CreateTexture` with default values
    pub fn new() -> (res: Self)
        ensures
            res.extent == (Extent3D { width: 0, height: 0, depth: 0 }),
            res.image_format == 0,
    {
        Self::default()
    }

    /// Sets the dimensions of the texture
    pub fn dimensions(self, width: u32, height: u32, depth: u32) -> (res: Self)
        ensures
            res.extent == (Extent3D { width, height, depth }),
            res.image_format == self.image_format,
    {
        let mut s = self;
        s.extent = Extent3D { width, height, depth };
        s
    }

    /// Sets the image format (a raw `VkFormat` value)
    pub fn image_format(self, image_format: i32) -> (res: Self)
        ensures
            res.extent == self.extent,
            res.image_format == image_format,
    {
        let mut s = self;
        s.image_format = image_format;
        s
    }

    /// The kind of image the texture needs, from its extent.
    pub fn image_type(&self) -> (res: ImageDimension)
        ensures
            res == dimension_of(self.extent),
    {
        if self.extent.depth > 1 {
            ImageDimension::ThreeD
        } else if self.extent.height > 1 {
            ImageDimension::TwoD
        } else {
            ImageDimension::OneD
        }
    }
}

/// The image kind chosen for every extent: deeper than one texel gives a
/// 3D image; else taller than one texel gives a 2D image, whatever the
/// width; else a 1D image.
pub proof fn law_image_dimension(width: u32, height: u32, depth: u32)
    ensures
        depth > 1 ==> dimension_of(Extent3D { width, height, depth }) == ImageDimension::ThreeD,
        depth <= 1 && height > 1 ==> dimension_of(Extent3D { width, height, depth })
            == ImageDimension::TwoD,
        depth <= 1 && height <= 1 ==> dimension_of(Extent3D { width, height, depth })
            == ImageDimension::OneD,
{
}

/// The width never changes the image kind.
pub proof fn law_image_dimension_ignores_width(w1: u32, w2: u32, height: u32, depth: u32)
    ensures
        dimension_of(Extent3D { width: w1, height, depth }) == dimension_of(
            Extent3D { width: w2, height, depth },
        ),
{
    law_image_dimension(w1, height, depth);
    law_image_dimension(w2, height, depth);
}

/// Configuration parameters for creating a `TextureView`.
pub struct CreateTextureView {
    pub texture_id: TextureId,
}

} // verus!
