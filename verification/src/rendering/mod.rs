use vstd::prelude::*;

use crate::rendering::{
    framebuffer_container::FramebufferContainer, pipeline_container::PipelineContainer,
    texture_container::TextureContainer,
};

pub mod buffer_container;
pub mod framebuffer_container;
pub mod pipeline_container;
pub mod slot_storage;
pub mod texture_container;

verus! {

/// The containers a renderer draws from.
pub struct RendererContext {
    pipeline_c: PipelineContainer,
    framebuffer_c: FramebufferContainer,
    texture_c: TextureContainer,
}

} // verus!
