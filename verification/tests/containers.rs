use graphics::queue::local_thread_pool::LocalCommandPool;
use graphics::render_graph::operations::gpu_operation::WriteBufferOp;
use graphics::rendering::buffer_container::{GeneralBufferId, UniformBufferId, VertexBufferId};
use graphics::rendering::framebuffer_container::FramebufferContainer;
use graphics::rendering::pipeline_container::ShadersContainer;
use graphics::rendering::texture_container::{
    CreateTexture, CreateTextureView, Extent3D, ImageDimension, TextureContainer,
};
use graphics::swapchain::{FrameData, FrameSync};

#[test]
fn texture_views_get_distinct_ids() {
    let mut c = TextureContainer::new();
    let a = c.create_texture_view_null();
    let b = c.create_texture_view_null();
    let t = c.create_texture_null();
    let d = c.create_texture_view(CreateTextureView { texture_id: t });
    assert_ne!(a, b);
    assert_ne!(a, d);
    assert_ne!(b, d);
    let t2 = c.create_texture_null();
    assert_ne!(t, t2);
}

#[test]
fn created_texture_gets_a_fresh_id() {
    let mut c = TextureContainer::new();
    let first = c.create_texture_null();
    let create = CreateTexture::new().dimensions(64, 32, 1).image_format(44);
    let second = c.create_texture(create, 0xabc, gpu_allocator::vulkan::Allocation::default());
    assert_ne!(first, second);
}

#[test]
fn image_type_follows_the_extent() {
    assert_eq!(CreateTexture::new().image_type(), ImageDimension::OneD);
    assert_eq!(CreateTexture::new().dimensions(8, 1, 1).image_type(), ImageDimension::OneD);
    assert_eq!(CreateTexture::new().dimensions(8, 8, 1).image_type(), ImageDimension::TwoD);
    assert_eq!(CreateTexture::new().dimensions(8, 8, 8).image_type(), ImageDimension::ThreeD);
    assert_eq!(CreateTexture::new().dimensions(8, 1, 2).image_type(), ImageDimension::ThreeD);
    assert_eq!(CreateTexture::new().dimensions(0, 0, 0).image_type(), ImageDimension::OneD);
}

#[test]
fn create_texture_builder_sets_fields() {
    let c = CreateTexture::new();
    assert_eq!(c.extent, Extent3D { width: 0, height: 0, depth: 0 });
    assert_eq!(c.image_format, 0);
    let c = c.dimensions(3, 4, 5).image_format(37);
    assert_eq!(c.extent, Extent3D { width: 3, height: 4, depth: 5 });
    assert_eq!(c.image_format, 37);
}

#[test]
fn shaders_get_distinct_ids() {
    let mut s = ShadersContainer::new();
    let a = s.insert(String::from("void main() {}"));
    let b = s.insert(String::from("void main() {}"));
    assert_ne!(a, b);
}

#[test]
fn framebuffer_container_starts_empty() {
    let _ = FramebufferContainer::new();
}

#[test]
fn command_pool_recycles_buffers() {
    let mut pool = LocalCommandPool::new(77);
    assert_eq!(pool.command_pool(), 77);
    assert!(pool.needs_allocation());
    assert_eq!(pool.get_buffer(Some(100)), 100);
    assert!(pool.needs_allocation());
    assert_eq!(pool.get_buffer(Some(101)), 101);
    assert_eq!(pool.get_written_buffers(), &[100, 101]);
    pool.reset();
    assert_eq!(pool.get_written_buffers(), &[] as &[u64]);
    // after a reset the buffers come back in order, first to last
    assert!(!pool.needs_allocation());
    assert_eq!(pool.get_buffer(None), 100);
    assert_eq!(pool.get_written_buffers(), &[100]);
    assert!(!pool.needs_allocation());
    assert_eq!(pool.get_buffer(None), 101);
    assert_eq!(pool.get_written_buffers(), &[100, 101]);
    assert!(pool.needs_allocation());
    assert_eq!(pool.get_buffer(Some(102)), 102);
    assert_eq!(pool.get_written_buffers(), &[100, 101, 102]);
}

#[test]
fn container_counts() {
    let mut c = TextureContainer::new();
    assert_eq!(c.texture_count(), 0);
    assert_eq!(c.view_count(), 0);
    let t = c.create_texture_null();
    c.create_texture_view(CreateTextureView { texture_id: t });
    c.create_texture_view_null();
    assert_eq!(c.texture_count(), 1);
    assert_eq!(c.view_count(), 2);
    let mut s = ShadersContainer::new();
    assert_eq!(s.source_count(), 0);
    s.insert(String::from("a"));
    assert_eq!(s.source_count(), 1);
}

#[test]
fn vertex_write_in_range() {
    let buff = VertexBufferId { buffer: GeneralBufferId { key: 9 }, len: 10 };
    let op = WriteBufferOp::vertex_buffer(buff, vec![1u8; 24], 2, 12, 8).unwrap();
    assert_eq!(op.buffer(), GeneralBufferId { key: 9 });
    assert_eq!(op.offset_bytes(), 96);
    assert_eq!(op.data(), &vec![1u8; 24]);
}

#[test]
fn vertex_write_past_the_end_is_refused() {
    let buff = VertexBufferId { buffer: GeneralBufferId { key: 9 }, len: 10 };
    assert_eq!(WriteBufferOp::vertex_buffer(buff, vec![0u8; 24], 2, 12, 9), None);
    assert!(WriteBufferOp::vertex_buffer(buff, vec![], 0, 12, 10).is_some());
    assert_eq!(WriteBufferOp::vertex_buffer(buff, vec![], 0, 12, 11), None);
}

#[test]
fn uniform_write_offsets_by_the_smallest_block() {
    let buff = UniformBufferId { buffer: GeneralBufferId { key: 3 }, len: 4 };
    let op = WriteBufferOp::uniform_buffer(buff, vec![7u8; 256], 1, 16, 3).unwrap();
    assert_eq!(op.offset_bytes(), 48);
    assert_eq!(op.data().len(), 256);
    assert_eq!(WriteBufferOp::uniform_buffer(buff, vec![7u8; 512], 2, 16, 3), None);
}

#[test]
fn frame_data_getters() {
    let sync = FrameSync::new(1, 2, 3);
    assert_eq!(sync.frame_done(), 1);
    assert_eq!(sync.image_available(), 2);
    assert_eq!(sync.render_finished(), 3);
    let frame = FrameData::new(2, sync, 5, 0xdead);
    assert_eq!(frame.fif_id(), 2);
    assert_eq!(frame.image_id(), 5);
    assert_eq!(*frame.image(), 0xdead);
    assert_eq!(frame.sync().render_finished(), 3);
}
