//! Render-graph scheduling and resource bookkeeping for a Vulkan renderer.
//!
//! The render graph collects GPU operations, culls the ones that do not
//! influence the target operation and orders the rest so that every
//! operation runs after the operations whose output it reads.
pub mod queue;
pub mod render_graph;
pub mod rendering;
pub mod swapchain;
