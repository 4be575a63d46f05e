pub mod gpu_operation;
pub mod resource;
pub mod dag;
pub mod render_graph;
pub mod operations;
