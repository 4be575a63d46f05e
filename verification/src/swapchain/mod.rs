pub mod frame_data;
pub mod frame_sync;

pub use frame_data::FrameData;
pub use frame_sync::FrameSync;
