use vstd::prelude::*;

verus! {

/// This struct is responsible for frame synchronization.
/// There's one framesync for every FrameInFlight.
///
/// It holds the raw handles of a `VkFence` and two `VkSemaphore`s.
#[derive(Debug, Clone)]
pub struct FrameSync {
    frame_is_done: u64,
    render_finished: u64,
    image_available: u64,
}

impl FrameSync {
    /// Groups the synchronization objects of one frame in flight.
    pub fn new(frame_is_done: u64, image_available: u64, render_finished: u64) -> (res: Self)
        ensures
            res.spec_frame_done() == frame_is_done,
            res.spec_image_available() == image_available,
            res.spec_render_finished() == render_finished,
    {
        Self { frame_is_done, render_finished, image_available }
    }

    /// Fence signalled when the frame's work is done.
    pub fn frame_done(&self) -> (res: u64)
        ensures
            res == self.spec_frame_done(),
    {
        self.frame_is_done
    }

    pub closed spec fn spec_frame_done(&self) -> u64 {
        self.frame_is_done
    }

    ///Returns semaphore that is responsible for signaling when image is ready for present call
    pub fn image_available(&self) -> (res: u64)
        ensures
            res == self.spec_image_available(),
    {
        self.image_available
    }

    pub closed spec fn spec_image_available(&self) -> u64 {
        self.image_available
    }

    ///Returns semaphore that is responsible for signaling when image was presented
    pub fn render_finished(&self) -> (res: u64)
        ensures
            res == self.spec_render_finished(),
    {
        self.render_finished
    }

    pub closed spec fn spec_render_finished(&self) -> u64 {
        self.render_finished
    }
}

} // verus!
