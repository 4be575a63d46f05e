use vstd::prelude::*;

use crate::swapchain::frame_sync::FrameSync;

verus! {

/// What one frame in flight draws into: its index, its synchronization
/// objects, and the swapchain image (index and raw `VkImage` handle).
#[derive(Debug)]
pub struct FrameData {
    fif_id: usize,
    sync: FrameSync,
    image_id: u32,
    image: u64,
}

impl FrameData {
    pub closed spec fn spec_fif_id(&self) -> usize {
        self.fif_id
    }

    pub closed spec fn spec_sync(&self) -> FrameSync {
        self.sync
    }

    pub closed spec fn spec_image_id(&self) -> u32 {
        self.image_id
    }

    pub closed spec fn spec_image(&self) -> u64 {
        self.image
    }

    pub fn new(fif_id: usize, sync: FrameSync, image_id: u32, image: u64) -> (res: Self)
        ensures
            res.spec_fif_id() == fif_id,
            res.spec_sync() == sync,
            res.spec_image_id() == image_id,
            res.spec_image() == image,
    {
        Self { fif_id, sync, image_id, image }
    }

    pub fn fif_id(&self) -> (res: usize)
        ensures
            res == self.spec_fif_id(),
    {
        self.fif_id
    }

    pub fn sync(&self) -> (res: &FrameSync)
        ensures
            *res == self.spec_sync(),
    {
        &self.sync
    }

    pub fn image_id(&self) -> (res: u32)
        ensures
            res == self.spec_image_id(),
    {
        self.image_id
    }

    pub fn image(&self) -> (res: &u64)
        ensures
            *res == self.spec_image(),
    {
        &self.image
    }
}

} // verus!
