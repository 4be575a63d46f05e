use vstd::prelude::*;

use crate::rendering::texture_container::TextureViewId;

verus! {

/// Keeps raw `VkFramebuffer` handles, each under the list of views it draws into.
pub struct FramebufferContainer {
    framebuffers: Vec<(Vec<TextureViewId>, u64)>,
}

impl FramebufferContainer {
    /// The stored framebuffers with their attachment lists.
    pub closed spec fn entries(&self) -> Seq<(Seq<TextureViewId>, u64)> {
        self.framebuffers@.map_values(|e: (Vec<TextureViewId>, u64)| (e.0@, e.1))
    }

    /// No attachment list occurs twice.
    pub open spec fn wf(&self) -> bool {
        forall|i: int, j: int|
            0 <= i < self.entries().len() && 0 <= j < self.entries().len() && i != j
                ==> #[trigger] self.entries()[i].0 != #[trigger] self.entries()[j].0
    }

    pub fn new() -> (res: Self)
        ensures
            res.wf(),
            res.entries() == Seq::<(Seq<TextureViewId>, u64)>::empty(),
    {
        let res = Self { framebuffers: Vec::new() };
        assert(res.entries() =~= Seq::<(Seq<TextureViewId>, u64)>::empty());
        res
    }
}

/// Parameters for creating a framebuffer.
pub struct FramebufferCreate {}

} // verus!
