use vstd::prelude::*;

use crate::rendering::slot_storage::{
    insert_string, new_string_slots, string_slots, string_slots_len, HandleSlots, StringSlots,
};

verus! {

/// Unique identifier to a shader source in a `ShadersContainer`.
#[derive(Debug, Clone, Copy, PartialEq, Eq, Structural, Hash)]
pub struct ShaderId {
    pub key: u64,
}

/// Keeps shader sources under unique ids.
pub struct ShadersContainer {
    shaders: StringSlots,
}

impl ShadersContainer {
    /// The stored sources, by id key.
    pub closed spec fn sources(&self) -> Map<u64, Seq<char>> {
        string_slots(self.shaders)
    }

    /// The collection is finite.
    pub closed spec fn wf(&self) -> bool {
        self.sources().dom().finite()
    }

    pub fn new() -> (res: Self)
        ensures
            res.wf(),
            res.sources() == Map::<u64, Seq<char>>::empty(),
    {
        Self { shaders: new_string_slots() }
    }

    /// Stores `shader_source` under a new id.
    pub fn insert(&mut self, shader_source: String) -> (id: ShaderId)
        requires
            old(self).wf(),
            old(self).sources().dom().len() < u32::MAX - 1,
        ensures
            final(self).wf(),
            !old(self).sources().dom().contains(id.key),
            final(self).sources() == old(self).sources().insert(id.key, shader_source@),
    {
        let key = insert_string(&mut self.shaders, shader_source);
        ShaderId { key }
    }

    /// The number of stored sources.
    pub fn source_count(&self) -> (res: usize)
        ensures
            res == self.sources().dom().len(),
    {
        string_slots_len(&self.shaders)
    }
}

/// Unique identifier to a pipeline in a `PipelineContainer`.
#[derive(Debug, Clone, Copy, PartialEq, Eq, Structural, Hash)]
pub struct PipelineId {
    pub key: u64,
}

/// Keeps raw `VkPipeline` handles under unique ids.
pub struct PipelineContainer {
    pipelines: HandleSlots,
}

} // verus!
