use vstd::prelude::*;

verus! {

/// Identifies a device buffer.
#[derive(Debug, Clone, Copy, PartialEq, Eq, Structural, Hash)]
pub struct GeneralBufferId {
    pub key: u64,
}

/// A buffer that holds `len` vertices.
#[derive(Debug, Clone, Copy, PartialEq, Eq, Structural)]
pub struct VertexBufferId {
    pub buffer: GeneralBufferId,
    pub len: u64,
}

/// A buffer that holds `len` uniform blocks.
#[derive(Debug, Clone, Copy, PartialEq, Eq, Structural)]
pub struct UniformBufferId {
    pub buffer: GeneralBufferId,
    pub len: u64,
}

} // verus!
