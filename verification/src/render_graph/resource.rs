use vstd::prelude::*;

use crate::rendering::texture_container::TextureViewId;

verus! {

/// Unifies the identifiers of every resource an operation can touch.
#[derive(Debug, Clone, Copy, PartialEq, Eq, Structural)]
pub enum ResourceId {
    Texture(TextureViewId),
}

} // verus!
