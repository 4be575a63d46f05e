use vstd::prelude::*;

use crate::rendering::texture_container::Texture;
use gpu_allocator::vulkan::Allocation;
use slotmap::{DefaultKey, Key, SlotMap};

verus! {

// Slot maps hand out keys that stay unique for as long as the map lives.
// The library keeps every key in its 64-bit form (`KeyData::as_ffi`), which
// is one-to-one on keys, and the contents of each kind of slot map under a
// name of its own.

/// A slot map of textures, held in a private field: the proofs see it only
/// through `texture_slots` and the functions below.
#[verifier::external_body]
pub struct TextureSlots {
    map: SlotMap<DefaultKey, Texture>,
}

/// A slot map of raw Vulkan handles, held as `TextureSlots` holds its map.
#[verifier::external_body]
pub struct HandleSlots {
    map: SlotMap<DefaultKey, u64>,
}

/// A slot map of strings, held as `TextureSlots` holds its map.
#[verifier::external_body]
pub struct StringSlots {
    map: SlotMap<DefaultKey, String>,
}

#[verifier::external_type_specification]
#[verifier::external_body]
pub struct ExAllocation(Allocation);

/// What a slot map of textures holds, by key.
pub uninterp spec fn texture_slots(m: TextureSlots) -> Map<u64, Texture>;

/// What a slot map of raw Vulkan handles holds, by key.
pub uninterp spec fn handle_slots(m: HandleSlots) -> Map<u64, u64>;

/// What a slot map of strings holds, by key.
pub uninterp spec fn string_slots(m: StringSlots) -> Map<u64, Seq<char>>;

/// `SlotMap::new`: a slot map with no element.
#[verifier::external_body]
pub(crate) fn new_texture_slots() -> (res: TextureSlots)
    ensures
        texture_slots(res).dom().is_empty(),
{
    TextureSlots { map: SlotMap::new() }
}

/// `SlotMap::new`: a slot map with no element.
#[verifier::external_body]
pub(crate) fn new_handle_slots() -> (res: HandleSlots)
    ensures
        handle_slots(res).dom().is_empty(),
{
    HandleSlots { map: SlotMap::new() }
}

/// `SlotMap::new`: a slot map with no element.
#[verifier::external_body]
pub(crate) fn new_string_slots() -> (res: StringSlots)
    ensures
        string_slots(res).dom().is_empty(),
{
    StringSlots { map: SlotMap::new() }
}

/// `SlotMap::insert`: stores `value` under a key that the map did not hold
/// and returns that key. It panics only when all `u32::MAX - 1` usable slots
/// (slot 0 is a sentinel) are occupied, which takes `u32::MAX - 1` elements:
/// the bound on the element count excludes it.
#[verifier::external_body]
pub(crate) fn insert_texture(m: &mut TextureSlots, value: Texture) -> (key: u64)
    requires
        texture_slots(*old(m)).dom().finite(),
        texture_slots(*old(m)).dom().len() < u32::MAX - 1,
    ensures
        !texture_slots(*old(m)).dom().contains(key),
        texture_slots(*final(m)) == texture_slots(*old(m)).insert(key, value),
{
    m.map.insert(value).data().as_ffi()
}

/// `SlotMap::insert`: stores `value` under a key that the map did not hold
/// and returns that key. It panics only when all `u32::MAX - 1` usable slots
/// (slot 0 is a sentinel) are occupied, which takes `u32::MAX - 1` elements:
/// the bound on the element count excludes it.
#[verifier::external_body]
pub(crate) fn insert_handle(m: &mut HandleSlots, value: u64) -> (key: u64)
    requires
        handle_slots(*old(m)).dom().finite(),
        handle_slots(*old(m)).dom().len() < u32::MAX - 1,
    ensures
        !handle_slots(*old(m)).dom().contains(key),
        handle_slots(*final(m)) == handle_slots(*old(m)).insert(key, value),
{
    m.map.insert(value).data().as_ffi()
}

/// `SlotMap::insert`: stores `value` under a key that the map did not hold
/// and returns that key. It panics only when all `u32::MAX - 1` usable slots
/// (slot 0 is a sentinel) are occupied, which takes `u32::MAX - 1` elements:
/// the bound on the element count excludes it.
#[verifier::external_body]
pub(crate) fn insert_string(m: &mut StringSlots, value: String) -> (key: u64)
    requires
        string_slots(*old(m)).dom().finite(),
        string_slots(*old(m)).dom().len() < u32::MAX - 1,
    ensures
        !string_slots(*old(m)).dom().contains(key),
        string_slots(*final(m)) == string_slots(*old(m)).insert(key, value@),
{
    m.map.insert(value).data().as_ffi()
}

/// `SlotMap::len`: the number of stored elements.
#[verifier::external_body]
pub(crate) fn texture_slots_len(m: &TextureSlots) -> (res: usize)
    ensures
        res == texture_slots(*m).dom().len(),
{
    m.map.len()
}

/// `SlotMap::len`: the number of stored elements.
#[verifier::external_body]
pub(crate) fn handle_slots_len(m: &HandleSlots) -> (res: usize)
    ensures
        res == handle_slots(*m).dom().len(),
{
    m.map.len()
}

/// `SlotMap::len`: the number of stored elements.
#[verifier::external_body]
pub(crate) fn string_slots_len(m: &StringSlots) -> (res: usize)
    ensures
        res == string_slots(*m).dom().len(),
{
    m.map.len()
}

/// `Allocation::default`: an allocation that owns no device memory. Nothing
/// is stated of its fields.
#[verifier::external_body]
pub(crate) fn empty_allocation() -> Allocation {
    Allocation::default()
}

} // verus!
