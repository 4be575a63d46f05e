use vstd::prelude::*;

use crate::rendering::buffer_container::{GeneralBufferId, UniformBufferId, VertexBufferId};

verus! {

/// A host write of `data` into a buffer, starting `offset_bytes` into it.
#[derive(Debug, Clone, PartialEq, Eq)]
pub struct WriteBufferOp {
    buff: GeneralBufferId,
    data: Vec<u8>,
    offset_bytes: u64,
}

impl WriteBufferOp {
    pub closed spec fn spec_buffer(&self) -> GeneralBufferId {
        self.buff
    }

    pub closed spec fn spec_data(&self) -> Seq<u8> {
        self.data@
    }

    pub closed spec fn spec_offset_bytes(&self) -> u64 {
        self.offset_bytes
    }

    /// Writes `count` elements of `stride` bytes each at element `offset`
    /// of `buffer`, which holds `len` elements; `None` when the write would
    /// reach past the end of the buffer.
    fn checked_write(buffer: GeneralBufferId, len: u64, data: Vec<u8>, count: u64, stride: u64, offset: u64) -> (res: Option<Self>)
        requires
            offset + count <= u64::MAX,
            offset + count <= len ==> offset * stride <= u64::MAX,
        ensures
            res is None <==> offset + count > len,
            res matches Some(op) ==> op.spec_buffer() == buffer && op.spec_data() == data@
                && op.spec_offset_bytes() == offset * stride,
    {
        // Writes to outside of binded memory -> return None
        if offset + count > len {
            return None;
        }
        let offset_bytes = offset * stride;
        Some(Self { buff: buffer, data, offset_bytes })
    }

    /// Writes vertices at vertex index `offset` of `buff`. `data` holds the
    /// bytes of `count` vertices of `vertex_size` bytes each.
    pub fn vertex_buffer(buff: VertexBufferId, data: Vec<u8>, count: u64, vertex_size: u64, offset: u64) -> (res: Option<Self>)
        requires
            data@.len() == count * vertex_size,
            offset + count <= u64::MAX,
            offset + count <= buff.len ==> offset * vertex_size <= u64::MAX,
        ensures
            res is None <==> offset + count > buff.len,
            res matches Some(op) ==> op.spec_buffer() == buff.buffer && op.spec_data() == data@
                && op.spec_offset_bytes() == offset * vertex_size,
    {
        Self::checked_write(buff.buffer, buff.len, data, count, vertex_size, offset)
    }

    /// Writes uniform blocks at block index `offset` of `buff`. `encoded`
    /// holds `count` blocks in the dynamic uniform buffer layout, whose
    /// smallest block size is `min_size` bytes.
    pub fn uniform_buffer(buff: UniformBufferId, encoded: Vec<u8>, count: u64, min_size: u64, offset: u64) -> (res: Option<Self>)
        requires
            offset + count <= u64::MAX,
            offset + count <= buff.len ==> offset * min_size <= u64::MAX,
        ensures
            res is None <==> offset + count > buff.len,
            res matches Some(op) ==> op.spec_buffer() == buff.buffer && op.spec_data() == encoded@
                && op.spec_offset_bytes() == offset * min_size,
    {
        Self::checked_write(buff.buffer, buff.len, encoded, count, min_size, offset)
    }

    /// The buffer written to.
    pub fn buffer(&self) -> (res: GeneralBufferId)
        ensures
            res == self.spec_buffer(),
    {
        self.buff
    }

    /// The bytes written.
    pub fn data(&self) -> (res: &Vec<u8>)
        ensures
            res@ == self.spec_data(),
    {
        &self.data
    }

    /// Where the write starts, in bytes from the start of the buffer.
    pub fn offset_bytes(&self) -> (res: u64)
        ensures
            res == self.spec_offset_bytes(),
    {
        self.offset_bytes
    }
}

} // verus!
