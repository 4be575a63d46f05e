use vstd::prelude::*;

use crate::render_graph::resource::ResourceId;

verus! {

/// A GPU operation recorded in the render graph.
#[derive(Debug, Clone, Copy, PartialEq, Eq, Structural)]
pub enum Operation {
    /// Draws reading the first resource and writing the second.
    DrawCall(ResourceId, ResourceId),
    /// Copies the first resource into the second.
    CopyCall(ResourceId, ResourceId),
    /// Presents the resource.
    Present(ResourceId),
}

impl Operation {
    /// The resources the operation reads.
    pub open spec fn reads(self) -> Seq<ResourceId> {
        match self {
            Operation::DrawCall(src, _) => seq![src],
            Operation::CopyCall(src, _) => seq![src],
            Operation::Present(src) => seq![src],
        }
    }

    /// The resources the operation writes.
    pub open spec fn writes(self) -> Seq<ResourceId> {
        match self {
            Operation::DrawCall(_, dst) => seq![dst],
            Operation::CopyCall(_, dst) => seq![dst],
            Operation::Present(_) => seq![],
        }
    }

    /// `self` writes a resource that `reader` reads, so `reader` must run after `self`.
    pub open spec fn feeds(self, reader: Operation) -> bool {
        exists|x: ResourceId| self.writes().contains(x) && reader.reads().contains(x)
    }

    pub fn read_resources(&self) -> (res: Vec<ResourceId>)
        ensures
            res@ == self.reads(),
    {
        let r = match self {
            Operation::DrawCall(resource_id, _resource_id1) => *resource_id,
            Operation::CopyCall(resource_id, _resource_id1) => *resource_id,
            Operation::Present(resource_id) => *resource_id,
        };
        let res = vec![r];
        assert(res@ =~= self.reads());
        res
    }

    pub fn write_resources(&self) -> (res: Vec<ResourceId>)
        ensures
            res@ == self.writes(),
    {
        let w = match self {
            Operation::DrawCall(_resource_id, resource_id1) => *resource_id1,
            Operation::CopyCall(_resource_id, resource_id1) => *resource_id1,
            Operation::Present(_) => {
                let empty: Vec<ResourceId> = Vec::new();
                assert(empty@ =~= self.writes());
                return empty;
            },
        };
        let res = vec![w];
        assert(res@ =~= self.writes());
        res
    }
}

/// What each kind of operation reads and writes, for all resources: a draw
/// and a copy read their first resource and write their second; a present
/// reads its resource and writes nothing.
pub proof fn law_operation_resources(a: ResourceId, b: ResourceId)
    ensures
        Operation::DrawCall(a, b).reads() == seq![a],
        Operation::DrawCall(a, b).writes() == seq![b],
        Operation::CopyCall(a, b).reads() == seq![a],
        Operation::CopyCall(a, b).writes() == seq![b],
        Operation::Present(a).reads() == seq![a],
        Operation::Present(a).writes() == Seq::<ResourceId>::empty(),
{
    assert(Operation::Present(a).writes() =~= Seq::<ResourceId>::empty());
}

/// Every operation reads exactly one resource and writes at most one; only
/// a present writes nothing.
pub proof fn law_operation_resource_counts(op: Operation)
    ensures
        op.reads().len() == 1,
        op.writes().len() <= 1,
        op.writes().len() == 1 <==> !(op is Present),
{
}

/// A draw or copy into `b` must run before exactly those operations that
/// read `b`; a present must run before none.
pub proof fn law_operation_feeds(a: ResourceId, b: ResourceId, reader: Operation)
    ensures
        Operation::DrawCall(a, b).feeds(reader) <==> reader.reads().contains(b),
        Operation::CopyCall(a, b).feeds(reader) <==> reader.reads().contains(b),
        !Operation::Present(a).feeds(reader),
{
    if reader.reads().contains(b) {
        assert(Operation::DrawCall(a, b).writes().contains(b));
        assert(Operation::CopyCall(a, b).writes().contains(b));
    }
    if Operation::CopyCall(a, b).feeds(reader) {
        let x = choose|x: ResourceId| Operation::CopyCall(a, b).writes().contains(x) && reader.reads().contains(x);
        assert(Operation::CopyCall(a, b).writes()[0] == b);
    }
    if Operation::DrawCall(a, b).feeds(reader) {
        let x = choose|x: ResourceId| Operation::DrawCall(a, b).writes().contains(x) && reader.reads().contains(x);
        assert(Operation::DrawCall(a, b).writes()[0] == b);
    }
}

} // verus!
