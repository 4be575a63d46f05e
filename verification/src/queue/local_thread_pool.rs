use vstd::prelude::*;

verus! {

/// Command pool that is bound to a certain thread.
///
/// It recycles its command buffers from frame to frame: `used` counts the
/// buffers handed out since the last reset. Handles are raw `VkCommandPool`
/// and `VkCommandBuffer` values.
#[derive(Debug, Clone)]
pub struct LocalCommandPool {
    command_pool: u64,
    command_buffers: Vec<u64>,
    used: usize,
}

impl LocalCommandPool {
    /// The pool's own handle.
    pub closed spec fn pool(&self) -> u64 {
        self.command_pool
    }

    /// Every command buffer allocated from the pool, in allocation order.
    pub closed spec fn buffers(&self) -> Seq<u64> {
        self.command_buffers@
    }

    /// How many buffers were handed out since the last reset.
    pub closed spec fn used(&self) -> int {
        self.used as int
    }

    /// The buffers handed out since the last reset, in order.
    pub open spec fn written(&self) -> Seq<u64> {
        self.buffers().subrange(0, self.used())
    }

    /// The count never exceeds the buffers.
    pub open spec fn wf(&self) -> bool {
        self.used() <= self.buffers().len()
    }

    /// A pool holding no buffers yet, over the device pool `command_pool`.
    pub fn new(command_pool: u64) -> (res: Self)
        ensures
            res.wf(),
            res.pool() == command_pool,
            res.buffers() == Seq::<u64>::empty(),
            res.used() == 0,
    {
        Self { command_pool, command_buffers: Vec::new(), used: 0 }
    }

    /// The pool's own handle.
    pub fn command_pool(&self) -> (res: u64)
        ensures
            res == self.pool(),
    {
        self.command_pool
    }

    /// Whether the next `get_buffer` needs a freshly allocated buffer:
    /// every buffer of the pool was handed out since the last reset.
    pub fn needs_allocation(&self) -> (res: bool)
        ensures
            res == (self.used() >= self.buffers().len()),
            self.wf() ==> (res <==> self.written().len() == self.buffers().len()),
    {
        self.used >= self.command_buffers.len()
    }

    /// Gives a clean command buffer: the next one of the pool not handed out
    /// since the last reset, else `allocated`, which joins the pool.
    pub fn get_buffer(&mut self, allocated: Option<u64>) -> (res: u64)
        requires
            old(self).wf(),
            old(self).buffers().len() < usize::MAX,
            old(self).used() >= old(self).buffers().len() ==> allocated is Some,
        ensures
            final(self).wf(),
            final(self).pool() == old(self).pool(),
            final(self).used() == old(self).used() + 1,
            final(self).written() == old(self).written().push(res),
            old(self).used() < old(self).buffers().len() ==> res == old(self).buffers()[old(
                self,
            ).used()] && final(self).buffers() == old(self).buffers(),
            old(self).used() >= old(self).buffers().len() ==> res == allocated->0
                && final(self).buffers() == old(self).buffers().push(res),
            old(self).buffers().no_duplicates() && (allocated is Some
                ==> !old(self).buffers().contains(allocated->0)) ==> final(self).buffers().no_duplicates(),
    {
        let ghost old_buffers = self.command_buffers@;
        let ghost old_used = self.used as int;
        if self.used < self.command_buffers.len() {
            let command_buffer = self.command_buffers[self.used];
            self.used += 1;
            assert(self.command_buffers@.subrange(0, self.used as int) =~= old_buffers.subrange(0, old_used).push(command_buffer));
            command_buffer
        } else {
            let command_buffer = match allocated {
                Some(b) => b,
                None => 0,
            };
            self.command_buffers.push(command_buffer);
            self.used += 1;
            assert(self.command_buffers@.subrange(0, self.used as int) =~= old_buffers.subrange(0, old_used).push(command_buffer));
            proof {
                if old_buffers.no_duplicates() && !old_buffers.contains(command_buffer) {
                    assert forall|i: int, j: int| 0 <= i < self.command_buffers@.len() && 0 <= j < self.command_buffers@.len() && i != j
                        implies self.command_buffers@[i] != self.command_buffers@[j] by {
                        if i < old_buffers.len() && j < old_buffers.len() {
                        } else if i < old_buffers.len() {
                            assert(old_buffers.contains(old_buffers[i]));
                        } else {
                            assert(old_buffers.contains(old_buffers[j]));
                        }
                    }
                }
            }
            command_buffer
        }
    }

    /// Returns all buffers that were written
    pub fn get_written_buffers(&self) -> (res: &[u64])
        requires
            self.wf(),
        ensures
            res@ == self.written(),
    {
        vstd::slice::slice_subrange(self.command_buffers.as_slice(), 0, self.used)
    }

    /// Marks every buffer clean again, once the device pool was reset.
    ///
    /// Intended to use only after all work for current frame is done
    pub fn reset(&mut self)
        ensures
            final(self).wf(),
            final(self).pool() == old(self).pool(),
            final(self).buffers() == old(self).buffers(),
            final(self).used() == 0,
            final(self).written() == Seq::<u64>::empty(),
    {
        self.used = 0;
        assert(self.written() =~= Seq::<u64>::empty());
    }

    /// The written list holds one buffer per `get_buffer` since the last reset.
    pub proof fn lemma_written_count(&self)
        requires
            self.wf(),
        ensures
            self.written().len() == self.used(),
    {
    }
}

/// Between resets no command buffer is handed out twice: while the pool's
/// buffers are pairwise distinct, so are the written ones, and the buffer
/// just handed out (last of the written ones) is none of those before it.
pub proof fn law_handed_out_buffers_distinct(pool: &LocalCommandPool, before: Seq<u64>, res: u64)
    requires
        pool.wf(),
        pool.buffers().no_duplicates(),
        pool.written() == before.push(res),
    ensures
        pool.written().no_duplicates(),
        !before.contains(res),
{
    let w = pool.written();
    assert forall|i: int, j: int| 0 <= i < w.len() && 0 <= j < w.len() && i != j implies w[i] != w[j] by {
        assert(w[i] == pool.buffers()[i] && w[j] == pool.buffers()[j]);
    }
    if before.contains(res) {
        let k = choose|k: int| 0 <= k < before.len() && before[k] == res;
        assert(w[k] == w[before.len() as int]);
    }
}

} // verus!
