use vstd::prelude::*;

verus! {

/// How a client handle waits for the event loop's reply.
#[derive(Clone, Copy, Debug, PartialEq, Eq, Structural)]
pub enum BlockingMode {
    /// Tell the async runtime that the current worker is about to block, so
    /// that it moves other tasks off it; needed on a worker of that runtime.
    BlockInPlace,
    /// Block the current thread directly; only on a dedicated blocking
    /// thread or outside any async runtime.
    Block,
}

impl Default for BlockingMode {
    fn default() -> (r: BlockingMode)
        ensures
            r == BlockingMode::BlockInPlace,
    {
        BlockingMode::BlockInPlace
    }
}

impl BlockingMode {
    /// Whether waiting in this mode must go through the runtime's hook.
    pub fn needs_runtime_hook(&self) -> (r: bool)
        ensures
            r == (*self == BlockingMode::BlockInPlace),
    {
        match self {
            BlockingMode::BlockInPlace => true,
            BlockingMode::Block => false,
        }
    }
}

} // verus!
