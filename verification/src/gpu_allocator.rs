//! First draft of the device-memory allocator: it finds the memory type of a request
//! and hands out nothing yet. [`crate::device_memory`] is the complete allocator.
use vstd::prelude::*;
use crate::device_memory::MemoryBlock;
use crate::device_select::find_memory_type;

verus! {

/// Blocks of device memory per memory type (none are created by this draft).
pub struct GpuAllocator {
    blocks: std::collections::HashMap<u32, Vec<MemoryBlock>>,
}

impl GpuAllocator {
    pub closed spec fn spec_block_types(&self) -> Set<u32> {
        self.blocks@.dom()
    }

    /// An allocator without any block.
    pub fn new() -> (r: GpuAllocator)
        ensures
            r.spec_block_types() == Set::<u32>::empty(),
    {
        GpuAllocator { blocks: std::collections::HashMap::new() }
    }

    /// Looks up the memory type of a request (allowed types `memory_type_bits`,
    /// required property flags `properties`, the flags of each memory type of the device
    /// in `type_flags`), then hands out nothing: the draft has no block to carve.
    pub fn allocate(&mut self, memory_type_bits: u32, properties: u32, type_flags: &Vec<u32>) -> (r:
        Option<crate::device_memory::Allocation>)
        requires
            type_flags@.len() <= 32,
        ensures
            r is None,
            final(self).spec_block_types() == old(self).spec_block_types(),
    {
        let _memory_type = find_memory_type(memory_type_bits, properties, type_flags);
        None
    }
}

} // verus!
