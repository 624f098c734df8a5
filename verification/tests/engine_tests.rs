use ash::vk::{self, Handle};
use dromon::device_memory::{align_up, AllocStep, DeviceMemoryAllocator, MemoryBlock, BLOCK_SIZE};
use dromon::device_select::{
    choose_extent, desired_image_count, find_memory_type, find_supported_format, single_queue_family,
    FormatCandidate, PhysicalDeviceInfo, PickError, QueueFamilies, QueueFamily,
    IMAGE_TILING_LINEAR, IMAGE_TILING_OPTIMAL,
};
use dromon::gpu_allocator::GpuAllocator;
use dromon::inputs::{InputState, KeyEvent};
use dromon::terrain::graveyard::Graveyard;
use dromon::terrain::install_batch;
use dromon::terrain::mesh_job::MeshJob;
use dromon::terrain::meshes::LoadedChunks;

fn mem(n: u64) -> vk::DeviceMemory {
    vk::DeviceMemory::from_raw(n)
}

#[test]
fn align_up_powers_of_two() {
    assert_eq!(align_up(0, 8), 0);
    assert_eq!(align_up(1, 8), 8);
    assert_eq!(align_up(8, 8), 8);
    assert_eq!(align_up(13, 1), 13);
    assert_eq!(align_up(257, 256), 512);
}

#[test]
fn block_first_fit_and_merge() {
    let mut b = MemoryBlock::new(mem(1), 1024);
    assert_eq!(b.size(), 1024);
    assert_eq!(b.memory(), mem(1));
    assert_eq!(b.free_bytes(), 1024);
    assert_eq!(b.try_alloc(100, 1), Some(0));
    assert_eq!(b.try_alloc(100, 256), Some(256));
    assert_eq!(b.free_bytes(), 824);
    assert_eq!(b.try_alloc(100, 16), Some(112));
    assert_eq!(b.try_alloc(2000, 1), None);
    b.dealloc(0, 100);
    b.dealloc(256, 100);
    b.dealloc(112, 100);
    assert_eq!(b.free_bytes(), 1024);
    // Everything merged back: a request of the whole block fits again.
    assert_eq!(b.try_alloc(1024, 1), Some(0));
    assert_eq!(b.free_bytes(), 0);
}

#[test]
fn dealloc_undoes_try_alloc() {
    let mut b = MemoryBlock::new(mem(2), 4096);
    let a = b.try_alloc(300, 64).unwrap();
    let c = b.try_alloc(500, 1024).unwrap();
    b.dealloc(c, 500);
    assert_eq!(b.free_bytes(), 4096 - 300);
    assert_eq!(b.try_alloc(500, 1024), Some(c));
    b.dealloc(c, 500);
    b.dealloc(a, 300);
    assert_eq!(b.free_bytes(), 4096);
}

#[test]
fn allocator_asks_for_blocks_and_frees() {
    let mut al = DeviceMemoryAllocator::new();
    let need = match al.allocate(3, 1000, 256) {
        AllocStep::NeedBlock { block_size } => block_size,
        AllocStep::Placed(_) => panic!("no block yet"),
    };
    assert_eq!(need, BLOCK_SIZE);
    let first = al.allocate_in_new_block(3, mem(7), need, 1000, 256);
    assert_eq!((first.memory(), first.offset(), first.size(), first.memory_type(), first.block()), (mem(7), 0, 1000, 3, 0));
    let second = match al.allocate(3, 1000, 256) {
        AllocStep::Placed(a) => a,
        AllocStep::NeedBlock { .. } => panic!("the block has room"),
    };
    assert_eq!((second.offset(), second.block()), (1024, 0));
    al.free_alloc(&first);
    let again = match al.allocate(3, 1000, 256) {
        AllocStep::Placed(a) => a,
        AllocStep::NeedBlock { .. } => panic!("the block has room"),
    };
    assert_eq!(again.offset(), 0);
    // A request larger than a block asks for a block of its own size.
    match al.allocate(3, BLOCK_SIZE + 1, 1) {
        AllocStep::NeedBlock { block_size } => assert_eq!(block_size, BLOCK_SIZE + 1),
        AllocStep::Placed(_) => panic!("too large for the block"),
    }
    let memories = al.drain_memories();
    assert_eq!(memories, vec![mem(7)]);
}

#[test]
fn gpu_allocator_draft_hands_out_nothing() {
    let mut g = GpuAllocator::new();
    assert!(g.allocate(0b11, 1, &vec![1, 1]).is_none());
}

#[test]
fn queue_family_of_first_discrete_gpu() {
    let devices = vec![
        PhysicalDeviceInfo { device_type: 1, queue_families: vec![QueueFamily { index: 0, queue_flags: 3 }] },
        PhysicalDeviceInfo {
            device_type: 2,
            queue_families: vec![QueueFamily { index: 0, queue_flags: 4 }, QueueFamily { index: 1, queue_flags: 7 }],
        },
    ];
    assert_eq!(
        single_queue_family(&devices),
        Ok((1, QueueFamilies { graphics: 1, present: 1, transfer: 1, compute: 1 }))
    );
    let integrated = vec![PhysicalDeviceInfo { device_type: 1, queue_families: vec![] }];
    assert_eq!(single_queue_family(&integrated), Err(PickError::NoDiscreteGpu));
    let no_queue = vec![PhysicalDeviceInfo { device_type: 2, queue_families: vec![QueueFamily { index: 0, queue_flags: 1 }] }];
    assert_eq!(single_queue_family(&no_queue), Err(PickError::NoGraphicsComputeQueue));
}

#[test]
fn memory_type_and_formats() {
    let flags = vec![0b001, 0b110, 0b111];
    assert_eq!(find_memory_type(0b111, 0b110, &flags), Some(1));
    assert_eq!(find_memory_type(0b101, 0b110, &flags), Some(2));
    assert_eq!(find_memory_type(0b001, 0b110, &flags), None);
    let candidates = vec![
        FormatCandidate { format: 126, linear_tiling_features: 0, optimal_tiling_features: 0x200 },
        FormatCandidate { format: 130, linear_tiling_features: 0x200, optimal_tiling_features: 0x200 },
    ];
    assert_eq!(find_supported_format(&candidates, IMAGE_TILING_OPTIMAL, 0x200), Some(126));
    assert_eq!(find_supported_format(&candidates, IMAGE_TILING_LINEAR, 0x200), Some(130));
    assert_eq!(find_supported_format(&candidates, 7, 0x200), None);
}

#[test]
fn swapchain_counts_and_extent() {
    assert_eq!(desired_image_count(2, 0), 3);
    assert_eq!(desired_image_count(2, 3), 3);
    assert_eq!(desired_image_count(3, 3), 3);
    assert_eq!(choose_extent((800, 600), (1024, 768)), (800, 600));
    assert_eq!(choose_extent((u32::MAX, u32::MAX), (1024, 768)), (1024, 768));
}

#[test]
fn keyboard_state_per_frame() {
    let mut s = InputState::new();
    s.apply(KeyEvent::Pressed(17));
    assert!(s.is_held(17) && s.just_pressed(17) && !s.just_released(17));
    s.end_frame();
    assert!(s.is_held(17) && !s.just_pressed(17));
    s.apply(KeyEvent::Pressed(30));
    s.apply(KeyEvent::Released(30));
    assert!(!s.is_held(30) && s.just_pressed(30) && s.just_released(30));
    s.clear();
    assert!(!s.is_held(17) && !s.just_pressed(30) && !s.just_released(30));
}

#[test]
fn loaded_chunks_keep_one_coordinate_per_chunk() {
    let mut c: LoadedChunks<&'static str> = LoadedChunks::new();
    assert!(c.is_empty());
    assert_eq!(c.insert((0, 0), "a"), None);
    assert_eq!(c.insert((1, -2), "b"), None);
    assert_eq!(c.insert((0, 0), "a2"), Some("a"));
    assert_eq!(c.coords(), &[(0, 0), (1, -2)]);
    assert_eq!(c.get(&(0, 0)).map(|x| x.mesh), Some("a2"));
    assert_eq!(c.remove(&(5, 5)), None);
    assert_eq!(c.remove(&(0, 0)), Some("a2"));
    assert_eq!(c.coords(), &[(1, -2)]);
    assert!(c.get(&(0, 0)).is_none());
    assert_eq!(c.values().count(), 1);
    assert!(!c.is_empty());
}

#[test]
fn graveyard_waits_for_frames_in_flight() {
    let mut g: Graveyard<u32> = Graveyard::new(2);
    assert_eq!(g.guard(), 3);
    g.bury(10);
    g.tick();
    g.bury(11);
    g.tick();
    g.tick();
    assert_eq!(g.frame(), 3);
    // Buried at 0: expired from frame 3 on; at least one expired mesh goes per tick.
    assert!(g.pending().iter().all(|e| e.0 != 10));
    assert!(g.pending().iter().any(|e| e.0 == 11));
    g.tick();
    assert_eq!(g.pending().len(), 0);
}

#[test]
fn batch_installation() {
    let mut chunks: LoadedChunks<u32> = LoadedChunks::new();
    let mut grave: Graveyard<u32> = Graveyard::new(1);
    let mut uploads: Vec<(i32, i32)> = Vec::new();
    chunks.insert((0, 0), 1);
    chunks.insert((1, 0), 2);
    install_batch(
        &mut chunks,
        &mut grave,
        &mut uploads,
        vec![((0, 0), Some(10)), ((1, 0), None), ((2, 0), Some(30)), ((2, 0), Some(31))],
    );
    assert_eq!(chunks.get(&(0, 0)).map(|x| x.mesh), Some(10));
    assert!(chunks.get(&(1, 0)).is_none());
    assert_eq!(chunks.get(&(2, 0)).map(|x| x.mesh), Some(31));
    assert_eq!(uploads, vec![(0, 0), (2, 0), (2, 0)]);
    let buried: Vec<u32> = grave.pending().iter().map(|e| e.0).collect();
    assert_eq!(buried, vec![1, 2, 30]);
    let mut coords = chunks.coords().to_vec();
    coords.sort();
    assert_eq!(coords, vec![(0, 0), (2, 0)]);
}

#[test]
fn unloading_undoes_loading_a_new_chunk() {
    let mut c: LoadedChunks<u8> = LoadedChunks::new();
    c.insert((3, 4), 1);
    c.insert((-1, 0), 2);
    let before = c.coords().to_vec();
    assert_eq!(c.insert((9, 9), 3), None);
    assert_eq!(c.remove(&(9, 9)), Some(3));
    assert_eq!(c.coords(), before.as_slice());
    assert_eq!(c.get(&(3, 4)).map(|x| x.mesh), Some(1));
    assert_eq!(c.get(&(-1, 0)).map(|x| x.mesh), Some(2));
}

#[test]
fn graveyard_keeps_meshes_until_expired() {
    let mut g: Graveyard<&'static str> = Graveyard::new(1);
    g.bury("old");
    g.tick();
    assert_eq!(g.pending().len(), 1);
    g.tick();
    assert_eq!(g.frame(), 2);
    assert!(g.pending().is_empty());
    g.bury("new");
    assert_eq!(g.pending(), &vec![("new", 2)]);
}

#[test]
fn graveyard_tick_reports_the_budget() {
    let mut g: Graveyard<u32> = Graveyard::new(0);
    // Nothing pending: nothing to do, the budget cannot run out.
    assert!(!g.tick());
    g.bury(1);
    g.bury(2);
    // Guard of one frame: both expire at the next tick; two meshes take far less than
    // the budget, so both go and the budget is reported as kept.
    assert!(!g.tick());
    assert!(g.pending().is_empty());
    assert_eq!(g.frame(), 2);
}

#[test]
fn holes_alignable_against_the_64_bit_range() {
    let mut b = MemoryBlock::new(mem(5), 4096);
    assert!(b.holes_alignable(1 << 12));
    assert!(b.holes_alignable(1 << 63));
    assert_eq!(b.try_alloc(1, 1), Some(0));
    // The hole now starts at 1: rounding it up to 2^63 still fits.
    assert!(b.holes_alignable(1 << 63));
    // A hole starting near the top of the range cannot be rounded up that far.
    let mut top = MemoryBlock::new(mem(6), u64::MAX);
    assert_eq!(top.try_alloc(u64::MAX - 10, 1), Some(0));
    assert!(top.holes_alignable(8));
    assert!(!top.holes_alignable(1 << 63));
    let al = DeviceMemoryAllocator::new();
    assert!(al.can_align(9, 1 << 63));
}

#[test]
fn allocator_can_align_checks_every_block_of_the_type() {
    let mut al = DeviceMemoryAllocator::new();
    let a = al.allocate_in_new_block(1, mem(3), 4096, 100, 1);
    assert_eq!(a.offset(), 0);
    // The free hole starts at 100.
    assert!(al.can_align(1, 4096));
    assert!(al.can_align(1, 1 << 63));
    assert!(al.can_align(2, 1 << 63));
}

#[test]
fn freeing_undoes_an_allocation_in_a_new_block() {
    let mut al = DeviceMemoryAllocator::new();
    let a = al.allocate_in_new_block(4, mem(8), 2048, 700, 64);
    assert_eq!((a.offset(), a.size(), a.block()), (0, 700, 0));
    al.free_alloc(&a);
    // The block is whole again: a request of its full size is placed at offset 0.
    match al.allocate(4, 2048, 1) {
        AllocStep::Placed(b) => assert_eq!((b.offset(), b.size(), b.block()), (0, 2048, 0)),
        AllocStep::NeedBlock { .. } => panic!("the freed block has room"),
    }
}

#[test]
fn mesh_job_gathers_hits_and_builds_in_order() {
    let (mut job, todo): (MeshJob<&str, u32>, Vec<(i32, i32)>) =
        MeshJob::start(vec![((0, 0), Some("a")), ((1, 0), None), ((2, 0), Some("c")), ((3, 0), None)]);
    assert_eq!(todo, vec![(1, 0), (3, 0)]);
    assert_eq!(job.meshed_count(), 2);
    assert!(!job.is_complete());
    assert_eq!(job.next_to_build(), Some(&((0, 0), "a")));
    job.record_built(Some(10));
    assert_eq!(job.next_to_build(), Some(&((2, 0), "c")));
    job.record_built(None);
    assert_eq!(job.next_to_build(), None);
    // Built all that arrived, but the workers still run.
    assert!(!job.is_complete());
    job.receive((3, 0), "d");
    job.receive((1, 0), "b");
    job.workers_done();
    assert!(!job.is_complete());
    assert_eq!(job.next_to_build(), Some(&((3, 0), "d")));
    job.record_built(Some(30));
    job.record_built(Some(11));
    assert!(job.is_complete());
    assert_eq!(
        job.into_built(),
        vec![((0, 0), Some(10)), ((2, 0), None), ((3, 0), Some(30)), ((1, 0), Some(11))]
    );
}

#[test]
fn mesh_job_served_by_the_cache_alone() {
    let (mut job, todo): (MeshJob<u8, u8>, Vec<(i32, i32)>) = MeshJob::start(vec![((5, 5), Some(1))]);
    assert!(todo.is_empty());
    assert_eq!(job.meshed_count(), 0);
    job.record_built(Some(7));
    job.workers_done();
    assert!(job.is_complete());
    assert_eq!(job.into_built(), vec![((5, 5), Some(7))]);
}
