use dromon::frame_loop::{extent_is_drawable, mip_blits, FrameRing, MipBlit};

#[test]
fn zero_extent_is_not_drawn() {
    assert!(extent_is_drawable(800, 600));
    assert!(!extent_is_drawable(0, 600));
    assert!(!extent_is_drawable(800, 0));
    assert!(!extent_is_drawable(0, 0));
}

#[test]
fn frame_and_semaphore_rings_turn_on_their_own() {
    let mut ring = FrameRing::new(2, 3);
    assert_eq!(ring.frame_index(), 0);
    let mut taken = Vec::new();
    let mut frames = Vec::new();
    for _ in 0..4 {
        taken.push(ring.take_acquire_semaphore());
        frames.push(ring.frame_index());
        ring.frame_presented();
    }
    assert_eq!(taken, vec![0, 1, 2, 0]);
    assert_eq!(frames, vec![0, 1, 0, 1]);
    assert_eq!(ring.frame_index(), 0);
}

#[test]
fn mip_chain_halves_down_to_one() {
    let blits = mip_blits(8, 2, 4);
    assert_eq!(
        blits,
        vec![
            MipBlit { source_level: 0, source: (8, 2), target: (4, 1) },
            MipBlit { source_level: 1, source: (4, 1), target: (2, 1) },
            MipBlit { source_level: 2, source: (2, 1), target: (1, 1) },
        ]
    );
    // Odd extents round down.
    assert_eq!(mip_blits(5, 5, 2), vec![MipBlit { source_level: 0, source: (5, 5), target: (2, 2) }]);
    // One level, or none: nothing to blit.
    assert!(mip_blits(64, 64, 1).is_empty());
    assert!(mip_blits(64, 64, 0).is_empty());
}
