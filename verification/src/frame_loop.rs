//! Integer decisions of the frame loop: which frame slot and which acquire semaphore a
//! frame uses, whether the swapchain can be drawn to, and the blits that fill a mip chain.
use vstd::prelude::*;

verus! {

/// A swapchain of zero width or height (a minimised window) is neither rebuilt nor drawn to.
pub fn extent_is_drawable(width: u32, height: u32) -> (r: bool)
    ensures
        r == (width != 0 && height != 0),
{
    width != 0 && height != 0
}

/// The slots that successive frames go through: the frame resources (fence, command
/// buffer, uniform buffer) in turn, and the acquire semaphores in turn, each ring on its
/// own.
pub struct FrameRing {
    frame: usize,
    frames: usize,
    acquire: usize,
    semaphores: usize,
}

impl FrameRing {
    pub closed spec fn spec_frame(&self) -> usize {
        self.frame
    }

    pub closed spec fn spec_frames(&self) -> usize {
        self.frames
    }

    pub closed spec fn spec_acquire(&self) -> usize {
        self.acquire
    }

    pub closed spec fn spec_semaphores(&self) -> usize {
        self.semaphores
    }

    /// Each position lies in its ring.
    pub open spec fn wf(&self) -> bool {
        &&& self.spec_frame() < self.spec_frames()
        &&& self.spec_acquire() < self.spec_semaphores()
    }

    /// Both rings start at their first slot.
    pub fn new(frames: usize, semaphores: usize) -> (r: FrameRing)
        requires
            frames > 0,
            semaphores > 0,
        ensures
            r.wf(),
            r.spec_frame() == 0,
            r.spec_frames() == frames,
            r.spec_acquire() == 0,
            r.spec_semaphores() == semaphores,
    {
        FrameRing { frame: 0, frames, acquire: 0, semaphores }
    }

    /// Slot of the frame being prepared.
    pub fn frame_index(&self) -> (r: usize)
        ensures
            r == self.spec_frame(),
    {
        self.frame
    }

    /// Hands out the acquire semaphore of this frame and moves that ring on by one.
    pub fn take_acquire_semaphore(&mut self) -> (r: usize)
        requires
            old(self).wf(),
        ensures
            final(self).wf(),
            r == old(self).spec_acquire(),
            final(self).spec_acquire() == (old(self).spec_acquire() + 1) % (old(
                self,
            ).spec_semaphores() as int),
            final(self).spec_semaphores() == old(self).spec_semaphores(),
            final(self).spec_frame() == old(self).spec_frame(),
            final(self).spec_frames() == old(self).spec_frames(),
    {
        let r = self.acquire;
        self.acquire = (self.acquire + 1) % self.semaphores;
        r
    }

    /// The frame was presented: the next one uses the next frame slot.
    pub fn frame_presented(&mut self)
        requires
            old(self).wf(),
        ensures
            final(self).wf(),
            final(self).spec_frame() == (old(self).spec_frame() + 1) % (old(self).spec_frames() as int),
            final(self).spec_frames() == old(self).spec_frames(),
            final(self).spec_acquire() == old(self).spec_acquire(),
            final(self).spec_semaphores() == old(self).spec_semaphores(),
    {
        self.frame = (self.frame + 1) % self.frames;
    }
}

/// Extent along one axis of mip level `level` of an image whose level 0 has extent `e`:
/// halved at each level while above one.
pub open spec fn mip_extent(e: int, level: nat) -> int
    decreases level,
{
    if level == 0 {
        e
    } else {
        let p = mip_extent(e, (level - 1) as nat);
        if p > 1 {
            p / 2
        } else {
            p
        }
    }
}

/// Extent written by a blit from a level of extent `e`: half of it, at least one.
pub open spec fn blit_target(e: int) -> int {
    if e > 1 {
        e / 2
    } else {
        1
    }
}

/// One blit of the mip chain: level `source_level`, of extent `source`, scaled down
/// into level `source_level + 1`, of extent `target`.
#[derive(Clone, Copy, PartialEq, Eq, Debug)]
pub struct MipBlit {
    pub source_level: u32,
    pub source: (i32, i32),
    pub target: (i32, i32),
}

/// The blits that fill levels `1..levels` of an image of `width` by `height`, each from
/// the level above it, in order.
pub fn mip_blits(width: i32, height: i32, levels: u32) -> (r: Vec<MipBlit>)
    ensures
        r.len() == (if levels > 0 { levels - 1 } else { 0 }),
        forall|k: int|
            0 <= k < r.len() ==> {
                let b = #[trigger] r@[k];
                &&& b.source_level == k
                &&& b.source.0 == mip_extent(width as int, k as nat)
                &&& b.source.1 == mip_extent(height as int, k as nat)
                &&& b.target.0 == blit_target(b.source.0 as int)
                &&& b.target.1 == blit_target(b.source.1 as int)
            },
{
    let mut r: Vec<MipBlit> = Vec::new();
    let mut w: i32 = width;
    let mut h: i32 = height;
    let mut i: u32 = 1;
    while i < levels
        invariant
            1 <= i,
            levels > 0 ==> i <= levels,
            levels == 0 ==> i == 1,
            r.len() == i - 1,
            w == mip_extent(width as int, (i - 1) as nat),
            h == mip_extent(height as int, (i - 1) as nat),
            forall|k: int|
                0 <= k < r.len() ==> {
                    let b = #[trigger] r@[k];
                    &&& b.source_level == k
                    &&& b.source.0 == mip_extent(width as int, k as nat)
                    &&& b.source.1 == mip_extent(height as int, k as nat)
                    &&& b.target.0 == blit_target(b.source.0 as int)
                    &&& b.target.1 == blit_target(b.source.1 as int)
                },
        decreases levels - i,
    {
        let tw: i32 = if w > 1 { w / 2 } else { 1 };
        let th: i32 = if h > 1 { h / 2 } else { 1 };
        r.push(MipBlit { source_level: i - 1, source: (w, h), target: (tw, th) });
        if w > 1 {
            w = w / 2;
        }
        if h > 1 {
            h = h / 2;
        }
        i = i + 1;
    }
    r
}

} // verus!
