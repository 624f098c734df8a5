//! Deferred destruction of replaced meshes.
//!
//! Dropping a mesh destroys its GPU buffers at once; freeing one that a frame in flight
//! still references would be an error. The graveyard keeps the meshes taken out until
//! every frame that may have recorded them is over.
use vstd::prelude::*;
use std::time::{Duration, Instant};

verus! {

#[verifier::external_type_specification]
#[verifier::external_body]
pub struct ExInstant(Instant);

/// Time allowed per frame to the destruction of meshes, in milliseconds: at least one
/// mesh is always destroyed, so progress is guaranteed even over budget.
pub const FRAME_BUDGET_MS: u64 = 1;

/// `Instant::now`: the current instant of the monotonic clock. Nothing is stated of it.
#[verifier::external_body]
fn instant_now() -> Instant {
    Instant::now()
}

/// `Duration::from_millis`. Nothing about the value is needed here.
#[verifier::external_body]
fn duration_from_millis(ms: u64) -> Duration {
    Duration::from_millis(ms)
}

/// `Instant::checked_add`: the instant `d` after `t`, or `None` when the clock cannot
/// represent it. Which of the two comes depends on the clock, so nothing is stated.
#[verifier::external_body]
fn instant_checked_add(t: Instant, d: Duration) -> Option<Instant> {
    t.checked_add(d)
}

/// `Instant >= Instant` (`PartialOrd::ge`): whether `a` is not earlier than `b`. Which
/// answer comes depends on the clock, so nothing is stated of it.
#[verifier::external_body]
fn instant_reached(a: &Instant, b: &Instant) -> bool {
    *a >= *b
}

/// Meshes waiting for destruction, each dated by the frame it was taken out at.
pub struct Graveyard<M> {
    pending: Vec<(M, u64)>,
    /// Frame counter, advanced by `tick`: the only clock of the terrain.
    frame: u64,
    /// Frames to wait before a mesh can surely be freed.
    guard: u64,
}

/// An entry buried at frame `e.1` can be destroyed at frame `frame`.
pub open spec fn expired<M>(e: (M, u64), frame: u64, guard: u64) -> bool {
    frame >= e.1 + guard
}

impl<M> Graveyard<M> {
    pub closed spec fn spec_pending(&self) -> Seq<(M, u64)> {
        self.pending@
    }

    pub closed spec fn spec_frame(&self) -> u64 {
        self.frame
    }

    pub closed spec fn spec_guard(&self) -> u64 {
        self.guard
    }

    /// Every mesh waiting was buried at a past or the current frame.
    pub open spec fn wf(&self) -> bool {
        forall|k: int|
            0 <= k < self.spec_pending().len() ==> (#[trigger] self.spec_pending()[k]).1
                <= self.spec_frame()
    }

    /// A mesh is taken out at frame `f` before the command buffer of `f` is recorded:
    /// only frames before `f` may have referenced it. Waiting `frames_in_flight + 1`
    /// frames lets all of them be signalled, with one frame to spare.
    pub fn new(frames_in_flight: u64) -> (r: Graveyard<M>)
        requires
            frames_in_flight < u64::MAX,
        ensures
            r.wf(),
            r.spec_pending().len() == 0,
            r.spec_frame() == 0,
            r.spec_guard() == frames_in_flight + 1,
    {
        Graveyard { pending: Vec::new(), frame: 0, guard: frames_in_flight + 1 }
    }

    /// Puts a mesh in the graveyard, dated by the current frame.
    pub fn bury(&mut self, mesh: M)
        requires
            old(self).wf(),
        ensures
            final(self).wf(),
            final(self).spec_pending() == old(self).spec_pending().push((mesh, old(self).spec_frame())),
            final(self).spec_frame() == old(self).spec_frame(),
            final(self).spec_guard() == old(self).spec_guard(),
    {
        let ghost p0 = self.pending@;
        self.pending.push((mesh, self.frame));
        assert forall|k: int| 0 <= k < self.pending@.len() implies (
        #[trigger] self.pending@[k]).1 <= self.frame by {
            if k < p0.len() {
                assert(old(self).spec_pending()[k].1 <= old(self).spec_frame());
                assert(self.pending@[k] == p0[k]);
            }
        }
    }

    /// Advances one frame and destroys what no frame in flight can read any more, under
    /// the per-frame time budget. Only expired meshes are destroyed and every mesh not
    /// expired stays. The result tells whether the budget ran out: it is checked after
    /// each destruction only, so when some mesh is expired at least one is destroyed,
    /// and unless the budget ran out every expired mesh is. A deadline the clock cannot
    /// represent sets no budget.
    pub fn tick(&mut self) -> (out_of_time: bool)
        requires
            old(self).wf(),
            old(self).spec_frame() < u64::MAX,
            forall|k: int|
                0 <= k < old(self).spec_pending().len() ==> (#[trigger] old(
                    self,
                ).spec_pending()[k]).1 + old(self).spec_guard() <= u64::MAX,
        ensures
            final(self).wf(),
            final(self).spec_frame() == old(self).spec_frame() + 1,
            final(self).spec_guard() == old(self).spec_guard(),
            final(self).spec_pending().to_multiset().subset_of(old(self).spec_pending().to_multiset()),
            forall|e: (M, u64)|
                #[trigger] final(self).spec_pending().to_multiset().count(e) < old(
                    self,
                ).spec_pending().to_multiset().count(e) ==> expired(
                    e,
                    final(self).spec_frame(),
                    final(self).spec_guard(),
                ),
            (exists|k: int|
                0 <= k < old(self).spec_pending().len() && expired(
                    #[trigger] old(self).spec_pending()[k],
                    final(self).spec_frame(),
                    final(self).spec_guard(),
                )) ==> final(self).spec_pending().len() < old(self).spec_pending().len(),
            !out_of_time ==> forall|k: int|
                0 <= k < final(self).spec_pending().len() ==> !expired(
                    #[trigger] final(self).spec_pending()[k],
                    final(self).spec_frame(),
                    final(self).spec_guard(),
                ),
            out_of_time ==> final(self).spec_pending().len() < old(self).spec_pending().len(),
    {
        broadcast use vstd::seq_lib::group_to_multiset_ensures;

        self.frame = self.frame + 1;
        if self.pending.len() == 0 {
            return false;
        }
        let deadline = instant_checked_add(instant_now(), duration_from_millis(FRAME_BUDGET_MS));
        let ghost p0 = self.pending@;
        let mut i: usize = 0;
        while i < self.pending.len()
            invariant
                self.frame == old(self).spec_frame() + 1,
                self.guard == old(self).spec_guard(),
                p0 == old(self).spec_pending(),
                forall|k: int| 0 <= k < p0.len() ==> (#[trigger] p0[k]).1 + self.guard <= u64::MAX,
                i <= self.pending@.len(),
                self.pending@.len() <= p0.len(),
                forall|k: int|
                    0 <= k < self.pending@.len() ==> (#[trigger] self.pending@[k]).1 < self.frame
                        && self.pending@[k].1 + self.guard <= u64::MAX,
                self.pending@.to_multiset().subset_of(p0.to_multiset()),
                forall|e: (M, u64)|
                    #[trigger] self.pending@.to_multiset().count(e) < p0.to_multiset().count(e)
                        ==> expired(e, self.frame, self.guard),
                forall|k: int| 0 <= k < i ==> !expired(#[trigger] self.pending@[k], self.frame, self.guard),
                self.pending@.len() == p0.len() ==> self.pending@.to_multiset() == p0.to_multiset(),
            decreases self.pending@.len() - i,
        {
            if self.frame < self.pending[i].1 + self.guard {
                i = i + 1;
                continue;
            }
            let ghost s = self.pending@;
            let ghost e = s[i as int];
            self.pending.swap_remove(i);
            proof {
                let last = s.last();
                vstd::seq_lib::to_multiset_update(s, i as int, last);
                vstd::seq_lib::to_multiset_remove(s.update(i as int, last), s.len() - 1);
                assert(s.update(i as int, last).drop_last() =~= s.update(i as int, last).remove(
                    s.len() - 1,
                ));
                assert(s.update(i as int, last)[s.len() - 1] == last);
                assert(self.pending@.to_multiset() =~= s.to_multiset().remove(e));
                assert forall|k: int| 0 <= k < i implies !expired(
                    #[trigger] self.pending@[k],
                    self.frame,
                    self.guard,
                ) by {
                    assert(self.pending@[k] == s[k]);
                }
                assert(s[i as int] == e);
                assert(s.contains(e));
                vstd::seq_lib::to_multiset_contains(s, e);
                assert forall|k: int| 0 <= k < self.pending@.len() implies (
                #[trigger] self.pending@[k]).1 < self.frame && self.pending@[k].1 + self.guard
                    <= u64::MAX by {
                    if k == i {
                        assert(self.pending@[k] == s[s.len() - 1]);
                    } else {
                        assert(self.pending@[k] == s[k]);
                    }
                }
            }
            if let Some(d) = &deadline {
                if instant_reached(&instant_now(), d) {
                    return true;
                }
            }
        }
        proof {
            if self.pending@.len() == p0.len() {
                assert forall|k: int| 0 <= k < p0.len() implies !expired(
                    #[trigger] p0[k],
                    self.frame,
                    self.guard,
                ) by {
                    let e = p0[k];
                    assert(p0.to_multiset().count(e) > 0);
                    assert(self.pending@.to_multiset().count(e) > 0);
                    assert(self.pending@.contains(e));
                    let j = choose|j: int| 0 <= j < self.pending@.len() && self.pending@[j] == e;
                    assert(!expired(self.pending@[j], self.frame, self.guard));
                }
            }
        }
        false
    }

    /// The meshes waiting, each with the frame it was buried at.
    pub fn pending(&self) -> (r: &Vec<(M, u64)>)
        ensures
            r@ == self.spec_pending(),
    {
        &self.pending
    }

    /// The current frame.
    pub fn frame(&self) -> (r: u64)
        ensures
            r == self.spec_frame(),
    {
        self.frame
    }

    /// Frames waited before destruction.
    pub fn guard(&self) -> (r: u64)
        ensures
            r == self.spec_guard(),
    {
        self.guard
    }
}

} // verus!
