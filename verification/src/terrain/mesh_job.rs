//! A re-meshing batch in flight.
//!
//! Chunks do not finish together, and installing one while its neighbour still carries
//! the former seams opens a crack for a few frames. So the whole batch is gathered and
//! built first, and switched in at once. Building (GPU buffers) is spread over frames
//! under a time budget; the batch records which geometries are built, in the order
//! they were gathered, until everything that will arrive has arrived and been built.
use vstd::prelude::*;

verus! {

/// The geometries that the cache already holds, in the order of `looked_up`, each with
/// its chunk.
pub open spec fn cache_hits<D>(looked_up: Seq<((i32, i32), Option<D>)>) -> Seq<((i32, i32), D)>
    decreases looked_up.len(),
{
    if looked_up.len() == 0 {
        Seq::empty()
    } else {
        let last = looked_up.last();
        let before = cache_hits(looked_up.drop_last());
        match last.1 {
            Some(d) => before.push((last.0, d)),
            None => before,
        }
    }
}

/// The chunks that the cache does not hold, in the order of `looked_up`: they must be
/// meshed.
pub open spec fn cache_misses<D>(looked_up: Seq<((i32, i32), Option<D>)>) -> Seq<(i32, i32)>
    decreases looked_up.len(),
{
    if looked_up.len() == 0 {
        Seq::empty()
    } else {
        let last = looked_up.last();
        let before = cache_misses(looked_up.drop_last());
        match last.1 {
            Some(_) => before,
            None => before.push(last.0),
        }
    }
}

/// A batch in flight: the geometries gathered so far (cache hits first, then what the
/// workers send), how many of them have their buffers built, and the built meshes
/// waiting to be switched in (`None`: the chunk became empty).
pub struct MeshJob<D, M> {
    gathered: Vec<((i32, i32), D)>,
    all_meshed: bool,
    built: Vec<((i32, i32), Option<M>)>,
    meshed_count: usize,
}

impl<D, M> MeshJob<D, M> {
    pub closed spec fn spec_gathered(&self) -> Seq<((i32, i32), D)> {
        self.gathered@
    }

    pub closed spec fn spec_all_meshed(&self) -> bool {
        self.all_meshed
    }

    pub closed spec fn spec_built(&self) -> Seq<((i32, i32), Option<M>)> {
        self.built@
    }

    pub closed spec fn spec_meshed_count(&self) -> usize {
        self.meshed_count
    }

    /// The built meshes are those of the first gathered geometries, one each, in order.
    pub open spec fn wf(&self) -> bool {
        &&& self.spec_built().len() <= self.spec_gathered().len()
        &&& forall|k: int|
            0 <= k < self.spec_built().len() ==> (#[trigger] self.spec_built()[k]).0
                == self.spec_gathered()[k].0
    }

    /// Whether the batch is whole: every geometry that will arrive has arrived and has
    /// its buffers built.
    pub open spec fn spec_complete(&self) -> bool {
        self.spec_all_meshed() && self.spec_built().len() == self.spec_gathered().len()
    }

    /// Opens a batch over the dirty chunks, each with what the mesh cache holds for it:
    /// the hits are gathered at once, the misses are returned, to be handed to the
    /// workers.
    pub fn start(looked_up: Vec<((i32, i32), Option<D>)>) -> (r: (MeshJob<D, M>, Vec<(i32, i32)>))
        ensures
            r.0.wf(),
            r.0.spec_gathered() == cache_hits(looked_up@),
            r.1@ == cache_misses(looked_up@),
            r.0.spec_meshed_count() == r.1@.len(),
            !r.0.spec_all_meshed(),
            r.0.spec_built().len() == 0,
    {
        let ghost s = looked_up@;
        let mut rest = looked_up;
        assert(s.len() == rest.len());
        let mut gathered: Vec<((i32, i32), D)> = Vec::new();
        let mut todo: Vec<(i32, i32)> = Vec::new();
        let mut i: usize = 0;
        while rest.len() > 0
            invariant
                i + rest@.len() == s.len(),
                s.len() <= usize::MAX,
                rest@ == s.skip(i as int),
                gathered@ == cache_hits(s.take(i as int)),
                todo@ == cache_misses(s.take(i as int)),
            decreases rest@.len(),
        {
            let (coord, entry) = rest.remove(0);
            proof {
                assert(s.take(i as int + 1).drop_last() == s.take(i as int));
                assert(s.take(i as int + 1).last() == s[i as int]);
                assert(rest@ == s.skip(i as int + 1));
            }
            match entry {
                Some(d) => gathered.push((coord, d)),
                None => todo.push(coord),
            }
            i = i + 1;
        }
        proof {
            assert(s.take(i as int) == s);
        }
        let meshed_count = todo.len();
        (MeshJob { gathered, all_meshed: false, built: Vec::new(), meshed_count }, todo)
    }

    /// A worker sent the geometry of `coord`.
    pub fn receive(&mut self, coord: (i32, i32), data: D)
        requires
            old(self).wf(),
        ensures
            final(self).wf(),
            final(self).spec_gathered() == old(self).spec_gathered().push((coord, data)),
            final(self).spec_built() == old(self).spec_built(),
            final(self).spec_all_meshed() == old(self).spec_all_meshed(),
            final(self).spec_meshed_count() == old(self).spec_meshed_count(),
    {
        self.gathered.push((coord, data));
        assert forall|k: int| 0 <= k < self.built@.len() implies (
        #[trigger] self.built@[k]).0 == self.gathered@[k].0 by {
            assert(old(self).spec_built()[k].0 == old(self).spec_gathered()[k].0);
        }
    }

    /// Every worker is done: nothing more will be gathered.
    pub fn workers_done(&mut self)
        requires
            old(self).wf(),
        ensures
            final(self).wf(),
            final(self).spec_all_meshed(),
            final(self).spec_gathered() == old(self).spec_gathered(),
            final(self).spec_built() == old(self).spec_built(),
            final(self).spec_meshed_count() == old(self).spec_meshed_count(),
    {
        self.all_meshed = true;
    }

    /// The next gathered geometry whose buffers must be built, if any.
    pub fn next_to_build(&self) -> (r: Option<&((i32, i32), D)>)
        requires
            self.wf(),
        ensures
            match r {
                Some(e) => self.spec_built().len() < self.spec_gathered().len() && *e
                    == self.spec_gathered()[self.spec_built().len() as int],
                None => self.spec_built().len() == self.spec_gathered().len(),
            },
    {
        if self.built.len() < self.gathered.len() {
            Some(&self.gathered[self.built.len()])
        } else {
            None
        }
    }

    /// Records the mesh built for the next gathered geometry (`None`: it is empty, the
    /// chunk's mesh will only be removed).
    pub fn record_built(&mut self, mesh: Option<M>)
        requires
            old(self).wf(),
            old(self).spec_built().len() < old(self).spec_gathered().len(),
        ensures
            final(self).wf(),
            final(self).spec_built() == old(self).spec_built().push(
                (old(self).spec_gathered()[old(self).spec_built().len() as int].0, mesh),
            ),
            final(self).spec_gathered() == old(self).spec_gathered(),
            final(self).spec_all_meshed() == old(self).spec_all_meshed(),
            final(self).spec_meshed_count() == old(self).spec_meshed_count(),
    {
        let coord = self.gathered[self.built.len()].0;
        self.built.push((coord, mesh));
        assert forall|k: int| 0 <= k < self.built@.len() implies (
        #[trigger] self.built@[k]).0 == self.gathered@[k].0 by {
            if k < old(self).spec_built().len() {
                assert(old(self).spec_built()[k].0 == old(self).spec_gathered()[k].0);
            }
        }
    }

    /// Whether the batch is whole and can be switched in.
    pub fn is_complete(&self) -> (r: bool)
        requires
            self.wf(),
        ensures
            r == self.spec_complete(),
    {
        self.all_meshed && self.built.len() == self.gathered.len()
    }

    /// Chunks handed to the workers; the rest of the batch came from the cache.
    pub fn meshed_count(&self) -> (r: usize)
        ensures
            r == self.spec_meshed_count(),
    {
        self.meshed_count
    }

    /// The built meshes, in the order their geometries were gathered.
    pub fn into_built(self) -> (r: Vec<((i32, i32), Option<M>)>)
        ensures
            r@ == self.spec_built(),
    {
        self.built
    }
}

/// Every dirty chunk is either served by the cache or handed to the workers, never both.
pub proof fn law_cache_split_partitions<D>(looked_up: Seq<((i32, i32), Option<D>)>)
    ensures
        cache_hits(looked_up).len() + cache_misses(looked_up).len() == looked_up.len(),
        cache_hits(looked_up).len() == looked_up.filter(|e: ((i32, i32), Option<D>)| e.1 is Some).len(),
    decreases looked_up.len(),
{
    if looked_up.len() > 0 {
        law_cache_split_partitions(looked_up.drop_last());
        reveal(Seq::filter);
    }
}

/// A batch once whole installs exactly the chunks gathered, each once and in the order
/// gathered: the cache hits first, in the order of the dirty chunks, then what the
/// workers sent.
pub proof fn law_complete_batch_covers_gathered<D, M>(job: MeshJob<D, M>)
    requires
        job.wf(),
        job.spec_complete(),
    ensures
        job.spec_built().len() == job.spec_gathered().len(),
        forall|k: int|
            0 <= k < job.spec_built().len() ==> (#[trigger] job.spec_built()[k]).0
                == job.spec_gathered()[k].0,
{
}

} // verus!
