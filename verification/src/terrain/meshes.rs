//! The loaded chunks of the terrain, and the compact list of their coordinates.
//!
//! A chunk with no surface to mesh has no entry. The list of coordinates duplicates the
//! keys on purpose: culling reads every coordinate each frame, and a compact vector is
//! much cheaper to walk than the map. Its invariant: it holds each key of the map, once.
use vstd::prelude::*;
use rustc_hash::FxHashMap;
use vstd::std_specs::iter::IteratorSpec;

verus! {

#[verifier::external_type_specification]
#[verifier::external_body]
pub struct ExFxBuildHasher(rustc_hash::FxBuildHasher);

/// What a loaded chunk owns on the rendering side; purely derived from the seed, the
/// coordinate and the level of detail, so it can be thrown away when unloaded.
pub struct LoadedChunk<M> {
    pub mesh: M,
}

/// `FxHashMap::insert` (a std `HashMap` with rustc-hash's Fx hasher): afterwards the key
/// maps to the value; the value it mapped to before, if any, comes back.
#[verifier::external_body]
fn map_insert<M>(
    m: &mut FxHashMap<(i32, i32), LoadedChunk<M>>,
    k: (i32, i32),
    v: LoadedChunk<M>,
) -> (r: Option<LoadedChunk<M>>)
    ensures
        final(m)@ == old(m)@.insert(k, v),
        match r {
            Some(x) => old(m)@.contains_key(k) && x == old(m)@[k],
            None => !old(m)@.contains_key(k),
        },
{
    m.insert(k, v)
}

/// `FxHashMap::remove`: afterwards the key maps to nothing; the value it mapped to, if
/// any, comes back.
#[verifier::external_body]
fn map_remove<M>(m: &mut FxHashMap<(i32, i32), LoadedChunk<M>>, k: &(i32, i32)) -> (r: Option<
    LoadedChunk<M>,
>)
    ensures
        final(m)@ == old(m)@.remove(*k),
        match r {
            Some(x) => old(m)@.contains_key(*k) && x == old(m)@[*k],
            None => !old(m)@.contains_key(*k),
        },
{
    m.remove(k)
}

/// `FxHashMap::get`: the value the key maps to, if any.
#[verifier::external_body]
fn map_get<'a, M>(m: &'a FxHashMap<(i32, i32), LoadedChunk<M>>, k: &(i32, i32)) -> (r: Option<
    &'a LoadedChunk<M>,
>)
    ensures
        match r {
            Some(x) => m@.contains_key(*k) && *x == m@[*k],
            None => !m@.contains_key(*k),
        },
{
    m.get(k)
}

/// `FxHashMap::values`: an iterator visiting every value of the map once, in an
/// unspecified order (what vstd states of `HashMap::values` for a valid hasher).
#[verifier::external_body]
fn map_values<'a, M>(m: &'a FxHashMap<(i32, i32), LoadedChunk<M>>) -> (r:
    std::collections::hash_map::Values<'a, (i32, i32), LoadedChunk<M>>)
    ensures
        r == vstd::std_specs::hash::spec_values_iter(m),
{
    m.values()
}

/// `s` without its element at `i`, the last one taking its place (`Vec::swap_remove`).
pub open spec fn swap_removed<T>(s: Seq<T>, i: int) -> Seq<T> {
    s.update(i, s.last()).drop_last()
}

/// The loaded chunks, keyed by coordinate, and their coordinates in a compact list.
pub struct LoadedChunks<M> {
    chunks: FxHashMap<(i32, i32), LoadedChunk<M>>,
    coords: Vec<(i32, i32)>,
}

impl<M> LoadedChunks<M> {
    pub closed spec fn spec_chunks(&self) -> Map<(i32, i32), LoadedChunk<M>> {
        self.chunks@
    }

    pub closed spec fn spec_coords(&self) -> Seq<(i32, i32)> {
        self.coords@
    }

    /// The list holds each key of the map, once.
    pub open spec fn wf(&self) -> bool {
        &&& self.spec_coords().no_duplicates()
        &&& forall|c: (i32, i32)|
            #[trigger] self.spec_coords().contains(c) <==> self.spec_chunks().contains_key(c)
    }

    /// No chunk loaded.
    pub fn new() -> (r: LoadedChunks<M>)
        ensures
            r.wf(),
            r.spec_chunks() == Map::<(i32, i32), LoadedChunk<M>>::empty(),
            r.spec_coords() == Seq::<(i32, i32)>::empty(),
    {
        LoadedChunks { chunks: FxHashMap::default(), coords: Vec::new() }
    }

    /// The coordinates, in compact memory: the culling walks them.
    pub fn coords(&self) -> (r: &[(i32, i32)])
        ensures
            r@ == self.spec_coords(),
    {
        self.coords.as_slice()
    }

    /// The chunk at `coord`, if loaded.
    pub fn get(&self, coord: &(i32, i32)) -> (r: Option<&LoadedChunk<M>>)
        ensures
            match r {
                Some(x) => self.spec_chunks().contains_key(*coord) && *x == self.spec_chunks()[*coord],
                None => !self.spec_chunks().contains_key(*coord),
            },
    {
        map_get(&self.chunks, coord)
    }

    /// The loaded chunks, each once, in the map's order.
    pub fn values(&self) -> (r: std::collections::hash_map::Values<'_, (i32, i32), LoadedChunk<M>>)
        ensures
            r.remaining().unref().to_set() == self.spec_chunks().values(),
            r.remaining().len() == self.spec_chunks().dom().len(),
    {
        broadcast use vstd::std_specs::hash::group_hash_axioms;

        map_values(&self.chunks)
    }

    /// Whether no chunk is loaded.
    pub fn is_empty(&self) -> (r: bool)
        ensures
            r == self.spec_chunks().is_empty(),
    {
        self.chunks.is_empty()
    }

    /// Loads `mesh` at `coord` and gives back the mesh it replaces, if any. A
    /// replacement (the usual case, a change of level of detail) leaves the list alone:
    /// the coordinate is in it already.
    pub fn insert(&mut self, coord: (i32, i32), mesh: M) -> (r: Option<M>)
        requires
            old(self).wf(),
        ensures
            final(self).wf(),
            final(self).spec_chunks() == old(self).spec_chunks().insert(coord, LoadedChunk { mesh }),
            match r {
                Some(x) => old(self).spec_chunks().contains_key(coord) && x == old(
                    self,
                ).spec_chunks()[coord].mesh,
                None => !old(self).spec_chunks().contains_key(coord),
            },
            final(self).spec_coords() == (if old(self).spec_chunks().contains_key(coord) {
                old(self).spec_coords()
            } else {
                old(self).spec_coords().push(coord)
            }),
    {
        let previous = map_insert(&mut self.chunks, coord, LoadedChunk { mesh });
        let ghost c0 = self.coords@;
        match previous {
            Some(c) => Some(c.mesh),
            None => {
                self.coords.push(coord);
                proof {
                    assert forall|i: int, j: int|
                        0 <= i < self.coords@.len() && 0 <= j < self.coords@.len() && i != j
                            implies self.coords@[i] != self.coords@[j] by {
                        if i == c0.len() {
                            assert(c0.contains(self.coords@[j]));
                        } else if j == c0.len() {
                            assert(c0.contains(self.coords@[i]));
                        }
                    }
                    assert forall|c: (i32, i32)|
                        #[trigger] self.coords@.contains(c) <==> self.chunks@.contains_key(c) by {
                        if c0.contains(c) {
                            let k = choose|k: int| 0 <= k < c0.len() && c0[k] == c;
                            assert(self.coords@[k] == c);
                        }
                        if self.coords@.contains(c) && c != coord {
                            let k = choose|k: int| 0 <= k < self.coords@.len() && self.coords@[k] == c;
                            assert(c0[k] == c);
                        }
                        if c == coord {
                            assert(self.coords@[c0.len() as int] == c);
                        }
                    }
                }
                None
            },
        }
    }

    /// Unloads the chunk at `coord` and gives back its mesh, if it was loaded. The
    /// coordinate leaves the list, the last one taking its place.
    pub fn remove(&mut self, coord: &(i32, i32)) -> (r: Option<M>)
        requires
            old(self).wf(),
        ensures
            final(self).wf(),
            final(self).spec_chunks() == old(self).spec_chunks().remove(*coord),
            match r {
                Some(x) => {
                    &&& old(self).spec_chunks().contains_key(*coord)
                    &&& x == old(self).spec_chunks()[*coord].mesh
                    &&& exists|i: int|
                        0 <= i < old(self).spec_coords().len() && old(self).spec_coords()[i]
                            == *coord && final(self).spec_coords() == swap_removed(
                            old(self).spec_coords(),
                            i,
                        )
                },
                None => {
                    &&& !old(self).spec_chunks().contains_key(*coord)
                    &&& final(self).spec_coords() == old(self).spec_coords()
                },
            },
    {
        let chunk = match map_remove(&mut self.chunks, coord) {
            Some(c) => c,
            None => {
                return None;
            },
        };
        let ghost c0 = self.coords@;
        let mut i: usize = 0;
        while i < self.coords.len()
            invariant
                c0 == self.coords@,
                i <= c0.len(),
                forall|k: int| 0 <= k < i ==> c0[k] != *coord,
            ensures
                i <= c0.len(),
                i < c0.len() ==> c0[i as int] == *coord,
                forall|k: int| 0 <= k < i ==> c0[k] != *coord,
            decreases c0.len() - i,
        {
            let c = self.coords[i];
            if c.0 == coord.0 && c.1 == coord.1 {
                break;
            }
            i = i + 1;
        }
        proof {
            assert(c0.contains(*coord));
            let k = choose|k: int| 0 <= k < c0.len() && c0[k] == *coord;
            assert(i < c0.len());
        }
        self.coords.swap_remove(i);
        proof {
            let c1 = self.coords@;
            let last = c0.len() - 1;
            assert(c1 == swap_removed(c0, i as int));
            assert forall|a: int, b: int| 0 <= a < c1.len() && 0 <= b < c1.len() && a != b implies c1[a]
                != c1[b] by {
                let oa = if a == i { last } else { a };
                let ob = if b == i { last } else { b };
                assert(c1[a] == c0[oa]);
                assert(c1[b] == c0[ob]);
            }
            assert forall|c: (i32, i32)| #[trigger] c1.contains(c) <==> self.chunks@.contains_key(c) by {
                if c1.contains(c) {
                    let a = choose|a: int| 0 <= a < c1.len() && c1[a] == c;
                    let oa = if a == i { last } else { a };
                    assert(c0[oa] == c);
                    assert(oa != i);
                    assert(c0[i as int] == *coord);
                    assert(c != *coord);
                    assert(c0.contains(c));
                    assert(old(self).spec_chunks().contains_key(c));
                }
                if self.chunks@.contains_key(c) {
                    assert(c != *coord);
                    assert(old(self).spec_chunks().contains_key(c));
                    assert(c0.contains(c));
                    let k = choose|k: int| 0 <= k < c0.len() && c0[k] == c;
                    assert(k != i);
                    if k == last {
                        assert(c1[i as int] == c);
                    } else {
                        assert(c1[k] == c);
                    }
                }
            }
        }
        Some(chunk.mesh)
    }
}

/// Loading a chunk at a coordinate that had none, then unloading it, gives back the
/// chunks and the list of coordinates exactly as they were.
pub proof fn law_remove_undoes_insert<M>(
    a: LoadedChunks<M>,
    b: LoadedChunks<M>,
    c: LoadedChunks<M>,
    coord: (i32, i32),
    mesh: M,
)
    requires
        a.wf(),
        !a.spec_chunks().contains_key(coord),
        b.spec_chunks() == a.spec_chunks().insert(coord, LoadedChunk { mesh }),
        b.spec_coords() == a.spec_coords().push(coord),
        c.spec_chunks() == b.spec_chunks().remove(coord),
        exists|i: int|
            0 <= i < b.spec_coords().len() && b.spec_coords()[i] == coord && c.spec_coords()
                == swap_removed(b.spec_coords(), i),
    ensures
        c.spec_chunks() == a.spec_chunks(),
        c.spec_coords() == a.spec_coords(),
{
    let s = a.spec_coords();
    let i = choose|i: int|
        0 <= i < b.spec_coords().len() && b.spec_coords()[i] == coord && c.spec_coords()
            == swap_removed(b.spec_coords(), i);
    if i < s.len() {
        assert(s[i] == coord);
        assert(s.contains(coord));
    }
    assert(c.spec_coords() =~= s);
    assert(c.spec_chunks() =~= a.spec_chunks());
}

} // verus!
