//! The living terrain's bookkeeping: the loaded chunks, the deferred destruction of
//! replaced meshes, and the installation of a meshed batch.
pub mod graveyard;
pub mod mesh_job;
pub mod meshes;

use vstd::prelude::*;
use graveyard::Graveyard;
use meshes::{swap_removed, LoadedChunk, LoadedChunks};

verus! {

/// The chunks, the meshes taken out (in order) and the coordinates to upload (in order)
/// after installing `built` over the chunks `map`: a mesh replaces the chunk's former
/// one, which is taken out; no mesh unloads the chunk, whose mesh is taken out.
pub open spec fn installed<M>(
    map: Map<(i32, i32), LoadedChunk<M>>,
    built: Seq<((i32, i32), Option<M>)>,
) -> (Map<(i32, i32), LoadedChunk<M>>, Seq<M>, Seq<(i32, i32)>)
    decreases built.len(),
{
    if built.len() == 0 {
        (map, Seq::empty(), Seq::empty())
    } else {
        let (m0, out0, up0) = installed(map, built.drop_last());
        let (coord, mesh) = built.last();
        let out1 = if m0.contains_key(coord) {
            out0.push(m0[coord].mesh)
        } else {
            out0
        };
        match mesh {
            Some(mesh) => (m0.insert(coord, LoadedChunk { mesh }), out1, up0.push(coord)),
            None => (m0.remove(coord), out1, up0),
        }
    }
}

/// A position of `k` in `s`.
pub open spec fn position_in(s: Seq<(i32, i32)>, k: (i32, i32)) -> int {
    choose|i: int| 0 <= i < s.len() && s[i] == k
}

/// The list of coordinates after installing `built` over the chunks `map` listed in
/// `coords`: a new chunk is appended, an unloaded one leaves, the last taking its place.
pub open spec fn installed_coords<M>(
    map: Map<(i32, i32), LoadedChunk<M>>,
    coords: Seq<(i32, i32)>,
    built: Seq<((i32, i32), Option<M>)>,
) -> Seq<(i32, i32)>
    decreases built.len(),
{
    if built.len() == 0 {
        coords
    } else {
        let c0 = installed_coords(map, coords, built.drop_last());
        let m0 = installed(map, built.drop_last()).0;
        let (coord, mesh) = built.last();
        match mesh {
            Some(_) => if m0.contains_key(coord) {
                c0
            } else {
                c0.push(coord)
            },
            None => if m0.contains_key(coord) {
                swap_removed(c0, position_in(c0, coord))
            } else {
                c0
            },
        }
    }
}

/// `meshes` buried at `frame`.
pub open spec fn dated<M>(meshes: Seq<M>, frame: u64) -> Seq<(M, u64)> {
    meshes.map_values(|m: M| (m, frame))
}

/// Switches a whole batch of built meshes in. Only moves meshes already built: a
/// replacement gives back the former mesh, which goes to the graveyard, and the new
/// one waits for its upload; a chunk that became empty is unloaded.
pub fn install_batch<M>(
    chunks: &mut LoadedChunks<M>,
    graveyard: &mut Graveyard<M>,
    pending_uploads: &mut Vec<(i32, i32)>,
    built: Vec<((i32, i32), Option<M>)>,
)
    requires
        old(chunks).wf(),
        old(graveyard).wf(),
    ensures
        final(chunks).wf(),
        final(graveyard).wf(),
        ({
            let (m, out, up) = installed(old(chunks).spec_chunks(), built@);
            &&& final(chunks).spec_chunks() == m
            &&& final(chunks).spec_coords() == installed_coords(
                old(chunks).spec_chunks(),
                old(chunks).spec_coords(),
                built@,
            )
            &&& final(graveyard).spec_pending() == old(graveyard).spec_pending() + dated(
                out,
                old(graveyard).spec_frame(),
            )
            &&& final(graveyard).spec_frame() == old(graveyard).spec_frame()
            &&& final(graveyard).spec_guard() == old(graveyard).spec_guard()
            &&& final(pending_uploads)@ == old(pending_uploads)@ + up
        }),
{
    let ghost b = built@;
    let ghost frame = graveyard.spec_frame();
    let ghost map0 = chunks.spec_chunks();
    let ghost coords0 = chunks.spec_coords();
    let ghost pend0 = graveyard.spec_pending();
    let ghost up0 = pending_uploads@;
    for entry in it: built.into_iter()
        invariant
            it.seq() == b,
            chunks.wf(),
            graveyard.wf(),
            graveyard.spec_frame() == frame,
            graveyard.spec_guard() == old(graveyard).spec_guard(),
            ({
                let (m, out, up) = installed(map0, b.take(it.index() as int));
                &&& chunks.spec_chunks() == m
                &&& chunks.spec_coords() == installed_coords(map0, coords0, b.take(it.index() as int))
                &&& graveyard.spec_pending() == pend0 + dated(out, frame)
                &&& pending_uploads@ == up0 + up
            }),
    {
        let ghost k = it.index();
        proof {
            assert(b.take(k + 1).drop_last() =~= b.take(k as int));
            assert(b.take(k + 1).last() == b[k as int]);
        }
        let (coord, mesh) = entry;
        let ghost c0 = chunks.spec_coords();
        match mesh {
            Some(mesh) => {
                if let Some(old) = chunks.insert(coord, mesh) {
                    graveyard.bury(old);
                }
                pending_uploads.push(coord);
            },
            None => {
                if let Some(old) = chunks.remove(&coord) {
                    proof {
                        let i = choose|i: int|
                            0 <= i < c0.len() && c0[i] == coord && chunks.spec_coords()
                                == swap_removed(c0, i);
                        let j = position_in(c0, coord);
                        assert(c0[j] == coord);
                        assert(i == j);
                    }
                    graveyard.bury(old);
                }
            },
        }
        proof {
            let (m1, out1, upl1) = installed(map0, b.take(k + 1));
            let (m0, out0, upl0) = installed(map0, b.take(k as int));
            assert(graveyard.spec_pending() =~= pend0 + dated(out1, frame));
            assert(pending_uploads@ =~= up0 + upl1);
        }
    }
    proof {
        assert(b.take(b.len() as int) =~= b);
    }
}

/// The last entry for `c` in `built`, if any.
pub open spec fn last_entry<M>(built: Seq<((i32, i32), Option<M>)>, c: (i32, i32)) -> Option<Option<M>>
    decreases built.len(),
{
    if built.len() == 0 {
        None
    } else if built.last().0 == c {
        Some(built.last().1)
    } else {
        last_entry(built.drop_last(), c)
    }
}

/// After a batch, each chunk holds the mesh of its last entry, is unloaded when that
/// entry has no mesh, and is untouched when the batch does not name it.
pub proof fn law_install_last_entry_wins<M>(
    map: Map<(i32, i32), LoadedChunk<M>>,
    built: Seq<((i32, i32), Option<M>)>,
    c: (i32, i32),
)
    ensures
        ({
            let m = installed(map, built).0;
            match last_entry(built, c) {
                Some(Some(mesh)) => m.contains_key(c) && m[c] == LoadedChunk { mesh },
                Some(None) => !m.contains_key(c),
                None => m.contains_key(c) == map.contains_key(c) && (map.contains_key(c) ==> m[c]
                    == map[c]),
            }
        }),
    decreases built.len(),
{
    if built.len() > 0 {
        law_install_last_entry_wins(map, built.drop_last(), c);
    }
}

} // verus!
