//! The terrain statistics the engine sends to the monitor's world tab when it generates
//! the terrain: a plain-text summary record, then one record per level of detail.
use vstd::prelude::*;
use crate::log_parser::{field_sep, lod_record, record_sep, world_lods, world_summary, WorldLod};
use crate::text::{
    decimal, from_chars, index_of, lemma_decimal_roundtrip, lemma_index_of_exact, lemma_split_append,
    lemma_split_single, push_all, split_spec, splitn_spec, to_decimal,
};

verus! {

/// Chunks at level `l` among `meshed` (each entry: the chunk's level, its vertices).
pub open spec fn chunks_at(meshed: Seq<(usize, usize)>, l: int) -> nat
    decreases meshed.len(),
{
    if meshed.len() == 0 {
        0
    } else {
        chunks_at(meshed.drop_last(), l) + if meshed.last().0 == l {
            1nat
        } else {
            0nat
        }
    }
}

/// Vertices of the chunks at level `l` among `meshed`.
pub open spec fn vertices_at(meshed: Seq<(usize, usize)>, l: int) -> nat
    decreases meshed.len(),
{
    if meshed.len() == 0 {
        0
    } else {
        vertices_at(meshed.drop_last(), l) + if meshed.last().0 == l {
            meshed.last().1 as nat
        } else {
            0nat
        }
    }
}

/// Vertices of all the chunks of `meshed`.
pub open spec fn total_vertices(meshed: Seq<(usize, usize)>) -> nat
    decreases meshed.len(),
{
    if meshed.len() == 0 {
        0
    } else {
        total_vertices(meshed.drop_last()) + meshed.last().1 as nat
    }
}

/// The summary record: `Terrain : {chunks} chunks, {vertices} sommets`.
pub open spec fn summary_text(chunks: nat, vertices: nat) -> Seq<char> {
    seq!['T', 'e', 'r', 'r', 'a', 'i', 'n', ' ', ':', ' '] + decimal(chunks) + seq![
        ' ',
        'c',
        'h',
        'u',
        'n',
        'k',
        's',
        ',',
        ' ',
    ] + decimal(vertices) + seq![' ', 's', 'o', 'm', 'm', 'e', 't', 's']
}

/// The record of a level: `level␟chunks␟vertices`.
pub open spec fn level_record(l: nat, chunks: nat, vertices: nat) -> Seq<char> {
    decimal(l) + seq!['\u{1f}'] + decimal(chunks) + seq!['\u{1f}'] + decimal(vertices)
}

/// The records of levels `0..n`, each preceded by the record separator `␞`.
pub open spec fn levels_text(meshed: Seq<(usize, usize)>, n: nat) -> Seq<char>
    decreases n,
{
    if n == 0 {
        Seq::empty()
    } else {
        levels_text(meshed, (n - 1) as nat) + seq!['\u{1e}'] + level_record(
            (n - 1) as nat,
            chunks_at(meshed, n - 1),
            vertices_at(meshed, n - 1),
        )
    }
}

/// The whole body: the summary, then the records of levels `0..=max_lod`.
pub open spec fn world_stats_text(meshed: Seq<(usize, usize)>, max_lod: nat) -> Seq<char> {
    summary_text(meshed.len(), total_vertices(meshed)) + levels_text(meshed, max_lod + 1)
}

proof fn lemma_vertices_bounded(meshed: Seq<(usize, usize)>, l: int)
    ensures
        vertices_at(meshed, l) <= total_vertices(meshed),
        chunks_at(meshed, l) <= meshed.len(),
    decreases meshed.len(),
{
    if meshed.len() > 0 {
        lemma_vertices_bounded(meshed.drop_last(), l);
    }
}

proof fn lemma_total_prefix(meshed: Seq<(usize, usize)>, k: int)
    requires
        0 <= k <= meshed.len(),
    ensures
        total_vertices(meshed.take(k)) <= total_vertices(meshed),
    decreases meshed.len() - k,
{
    if k < meshed.len() {
        lemma_total_prefix(meshed, k + 1);
        assert(meshed.take(k + 1).drop_last() =~= meshed.take(k));
    } else {
        assert(meshed.take(k) =~= meshed);
    }
}

/// The body of the statistics message for the meshed chunks `meshed` (each entry: the
/// chunk's level of detail, its vertex count), levels `0..=max_lod`.
pub fn world_stats_body(meshed: &Vec<(usize, usize)>, max_lod: usize) -> (r: String)
    requires
        max_lod < usize::MAX,
        forall|k: int| 0 <= k < meshed@.len() ==> (#[trigger] meshed@[k]).0 <= max_lod,
        total_vertices(meshed@) <= usize::MAX,
    ensures
        r@ == world_stats_text(meshed@, max_lod as nat),
{
    let levels = max_lod + 1;
    let mut chunks_per: Vec<usize> = Vec::new();
    let mut verts_per: Vec<usize> = Vec::new();
    let mut l: usize = 0;
    while l < levels
        invariant
            l <= levels,
            chunks_per@.len() == l,
            verts_per@.len() == l,
            forall|j: int| 0 <= j < l ==> chunks_per@[j] == 0 && verts_per@[j] == 0,
        decreases levels - l,
    {
        chunks_per.push(0);
        verts_per.push(0);
        l = l + 1;
    }
    let mut total: usize = 0;
    let mut k: usize = 0;
    while k < meshed.len()
        invariant
            k <= meshed@.len(),
            levels == max_lod + 1,
            chunks_per@.len() == levels,
            verts_per@.len() == levels,
            forall|i: int| 0 <= i < meshed@.len() ==> (#[trigger] meshed@[i]).0 <= max_lod,
            total_vertices(meshed@) <= usize::MAX,
            forall|j: int|
                0 <= j < levels ==> chunks_per@[j] == chunks_at(meshed@.take(k as int), j)
                    && verts_per@[j] == vertices_at(meshed@.take(k as int), j),
            total == total_vertices(meshed@.take(k as int)),
        decreases meshed@.len() - k,
    {
        let (lod, verts) = meshed[k];
        let ghost t = meshed@.take(k + 1);
        proof {
            assert(t.drop_last() =~= meshed@.take(k as int));
            lemma_total_prefix(meshed@, k + 1);
            lemma_vertices_bounded(t, lod as int);
        }
        let c = chunks_per[lod];
        chunks_per.set(lod, c + 1);
        let v = verts_per[lod];
        verts_per.set(lod, v + verts);
        total = total + verts;
        k = k + 1;
    }
    proof {
        assert(meshed@.take(k as int) =~= meshed@);
    }
    let mut out: Vec<char> = Vec::new();
    let head = vec!['T', 'e', 'r', 'r', 'a', 'i', 'n', ' ', ':', ' '];
    push_all(&mut out, head.as_slice());
    let d = to_decimal(meshed.len() as u128);
    push_all(&mut out, d.as_slice());
    let mid = vec![' ', 'c', 'h', 'u', 'n', 'k', 's', ',', ' '];
    push_all(&mut out, mid.as_slice());
    let d = to_decimal(total as u128);
    push_all(&mut out, d.as_slice());
    let tail = vec![' ', 's', 'o', 'm', 'm', 'e', 't', 's'];
    push_all(&mut out, tail.as_slice());
    proof {
        assert(out@ =~= summary_text(meshed@.len(), total_vertices(meshed@)));
        assert(out@ =~= summary_text(meshed@.len(), total_vertices(meshed@)) + levels_text(
            meshed@,
            0,
        ));
    }
    let mut l: usize = 0;
    while l < levels
        invariant
            l <= levels,
            levels == max_lod + 1,
            chunks_per@.len() == levels,
            verts_per@.len() == levels,
            forall|j: int|
                0 <= j < levels ==> chunks_per@[j] == chunks_at(meshed@, j) && verts_per@[j]
                    == vertices_at(meshed@, j),
            out@ == summary_text(meshed@.len(), total_vertices(meshed@)) + levels_text(
                meshed@,
                l as nat,
            ),
        decreases levels - l,
    {
        let ghost before = out@;
        out.push('\u{1e}');
        let d = to_decimal(l as u128);
        push_all(&mut out, d.as_slice());
        out.push('\u{1f}');
        let d = to_decimal(chunks_per[l] as u128);
        push_all(&mut out, d.as_slice());
        out.push('\u{1f}');
        let d = to_decimal(verts_per[l] as u128);
        push_all(&mut out, d.as_slice());
        proof {
            assert(out@ =~= before + seq!['\u{1e}'] + level_record(
                l as nat,
                chunks_at(meshed@, l as int),
                vertices_at(meshed@, l as int),
            ));
        }
        l = l + 1;
    }
    from_chars(out.as_slice())
}

/// The records of levels `0..n`.
pub open spec fn level_records(meshed: Seq<(usize, usize)>, n: nat) -> Seq<Seq<char>>
    decreases n,
{
    if n == 0 {
        Seq::empty()
    } else {
        level_records(meshed, (n - 1) as nat).push(
            level_record((n - 1) as nat, chunks_at(meshed, n - 1), vertices_at(meshed, n - 1)),
        )
    }
}

/// Levels `0..n` of `meshed`, as the monitor holds them.
pub open spec fn levels_of(meshed: Seq<(usize, usize)>, n: nat) -> Seq<WorldLod>
    decreases n,
{
    if n == 0 {
        Seq::empty()
    } else {
        levels_of(meshed, (n - 1) as nat).push(
            WorldLod {
                lod: (n - 1) as u32,
                chunks: chunks_at(meshed, n - 1) as usize,
                vertices: vertices_at(meshed, n - 1) as usize,
            },
        )
    }
}

proof fn lemma_decimal_plain(n: nat)
    ensures
        decimal(n).len() > 0,
        forall|j: int|
            0 <= j < decimal(n).len() ==> #[trigger] decimal(n)[j] != record_sep() && decimal(n)[j]
                != field_sep(),
{
    lemma_decimal_roundtrip(n);
}

proof fn lemma_summary_plain(c: nat, v: nat)
    ensures
        summary_text(c, v).len() > 0,
        forall|j: int|
            0 <= j < summary_text(c, v).len() ==> #[trigger] summary_text(c, v)[j] != record_sep()
                && summary_text(c, v)[j] != field_sep(),
{
    lemma_decimal_plain(c);
    lemma_decimal_plain(v);
    let a = seq!['T', 'e', 'r', 'r', 'a', 'i', 'n', ' ', ':', ' '];
    let b = seq![' ', 'c', 'h', 'u', 'n', 'k', 's', ',', ' '];
    let e = seq![' ', 's', 'o', 'm', 'm', 'e', 't', 's'];
    let dc = decimal(c);
    let dv = decimal(v);
    let t = summary_text(c, v);
    assert(t == a + dc + b + dv + e);
    assert forall|j: int| 0 <= j < t.len() implies #[trigger] t[j] != record_sep() && t[j]
        != field_sep() by {
        let n1 = a.len() as int;
        let n2 = n1 + dc.len();
        let n3 = n2 + b.len();
        let n4 = n3 + dv.len();
        if j < n1 {
            assert(t[j] == a[j]);
        } else if j < n2 {
            assert(t[j] == dc[j - n1]);
        } else if j < n3 {
            assert(t[j] == b[j - n2]);
        } else if j < n4 {
            assert(t[j] == dv[j - n3]);
        } else {
            assert(t[j] == e[j - n4]);
        }
    }
}

proof fn lemma_level_record(l: nat, c: nat, v: nat)
    requires
        l <= u32::MAX,
        c <= usize::MAX,
        v <= usize::MAX,
    ensures
        forall|j: int|
            0 <= j < level_record(l, c, v).len() ==> #[trigger] level_record(l, c, v)[j]
                != record_sep(),
        index_of(level_record(l, c, v), field_sep()) >= 0,
        lod_record(level_record(l, c, v)) == Some(
            WorldLod { lod: l as u32, chunks: c as usize, vertices: v as usize },
        ),
{
    lemma_decimal_plain(l);
    lemma_decimal_plain(c);
    lemma_decimal_plain(v);
    lemma_decimal_roundtrip(l);
    lemma_decimal_roundtrip(c);
    lemma_decimal_roundtrip(v);
    let dl = decimal(l);
    let dc = decimal(c);
    let dv = decimal(v);
    let sep = field_sep();
    let rec = level_record(l, c, v);
    let rest = dc + seq![sep] + dv;
    assert(rec =~= dl + seq![sep] + rest);
    assert forall|j: int| 0 <= j < rec.len() implies #[trigger] rec[j] != record_sep() by {
        if j < dl.len() {
            assert(rec[j] == dl[j]);
        } else if j > dl.len() {
            let k = j - dl.len() - 1;
            assert(rec[j] == rest[k]);
            if k < dc.len() {
                assert(rest[k] == dc[k]);
            } else if k > dc.len() {
                assert(rest[k] == dv[k - dc.len() - 1]);
            }
        }
    }
    assert forall|j: int| 0 <= j < dl.len() implies #[trigger] rec[j] != sep by {
        assert(rec[j] == dl[j]);
    }
    lemma_index_of_exact(rec, sep, dl.len() as int);
    assert(rec.take(dl.len() as int) =~= dl);
    assert(rec.skip(dl.len() as int + 1) =~= rest);
    assert forall|j: int| 0 <= j < dc.len() implies #[trigger] rest[j] != sep by {
        assert(rest[j] == dc[j]);
    }
    lemma_index_of_exact(rest, sep, dc.len() as int);
    assert(rest.take(dc.len() as int) =~= dc);
    assert(rest.skip(dc.len() as int + 1) =~= dv);
    assert(splitn_spec(dv, 1, sep) == seq![dv]);
    assert(splitn_spec(rest, 2, sep) == seq![dc] + seq![dv]);
    assert(splitn_spec(rec, 3, sep) == seq![dl] + (seq![dc] + seq![dv]));
    assert(splitn_spec(rec, 3, sep) =~= seq![dl, dc, dv]);
}

proof fn lemma_split_levels(meshed: Seq<(usize, usize)>, head: Seq<char>, n: nat)
    requires
        forall|j: int| 0 <= j < head.len() ==> #[trigger] head[j] != record_sep(),
        n <= u32::MAX as nat + 1,
        meshed.len() <= usize::MAX,
        total_vertices(meshed) <= usize::MAX,
    ensures
        split_spec(head + levels_text(meshed, n), record_sep()) == seq![head] + level_records(meshed, n),
    decreases n,
{
    if n == 0 {
        assert(head + levels_text(meshed, 0) =~= head);
        lemma_split_single(head, record_sep());
    } else {
        let m = (n - 1) as nat;
        lemma_split_levels(meshed, head, m);
        lemma_vertices_bounded(meshed, m as int);
        let rec = level_record(m, chunks_at(meshed, m as int), vertices_at(meshed, m as int));
        lemma_level_record(m, chunks_at(meshed, m as int), vertices_at(meshed, m as int));
        assert(head + levels_text(meshed, n) =~= (head + levels_text(meshed, m)) + seq![record_sep()] + rec);
        lemma_split_append(head + levels_text(meshed, m), rec, record_sep());
        lemma_split_single(rec, record_sep());
        assert(seq![head] + level_records(meshed, n) =~= (seq![head] + level_records(meshed, m)) + seq![rec]);
    }
}

proof fn lemma_summary_first(head: Seq<char>, rest: Seq<Seq<char>>)
    requires
        head.len() > 0,
        index_of(head, field_sep()) < 0,
    ensures
        world_summary(seq![head] + rest) == Some(head),
    decreases rest.len(),
{
    let recs = seq![head] + rest;
    if rest.len() == 0 {
        assert(recs.drop_last() =~= Seq::<Seq<char>>::empty());
        assert(world_summary(recs.drop_last()) is None);
        assert(recs.last() == head);
    } else {
        lemma_summary_first(head, rest.drop_last());
        assert(recs.drop_last() =~= seq![head] + rest.drop_last());
        assert(world_summary(recs.drop_last()) == Some(head));
    }
}

proof fn lemma_lods(meshed: Seq<(usize, usize)>, head: Seq<char>, n: nat)
    requires
        index_of(head, field_sep()) < 0,
        n <= u32::MAX as nat + 1,
        meshed.len() <= usize::MAX,
        total_vertices(meshed) <= usize::MAX,
    ensures
        world_lods(seq![head] + level_records(meshed, n)) == levels_of(meshed, n),
    decreases n,
{
    let recs = seq![head] + level_records(meshed, n);
    if n == 0 {
        assert(recs.drop_last() =~= Seq::<Seq<char>>::empty());
        assert(recs.last() == head);
        assert(world_lods(recs.drop_last()) =~= Seq::<WorldLod>::empty());
        assert(levels_of(meshed, 0) =~= Seq::<WorldLod>::empty());
    } else {
        let m = (n - 1) as nat;
        lemma_lods(meshed, head, m);
        lemma_vertices_bounded(meshed, m as int);
        let rec = level_record(m, chunks_at(meshed, m as int), vertices_at(meshed, m as int));
        lemma_level_record(m, chunks_at(meshed, m as int), vertices_at(meshed, m as int));
        assert(recs.drop_last() =~= seq![head] + level_records(meshed, m));
        assert(recs.last() == rec);
    }
}

/// What the monitor decodes of the statistics body is what the engine encoded: the
/// summary, and every level `0..=max_lod` with its chunk and vertex counts.
pub proof fn law_world_stats_roundtrip(meshed: Seq<(usize, usize)>, max_lod: nat)
    requires
        max_lod <= u32::MAX,
        meshed.len() <= usize::MAX,
        total_vertices(meshed) <= usize::MAX,
    ensures
        world_summary(split_spec(world_stats_text(meshed, max_lod), record_sep())) == Some(
            summary_text(meshed.len(), total_vertices(meshed)),
        ),
        world_lods(split_spec(world_stats_text(meshed, max_lod), record_sep())) == levels_of(
            meshed,
            max_lod + 1,
        ),
{
    let head = summary_text(meshed.len(), total_vertices(meshed));
    lemma_summary_plain(meshed.len(), total_vertices(meshed));
    lemma_split_levels(meshed, head, max_lod + 1);
    lemma_index_of_exact(head, field_sep(), head.len() as int);
    lemma_summary_first(head, level_records(meshed, max_lod + 1));
    lemma_lods(meshed, head, max_lod + 1);
}

} // verus!
