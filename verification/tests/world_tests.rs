use dromon::log_parser::{parse_world_stats, WorldLod, WorldStats};
use dromon::tabs::world::{average_per_chunk, fmt_int, lod_row, lods_bar_cells, row, WorldState};
use dromon::world_stats::world_stats_body;

#[test]
fn thousands_are_grouped() {
    assert_eq!(fmt_int(0), "0");
    assert_eq!(fmt_int(999), "999");
    assert_eq!(fmt_int(1000), "1 000");
    assert_eq!(fmt_int(1234567), "1 234 567");
    assert_eq!(fmt_int(usize::MAX), "18 446 744 073 709 551 615");
}

#[test]
fn table_row_widths() {
    let r = row("LOD", "pas", "chunks", "somm./chunk", "sommets");
    assert_eq!(r, "  LOD    pas      chunks     somm./chunk         sommets");
    assert_eq!(row("LOD10", "1024", "1 234", "5", "6 170").chars().count(), 2 + 6 + 4 + 12 + 16 + 16);
    // Wider values are kept whole.
    assert_eq!(row("LOD1234", "", "", "", ""), format!("  LOD1234{}", " ".repeat(4 + 12 + 16 + 16)));
}

#[test]
fn level_rows() {
    let l = WorldLod { lod: 2, chunks: 1200, vertices: 2_500_000 };
    assert_eq!(lod_row(&l), row("LOD2", "4", "1 200", "2 083", "2 500 000"));
    let empty = WorldLod { lod: 0, chunks: 0, vertices: 0 };
    assert_eq!(lod_row(&empty), row("LOD0", "1", "0", "0", "0"));
    let high = WorldLod { lod: 31, chunks: 1, vertices: 1 };
    assert_eq!(lod_row(&high), row("LOD31", "2147483648", "1", "1", "1"));
}

#[test]
fn averages_and_bars() {
    assert_eq!(average_per_chunk(10, 3), 3);
    assert_eq!(average_per_chunk(10, 0), 0);
    assert_eq!(lods_bar_cells(69), 0);
    assert_eq!(lods_bar_cells(70), 8);
    assert_eq!(lods_bar_cells(100), 25);
    assert_eq!(lods_bar_cells(200), 32);
}

#[test]
fn world_state_totals() {
    let mut w = WorldState::new();
    assert!(w.summary.is_none());
    assert_eq!(w.total_chunks(), 0);
    w.load(WorldStats {
        summary: Some("s".to_string()),
        lods: vec![
            WorldLod { lod: 0, chunks: 2, vertices: 60 },
            WorldLod { lod: 1, chunks: 3, vertices: 15 },
        ],
    });
    assert!(w.totals_fit());
    assert_eq!(w.total_chunks(), 5);
    assert_eq!(w.total_vertices(), 75);
    // A new batch replaces the former one.
    w.load(WorldStats { summary: None, lods: vec![] });
    assert!(w.summary.is_none());
    assert_eq!(w.total_vertices(), 0);
}

#[test]
fn totals_that_overflow_are_reported() {
    let w = WorldState {
        summary: None,
        lods: vec![
            WorldLod { lod: 0, chunks: usize::MAX, vertices: 1 },
            WorldLod { lod: 1, chunks: 1, vertices: 1 },
        ],
    };
    assert!(!w.totals_fit());
}

#[test]
fn stats_body_format() {
    let body = world_stats_body(&vec![(0, 40), (1, 10), (0, 20)], 2);
    assert_eq!(
        body,
        "Terrain : 3 chunks, 70 sommets\u{1e}0\u{1f}2\u{1f}60\u{1e}1\u{1f}1\u{1f}10\u{1e}2\u{1f}0\u{1f}0"
    );
}

#[test]
fn stats_body_decodes_to_what_was_encoded() {
    let meshed = vec![(0, 1234), (2, 7), (2, 9), (1, 100), (0, 0)];
    let body = world_stats_body(&meshed, 3);
    let chars: Vec<char> = body.chars().collect();
    let w = parse_world_stats(&chars);
    assert_eq!(w.summary.as_deref(), Some("Terrain : 5 chunks, 1350 sommets"));
    assert_eq!(
        w.lods,
        vec![
            WorldLod { lod: 0, chunks: 2, vertices: 1234 },
            WorldLod { lod: 1, chunks: 1, vertices: 100 },
            WorldLod { lod: 2, chunks: 2, vertices: 16 },
            WorldLod { lod: 3, chunks: 0, vertices: 0 },
        ]
    );
}

#[test]
fn stats_body_without_chunks() {
    let body = world_stats_body(&vec![], 0);
    assert_eq!(body, "Terrain : 0 chunks, 0 sommets\u{1e}0\u{1f}0\u{1f}0");
}
