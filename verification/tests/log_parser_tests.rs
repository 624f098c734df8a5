use dromon::log_parser::{
    parse, parse_log, parse_profile_nodes, parse_world_stats, tag_color, LogLine, ParsedMessage,
    Rgb, WorldLod,
};

fn cs(s: &str) -> Vec<char> {
    s.chars().collect()
}

#[test]
fn profile_nodes_in_one_pass() {
    let body = "0\u{1f}1500\u{1f}1\u{1f}Engine::new\u{1e}1\u{1f}300\u{1f}676\u{1f}mesh chunk\u{1f}x";
    let nodes = parse_profile_nodes(&cs(body));
    assert_eq!(nodes.len(), 2);
    assert_eq!((nodes[0].depth, nodes[0].dur_us, nodes[0].count), (0, 1500, 1));
    assert_eq!(nodes[0].name, "Engine::new");
    assert_eq!((nodes[1].depth, nodes[1].dur_us, nodes[1].count), (1, 300, 676));
    // The name is the rest of the record, unit separators included.
    assert_eq!(nodes[1].name, "mesh chunk\u{1f}x");
}

#[test]
fn malformed_profile_records_are_skipped() {
    let body = "\u{1e}x\u{1f}1\u{1f}1\u{1f}bad depth\u{1e}0\u{1f}1\u{1f}1\u{1e}2\u{1f}7\u{1f}3\u{1f}ok\u{1e}";
    let nodes = parse_profile_nodes(&cs(body));
    assert_eq!(nodes.len(), 1);
    assert_eq!(nodes[0].depth, 2);
    assert_eq!(nodes[0].name, "ok");
}

#[test]
fn tag_colours() {
    assert_eq!(tag_color(&cs("info")), Rgb { r: 0x56, g: 0x9C, b: 0xD6 });
    assert_eq!(tag_color(&cs("Warning")), Rgb { r: 0xFF, g: 0xC6, b: 0x6D });
    assert_eq!(tag_color(&cs("WARN")), Rgb { r: 0xFF, g: 0xC6, b: 0x6D });
    assert_eq!(tag_color(&cs("error")), Rgb { r: 0xFF, g: 0x45, b: 0x00 });
    assert_eq!(tag_color(&cs("Vulkan")), Rgb { r: 0xBD, g: 0x93, b: 0xF9 });
    assert_eq!(tag_color(&cs("other")), Rgb { r: 0xBF, g: 0xBD, b: 0xB6 });
}

#[test]
fn log_line_with_tag() {
    match parse_log(&cs("[ERROR] device lost")) {
        LogLine::Tagged { tag, color, rest } => {
            assert_eq!(tag, "ERROR");
            assert_eq!(color, Rgb { r: 0xFF, g: 0x45, b: 0x00 });
            assert_eq!(rest, " device lost");
        }
        LogLine::Plain(_) => panic!("expected a tagged line"),
    }
}

#[test]
fn log_line_without_closing_bracket_is_plain() {
    match parse_log(&cs("[oops no end")) {
        LogLine::Plain(s) => assert_eq!(s, "[oops no end"),
        LogLine::Tagged { .. } => panic!("expected a plain line"),
    }
    match parse_log(&cs("plain text")) {
        LogLine::Plain(s) => assert_eq!(s, "plain text"),
        LogLine::Tagged { .. } => panic!("expected a plain line"),
    }
}

#[test]
fn world_stats_body() {
    let body = "Terrain : 3 chunks, 70 sommets\u{1e}0\u{1f}2\u{1f}60\u{1e}1\u{1f}1\u{1f}10\u{1e}junk\u{1f}x";
    let w = parse_world_stats(&cs(body));
    assert_eq!(w.summary.as_deref(), Some("Terrain : 3 chunks, 70 sommets"));
    assert_eq!(
        w.lods,
        vec![
            WorldLod { lod: 0, chunks: 2, vertices: 60 },
            WorldLod { lod: 1, chunks: 1, vertices: 10 },
        ]
    );
}

#[test]
fn world_stats_without_summary() {
    let w = parse_world_stats(&cs("0\u{1f}1\u{1f}2"));
    assert!(w.summary.is_none());
    assert_eq!(w.lods, vec![WorldLod { lod: 0, chunks: 1, vertices: 2 }]);
}

#[test]
fn parse_routes_profile_messages() {
    match parse("[PROFILE_INIT] 0\u{1f}10\u{1f}1\u{1f}init".to_string()) {
        ParsedMessage::ProfileInit(n) => {
            assert_eq!(n.len(), 1);
            assert_eq!(n[0].name, "init");
        }
        _ => panic!("expected ProfileInit"),
    }
    match parse("[PROFILE_FRAME] 0\u{1f}10\u{1f}1\u{1f}frame".to_string()) {
        ParsedMessage::ProfileFrame(n) => assert_eq!(n[0].name, "frame"),
        _ => panic!("expected ProfileFrame"),
    }
    match parse("[PROFILE_GPU] 0\u{1f}10\u{1f}1\u{1f}gpu".to_string()) {
        ParsedMessage::ProfileGpu(n) => assert_eq!(n[0].name, "gpu"),
        _ => panic!("expected ProfileGpu"),
    }
}

#[test]
fn parse_fps_hands_back_trimmed_reading() {
    match parse("[FPS]  144.2 ".to_string()) {
        ParsedMessage::Fps(t) => assert_eq!(t, "144.2"),
        _ => panic!("expected Fps"),
    }
}

#[test]
fn parse_state_and_config() {
    match parse("[STATE] running ".to_string()) {
        ParsedMessage::State(s) => assert_eq!(s, "running"),
        _ => panic!("expected State"),
    }
    match parse("[CONFIG] mode=release profiling=enabled".to_string()) {
        ParsedMessage::Config { mode, profiling } => {
            assert_eq!(mode, "release");
            assert!(profiling);
        }
        _ => panic!("expected Config"),
    }
    match parse("[CONFIG] profiling=disabled".to_string()) {
        ParsedMessage::Config { mode, profiling } => {
            assert_eq!(mode, "");
            assert!(!profiling);
        }
        _ => panic!("expected Config"),
    }
}

#[test]
fn parse_world_and_logs() {
    match parse("[WORLD] Terrain : 0 chunks, 0 sommets".to_string()) {
        ParsedMessage::World(w) => {
            assert_eq!(w.summary.as_deref(), Some("Terrain : 0 chunks, 0 sommets"));
            assert!(w.lods.is_empty());
        }
        _ => panic!("expected World"),
    }
    match parse("[INFO] ready".to_string()) {
        ParsedMessage::Log(LogLine::Tagged { tag, rest, .. }) => {
            assert_eq!(tag, "INFO");
            assert_eq!(rest, " ready");
        }
        _ => panic!("expected a tagged log line"),
    }
    // A prefix without its space is not a message kind.
    match parse("[FPS]60".to_string()) {
        ParsedMessage::Log(LogLine::Tagged { tag, rest, .. }) => {
            assert_eq!(tag, "FPS");
            assert_eq!(rest, "60");
        }
        _ => panic!("expected a log line"),
    }
}
