use dromon::app_state::{command_for, AppState, Command, Key, Tab};
use dromon::log_parser::LogLine;
use dromon::tabs::logs::LogsState;
use dromon::tabs::profiling::ProfBlock;

#[test]
fn tab_titles_and_order() {
    assert_eq!(Tab::all(), [Tab::Logs, Tab::Profiling, Tab::World]);
    assert_eq!(Tab::Logs.title(), "logs");
    assert_eq!(Tab::Profiling.title(), "profiling");
    assert_eq!(Tab::World.title(), "world");
    assert_eq!(Tab::Logs.index(), 0);
    assert_eq!(Tab::Profiling.index(), 1);
    assert_eq!(Tab::World.index(), 2);
}

#[test]
fn tabs_cycle_both_ways() {
    let mut s = AppState::new();
    assert_eq!(s.active_tab, Tab::Logs);
    s.next_tab();
    assert_eq!(s.active_tab, Tab::Profiling);
    s.next_tab();
    assert_eq!(s.active_tab, Tab::World);
    s.next_tab();
    assert_eq!(s.active_tab, Tab::Logs);
    s.prev_tab();
    assert_eq!(s.active_tab, Tab::World);
    s.next_tab();
    assert_eq!(s.active_tab, Tab::Logs);
}

#[test]
fn messages_are_routed() {
    let mut s = AppState::new();
    assert_eq!(s.push("[STATE] running".to_string()), None);
    assert_eq!(s.state.as_deref(), Some("running"));
    assert_eq!(s.push("[CONFIG] mode=debug profiling=enabled".to_string()), None);
    assert_eq!(s.config_mode.as_deref(), Some("debug"));
    assert_eq!(s.config_profiling, Some(true));
    assert_eq!(s.push("[FPS] 59.9".to_string()), Some("59.9".to_string()));
    assert!(s.logs.lines().is_empty());
    assert_eq!(s.push("[INFO] hello".to_string()), None);
    assert_eq!(s.logs.lines().len(), 1);
    assert_eq!(s.push("[PROFILE_INIT] 0\u{1f}5\u{1f}1\u{1f}init".to_string()), None);
    assert_eq!(s.profiling.tree(ProfBlock::Initialize).len(), 1);
    assert_eq!(s.profiling.tree(ProfBlock::Frame).len(), 0);
    assert_eq!(s.push("[PROFILE_FRAME] 0\u{1f}5\u{1f}1\u{1f}f\u{1e}1\u{1f}2\u{1f}1\u{1f}g".to_string()), None);
    assert_eq!(s.profiling.tree(ProfBlock::Frame).len(), 2);
    assert_eq!(s.push("[PROFILE_GPU] 0\u{1f}5\u{1f}1\u{1f}pass".to_string()), None);
    assert_eq!(s.profiling.tree(ProfBlock::Gpu).len(), 1);
    assert_eq!(s.push("[WORLD] Terrain : 1 chunks, 9 sommets\u{1e}0\u{1f}1\u{1f}9".to_string()), None);
    assert_eq!(s.world.summary.as_deref(), Some("Terrain : 1 chunks, 9 sommets"));
    assert_eq!(s.world.lods.len(), 1);
    assert_eq!(s.active_tab, Tab::Logs);
}

#[test]
fn unreadable_fps_becomes_a_log_line() {
    let mut s = AppState::new();
    let raw = "[FPS] n/a".to_string();
    let reading = s.push(raw.clone());
    assert_eq!(reading.as_deref(), Some("n/a"));
    s.push_log(raw);
    assert_eq!(s.logs.lines().len(), 1);
    match &s.logs.lines()[0] {
        LogLine::Tagged { tag, rest, .. } => {
            assert_eq!(tag, "FPS");
            assert_eq!(rest, " n/a");
        }
        LogLine::Plain(_) => panic!("expected a tagged line"),
    }
}

fn plain(s: &str) -> LogLine {
    LogLine::Plain(s.to_string())
}

#[test]
fn logs_follow_the_bottom() {
    let mut l = LogsState::new();
    l.set_area_height(5); // 3 lines visible
    for i in 0..5 {
        l.push_line(plain(&i.to_string()));
    }
    assert!(l.auto_scroll());
    assert_eq!(l.bottom_offset(), 2);
    assert_eq!(l.offset(), 2);
    l.scroll_up();
    assert!(!l.auto_scroll());
    assert_eq!(l.offset(), 1);
    l.push_line(plain("5"));
    assert_eq!(l.offset(), 1);
    l.scroll_down();
    assert_eq!(l.offset(), 2);
    assert!(!l.auto_scroll());
    l.scroll_down();
    assert_eq!(l.offset(), 3);
    assert!(l.auto_scroll());
    l.go_to_top();
    assert_eq!(l.offset(), 0);
    assert!(!l.auto_scroll());
    l.go_to_bottom();
    assert_eq!(l.offset(), 3);
    assert!(l.auto_scroll());
}

#[test]
fn scroll_up_then_down_at_bottom_is_identity() {
    let mut l = LogsState::new();
    l.set_area_height(4);
    for i in 0..10 {
        l.push_line(plain(&i.to_string()));
    }
    let before = l.offset();
    l.scroll_up();
    l.scroll_down();
    assert_eq!(l.offset(), before);
    assert!(l.auto_scroll());
}

#[test]
fn small_area_keeps_one_line() {
    let mut l = LogsState::new();
    l.set_area_height(0);
    l.push_line(plain("a"));
    l.push_line(plain("b"));
    assert_eq!(l.offset(), 1);
    l.set_area_height(3);
    assert_eq!(l.offset(), 1);
    l.set_area_height(10);
    assert_eq!(l.offset(), 0);
    l.scroll_up();
    assert_eq!(l.offset(), 0);
}

#[test]
fn key_commands() {
    assert_eq!(command_for(Tab::Logs, Key::Char('q'), false), Command::Quit);
    assert_eq!(command_for(Tab::World, Key::Esc, true), Command::Quit);
    assert_eq!(command_for(Tab::Profiling, Key::Left, true), Command::PrevTab);
    assert_eq!(command_for(Tab::Logs, Key::Right, true), Command::NextTab);
    assert_eq!(command_for(Tab::Logs, Key::Up, false), Command::LogsUp);
    assert_eq!(command_for(Tab::Logs, Key::Down, false), Command::LogsDown);
    assert_eq!(command_for(Tab::Logs, Key::Char('g'), false), Command::LogsTop);
    assert_eq!(command_for(Tab::Logs, Key::End, false), Command::LogsBottom);
    assert_eq!(command_for(Tab::Logs, Key::Left, false), Command::Nothing);
    assert_eq!(command_for(Tab::Profiling, Key::Up, false), Command::TreeUp);
    assert_eq!(command_for(Tab::Profiling, Key::Left, false), Command::TreeLeft);
    assert_eq!(command_for(Tab::Profiling, Key::Enter, false), Command::TreeToggle);
    assert_eq!(command_for(Tab::Profiling, Key::Char(' '), false), Command::TreeToggle);
    assert_eq!(command_for(Tab::Profiling, Key::PageUp, false), Command::BlockUp);
    assert_eq!(command_for(Tab::Profiling, Key::PageDown, false), Command::BlockDown);
    assert_eq!(command_for(Tab::Profiling, Key::Home, false), Command::BlockLeft);
    assert_eq!(command_for(Tab::Profiling, Key::End, false), Command::BlockRight);
    assert_eq!(command_for(Tab::Profiling, Key::Char('z'), false), Command::ToggleZoom);
    assert_eq!(command_for(Tab::World, Key::Up, false), Command::Nothing);
}
