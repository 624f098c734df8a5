//! State of the monitor: the banners (engine, configuration), the tab bar, and the
//! routing of each message received to the state of the tab it concerns.
use vstd::prelude::*;
use crate::log_parser::{log_line_of, parse, parse_log, parsed_as, LogLine, ParsedMessage};
use crate::tabs::logs::{pushed, LogsState};
use crate::tabs::profiling::tree::load_result;
use crate::tabs::profiling::{ProfBlock, ProfilingState};
use crate::tabs::world::WorldState;
use crate::text::to_chars;

verus! {

/// The tabs, in the order of the tab bar.
#[derive(Clone, Copy, PartialEq, Eq, Debug, Structural)]
pub enum Tab {
    Logs,
    Profiling,
    World,
}

/// Position of a tab in the tab bar.
pub open spec fn tab_index(t: Tab) -> nat {
    match t {
        Tab::Logs => 0,
        Tab::Profiling => 1,
        Tab::World => 2,
    }
}

/// The tab at position `i` of the tab bar.
pub open spec fn tab_at(i: nat) -> Tab {
    if i == 0 {
        Tab::Logs
    } else if i == 1 {
        Tab::Profiling
    } else {
        Tab::World
    }
}

/// The title of a tab.
pub open spec fn tab_title(t: Tab) -> Seq<char> {
    match t {
        Tab::Logs => seq!['l', 'o', 'g', 's'],
        Tab::Profiling => seq!['p', 'r', 'o', 'f', 'i', 'l', 'i', 'n', 'g'],
        Tab::World => seq!['w', 'o', 'r', 'l', 'd'],
    }
}

impl Tab {
    /// The tabs in display order; a tab's place here is its index.
    pub fn all() -> (r: [Tab; 3])
        ensures
            r@ == seq![Tab::Logs, Tab::Profiling, Tab::World],
    {
        let r = [Tab::Logs, Tab::Profiling, Tab::World];
        assert(r@ =~= seq![Tab::Logs, Tab::Profiling, Tab::World]);
        r
    }

    /// The title shown in the tab bar.
    pub fn title(self) -> (r: &'static str)
        ensures
            r@ == tab_title(self),
    {
        match self {
            Tab::Logs => {
                proof {
                    reveal_strlit("logs");
                }
                "logs"
            },
            Tab::Profiling => {
                proof {
                    reveal_strlit("profiling");
                }
                "profiling"
            },
            Tab::World => {
                proof {
                    reveal_strlit("world");
                }
                "world"
            },
        }
    }

    /// Position of the tab in the tab bar.
    pub fn index(self) -> (r: usize)
        ensures
            r == tab_index(self),
            Tab::all_spec()[r as int] == self,
    {
        let all = Tab::all();
        let mut i: usize = 0;
        while i < 3
            invariant
                i <= 3,
                all@ == Tab::all_spec(),
                forall|k: int| 0 <= k < i ==> all@[k] != self,
            decreases 3 - i,
        {
            if all[i] == self {
                return i;
            }
            i = i + 1;
        }
        0
    }

    pub open spec fn all_spec() -> Seq<Tab> {
        seq![Tab::Logs, Tab::Profiling, Tab::World]
    }
}

/// The keys the monitor reacts to.
#[derive(Clone, Copy, PartialEq, Eq, Debug, Structural)]
pub enum Key {
    Char(char),
    Esc,
    Left,
    Right,
    Up,
    Down,
    Home,
    End,
    PageUp,
    PageDown,
    Enter,
    Other,
}

/// What a key does.
#[derive(Clone, Copy, PartialEq, Eq, Debug, Structural)]
pub enum Command {
    Quit,
    PrevTab,
    NextTab,
    LogsUp,
    LogsDown,
    LogsTop,
    LogsBottom,
    TreeUp,
    TreeDown,
    TreeLeft,
    TreeRight,
    TreeToggle,
    BlockUp,
    BlockDown,
    BlockLeft,
    BlockRight,
    ToggleZoom,
    Nothing,
}

/// The command of `key` (with Ctrl held or not) while `tab` is shown: `q` and Esc quit,
/// Ctrl+←/→ change tab, the other keys belong to the tab. In the logs: ↑↓ scroll,
/// `g`/Home and `G`/End go to the top and the bottom. In the profiling tab: ↑↓ move in
/// the tree, ←→ fold and unfold, ⏎ or space toggle, fn+arrows (PageUp, PageDown, Home,
/// End) select the box above, below, on the left and on the right, `z` zooms.
pub open spec fn command_spec(tab: Tab, key: Key, ctrl: bool) -> Command {
    match key {
        Key::Char('q') | Key::Esc => Command::Quit,
        Key::Left if ctrl => Command::PrevTab,
        Key::Right if ctrl => Command::NextTab,
        _ => match tab {
            Tab::Logs => match key {
                Key::Up => Command::LogsUp,
                Key::Down => Command::LogsDown,
                Key::Char('g') | Key::Home => Command::LogsTop,
                Key::Char('G') | Key::End => Command::LogsBottom,
                _ => Command::Nothing,
            },
            Tab::Profiling => match key {
                Key::Up => Command::TreeUp,
                Key::Down => Command::TreeDown,
                Key::Left => Command::TreeLeft,
                Key::Right => Command::TreeRight,
                Key::Enter | Key::Char(' ') => Command::TreeToggle,
                Key::PageUp => Command::BlockUp,
                Key::PageDown => Command::BlockDown,
                Key::Home => Command::BlockLeft,
                Key::End => Command::BlockRight,
                Key::Char('z') => Command::ToggleZoom,
                _ => Command::Nothing,
            },
            Tab::World => Command::Nothing,
        },
    }
}

/// The command that goes the other way: up and down, left and right, top and bottom,
/// previous and next tab swap; the others have no direction.
pub open spec fn opposite(c: Command) -> Command {
    match c {
        Command::PrevTab => Command::NextTab,
        Command::NextTab => Command::PrevTab,
        Command::LogsUp => Command::LogsDown,
        Command::LogsDown => Command::LogsUp,
        Command::LogsTop => Command::LogsBottom,
        Command::LogsBottom => Command::LogsTop,
        Command::TreeUp => Command::TreeDown,
        Command::TreeDown => Command::TreeUp,
        Command::TreeLeft => Command::TreeRight,
        Command::TreeRight => Command::TreeLeft,
        Command::BlockUp => Command::BlockDown,
        Command::BlockDown => Command::BlockUp,
        Command::BlockLeft => Command::BlockRight,
        Command::BlockRight => Command::BlockLeft,
        _ => c,
    }
}

/// Keys of opposite directions give opposite commands, in every tab and with Ctrl held or
/// not: down undoes up, right undoes left, PageDown undoes PageUp, End undoes Home. The
/// vertical arrows move in the direction they point.
pub proof fn law_opposite_keys_give_opposite_commands(tab: Tab, ctrl: bool)
    ensures
        command_spec(tab, Key::Down, ctrl) == opposite(command_spec(tab, Key::Up, ctrl)),
        command_spec(tab, Key::Right, ctrl) == opposite(command_spec(tab, Key::Left, ctrl)),
        command_spec(tab, Key::PageDown, ctrl) == opposite(command_spec(tab, Key::PageUp, ctrl)),
        command_spec(tab, Key::End, ctrl) == opposite(command_spec(tab, Key::Home, ctrl)),
        tab == Tab::Profiling ==> command_spec(tab, Key::Down, ctrl) == Command::TreeDown,
        tab == Tab::Logs ==> command_spec(tab, Key::Down, ctrl) == Command::LogsDown,
{
}

/// The command of a key press.
pub fn command_for(tab: Tab, key: Key, ctrl: bool) -> (r: Command)
    ensures
        r == command_spec(tab, key, ctrl),
        key == Key::Esc || key == Key::Char('q') ==> r == Command::Quit,
        ctrl && key == Key::Left ==> r == Command::PrevTab,
        ctrl && key == Key::Right ==> r == Command::NextTab,
        tab == Tab::Logs ==> {
            &&& key == Key::Up ==> r == Command::LogsUp
            &&& key == Key::Down ==> r == Command::LogsDown
            &&& key == Key::Home || key == Key::Char('g') ==> r == Command::LogsTop
            &&& key == Key::End || key == Key::Char('G') ==> r == Command::LogsBottom
        },
        tab == Tab::Profiling ==> {
            &&& key == Key::Up ==> r == Command::TreeUp
            &&& key == Key::Down ==> r == Command::TreeDown
            &&& !ctrl && key == Key::Left ==> r == Command::TreeLeft
            &&& !ctrl && key == Key::Right ==> r == Command::TreeRight
            &&& key == Key::Enter || key == Key::Char(' ') ==> r == Command::TreeToggle
            &&& key == Key::PageUp ==> r == Command::BlockUp
            &&& key == Key::PageDown ==> r == Command::BlockDown
            &&& key == Key::Home ==> r == Command::BlockLeft
            &&& key == Key::End ==> r == Command::BlockRight
            &&& key == Key::Char('z') ==> r == Command::ToggleZoom
        },
        tab == Tab::World && r != Command::Quit && r != Command::PrevTab && r != Command::NextTab
            ==> r == Command::Nothing,
{
    match key {
        Key::Char('q') | Key::Esc => Command::Quit,
        Key::Left if ctrl => Command::PrevTab,
        Key::Right if ctrl => Command::NextTab,
        _ => match tab {
            Tab::Logs => match key {
                Key::Up => Command::LogsUp,
                Key::Down => Command::LogsDown,
                Key::Char('g') | Key::Home => Command::LogsTop,
                Key::Char('G') | Key::End => Command::LogsBottom,
                _ => Command::Nothing,
            },
            Tab::Profiling => match key {
                Key::Up => Command::TreeUp,
                Key::Down => Command::TreeDown,
                Key::Left => Command::TreeLeft,
                Key::Right => Command::TreeRight,
                Key::Enter | Key::Char(' ') => Command::TreeToggle,
                Key::PageUp => Command::BlockUp,
                Key::PageDown => Command::BlockDown,
                Key::Home => Command::BlockLeft,
                Key::End => Command::BlockRight,
                Key::Char('z') => Command::ToggleZoom,
                _ => Command::Nothing,
            },
            Tab::World => Command::Nothing,
        },
    }
}

/// State of the monitor, but for the frame rate, a float the caller keeps (see
/// [`AppState::push`]).
pub struct AppState {
    /// The engine's state, for the top banner.
    pub state: Option<String>,
    /// The build configuration, for the configuration banner.
    pub config_mode: Option<String>,
    pub config_profiling: Option<bool>,
    /// The tab shown.
    pub active_tab: Tab,
    /// The state of each tab.
    pub logs: LogsState,
    pub profiling: ProfilingState,
    pub world: WorldState,
}

/// `b` is `a` after `m` was routed to the state it concerns; `r` is what the caller
/// gets back: the frame-rate reading of an `Fps` message, nothing otherwise.
pub open spec fn applied(a: AppState, b: AppState, m: ParsedMessage, r: Option<String>) -> bool {
    &&& b.active_tab == a.active_tab
    &&& match m {
        ParsedMessage::Log(line) => {
            &&& pushed(a.logs, b.logs, line)
            &&& b.state == a.state && b.config_mode == a.config_mode
            &&& b.config_profiling == a.config_profiling
            &&& b.profiling == a.profiling && b.world == a.world
            &&& r is None
        },
        ParsedMessage::Fps(t) => {
            &&& b.logs == a.logs && b.state == a.state && b.config_mode == a.config_mode
            &&& b.config_profiling == a.config_profiling
            &&& b.profiling == a.profiling && b.world == a.world
            &&& r == Some(t)
        },
        ParsedMessage::State(s) => {
            &&& b.state == Some(s)
            &&& b.logs == a.logs && b.config_mode == a.config_mode
            &&& b.config_profiling == a.config_profiling
            &&& b.profiling == a.profiling && b.world == a.world
            &&& r is None
        },
        ParsedMessage::Config { mode, profiling } => {
            &&& b.config_mode == Some(mode) && b.config_profiling == Some(profiling)
            &&& b.logs == a.logs && b.state == a.state
            &&& b.profiling == a.profiling && b.world == a.world
            &&& r is None
        },
        ParsedMessage::ProfileInit(n) => {
            &&& a.profiling.same_but(b.profiling, ProfBlock::Initialize)
            &&& load_result(a.profiling.spec_initialize(), b.profiling.spec_initialize(), n@)
            &&& b.logs == a.logs && b.state == a.state && b.config_mode == a.config_mode
            &&& b.config_profiling == a.config_profiling && b.world == a.world
            &&& r is None
        },
        ParsedMessage::ProfileFrame(n) => {
            &&& a.profiling.same_but(b.profiling, ProfBlock::Frame)
            &&& load_result(a.profiling.spec_frame(), b.profiling.spec_frame(), n@)
            &&& b.logs == a.logs && b.state == a.state && b.config_mode == a.config_mode
            &&& b.config_profiling == a.config_profiling && b.world == a.world
            &&& r is None
        },
        ParsedMessage::ProfileGpu(n) => {
            &&& a.profiling.same_but(b.profiling, ProfBlock::Gpu)
            &&& load_result(a.profiling.spec_gpu(), b.profiling.spec_gpu(), n@)
            &&& b.logs == a.logs && b.state == a.state && b.config_mode == a.config_mode
            &&& b.config_profiling == a.config_profiling && b.world == a.world
            &&& r is None
        },
        ParsedMessage::World(w) => {
            &&& b.world.summary == w.summary && b.world.lods@ == w.lods@
            &&& b.logs == a.logs && b.state == a.state && b.config_mode == a.config_mode
            &&& b.config_profiling == a.config_profiling && b.profiling == a.profiling
            &&& r is None
        },
    }
}

impl AppState {
    pub open spec fn wf(&self) -> bool {
        &&& self.logs.wf()
        &&& self.profiling.wf()
    }

    /// Nothing received yet, the logs tab shown.
    pub fn new() -> (r: AppState)
        ensures
            r.wf(),
            r.state is None,
            r.config_mode is None,
            r.config_profiling is None,
            r.active_tab == Tab::Logs,
            r.logs.spec_lines().len() == 0,
            r.logs.spec_offset() == 0,
            r.logs.spec_auto_scroll(),
            r.logs.spec_viewport_height() == 1,
            r.profiling.spec_selected() == ProfBlock::Initialize,
            !r.profiling.spec_zoomed(),
            r.profiling.spec_initialize().spec_nodes().len() == 0,
            r.profiling.spec_frame().spec_nodes().len() == 0,
            r.profiling.spec_gpu().spec_nodes().len() == 0,
            r.world.summary is None,
            r.world.lods@.len() == 0,
    {
        AppState {
            state: None,
            config_mode: None,
            config_profiling: None,
            active_tab: Tab::Logs,
            logs: LogsState::new(),
            profiling: ProfilingState::new(),
            world: WorldState::new(),
        }
    }

    /// The next tab, from the last back to the first.
    pub fn next_tab(&mut self)
        ensures
            final(self).active_tab == tab_at(((tab_index(old(self).active_tab) + 1) % 3) as nat),
            final(self).logs == old(self).logs,
            final(self).profiling == old(self).profiling,
            final(self).world == old(self).world,
            final(self).state == old(self).state,
            final(self).config_mode == old(self).config_mode,
            final(self).config_profiling == old(self).config_profiling,
    {
        let next = (self.active_tab.index() + 1) % 3;
        self.active_tab = Tab::all()[next];
    }

    /// The previous tab, from the first back to the last.
    pub fn prev_tab(&mut self)
        ensures
            final(self).active_tab == tab_at(((tab_index(old(self).active_tab) + 2) % 3) as nat),
            final(self).logs == old(self).logs,
            final(self).profiling == old(self).profiling,
            final(self).world == old(self).world,
            final(self).state == old(self).state,
            final(self).config_mode == old(self).config_mode,
            final(self).config_profiling == old(self).config_profiling,
    {
        let i = self.active_tab.index();
        let prev = (i + 3 - 1) % 3;
        self.active_tab = Tab::all()[prev];
    }

    /// Routes a decoded message to the state it concerns. A frame-rate reading is
    /// handed back as sent: it is a float, which the caller reads and keeps.
    pub fn apply(&mut self, msg: ParsedMessage) -> (r: Option<String>)
        requires
            old(self).wf(),
        ensures
            final(self).wf(),
            applied(*old(self), *final(self), msg, r),
    {
        match msg {
            ParsedMessage::Log(line) => {
                self.logs.push_line(line);
                None
            },
            ParsedMessage::Fps(reading) => Some(reading),
            ParsedMessage::State(s) => {
                self.state = Some(s);
                None
            },
            ParsedMessage::Config { mode, profiling } => {
                self.config_mode = Some(mode);
                self.config_profiling = Some(profiling);
                None
            },
            ParsedMessage::ProfileInit(nodes) => {
                self.profiling.load_init(nodes);
                None
            },
            ParsedMessage::ProfileFrame(nodes) => {
                self.profiling.load_frame(nodes);
                None
            },
            ParsedMessage::ProfileGpu(nodes) => {
                self.profiling.load_gpu(nodes);
                None
            },
            ParsedMessage::World(stats) => {
                self.world.load(stats);
                None
            },
        }
    }

    /// Decodes a message from the engine and routes it. For an `[FPS] ` message the
    /// reading comes back, and the state is unchanged: a reading that is a float is the
    /// new frame rate; one that is not makes the message a log line, which the caller
    /// adds with [`AppState::push_log`].
    pub fn push(&mut self, msg: String) -> (r: Option<String>)
        requires
            old(self).wf(),
        ensures
            final(self).wf(),
            exists|m: ParsedMessage| parsed_as(m, msg@) && applied(*old(self), *final(self), m, r),
    {
        let m = parse(msg);
        let ghost gm = m;
        let r = self.apply(m);
        assert(parsed_as(gm, msg@) && applied(*old(self), *self, gm, r));
        r
    }

    /// Adds the raw line `raw` to the logs, as a log line.
    pub fn push_log(&mut self, raw: String)
        requires
            old(self).wf(),
        ensures
            final(self).wf(),
            exists|line: LogLine| log_line_of(line, raw@) && pushed(old(self).logs, final(self).logs, line),
            final(self).active_tab == old(self).active_tab,
            final(self).profiling == old(self).profiling,
            final(self).world == old(self).world,
            final(self).state == old(self).state,
            final(self).config_mode == old(self).config_mode,
            final(self).config_profiling == old(self).config_profiling,
    {
        let cs = to_chars(raw.as_str());
        let line = parse_log(cs.as_slice());
        let ghost gl = line;
        self.logs.push_line(line);
        assert(log_line_of(gl, raw@) && pushed(old(self).logs, self.logs, gl));
    }
}

/// Going to the next tab then to the previous one comes back to the tab shown, and
/// the other way round.
pub proof fn law_next_prev_tab(t: Tab)
    ensures
        tab_at(((tab_index(tab_at(((tab_index(t) + 1) % 3) as nat)) + 2) % 3) as nat) == t,
        tab_at(((tab_index(tab_at(((tab_index(t) + 2) % 3) as nat)) + 1) % 3) as nat) == t,
{
}

/// Three steps to the next tab come back to the tab shown.
pub proof fn law_next_tab_cycles(t: Tab)
    ensures
        tab_at(
            ((tab_index(
                tab_at(((tab_index(tab_at(((tab_index(t) + 1) % 3) as nat)) + 1) % 3) as nat),
            ) + 1) % 3) as nat,
        ) == t,
{
}

} // verus!
