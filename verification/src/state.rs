//! The menu state machine.
//!
//! The application state is the active menu entry, the player record and a
//! running flag.  Key presses and ticks drive it through [`App::handle_event`],
//! whose whole behaviour is given by the spec functions [`step`] and
//! [`step_action`].

use vstd::prelude::*;
use crate::player::{PlayerData, RecordView};

verus! {

/// The active view of the menu.
#[derive(Clone, Copy, PartialEq, Eq, Structural, Debug)]
pub enum MenuItem {
    Home,
    Pray,
    Save,
}

/// The tab index of each menu entry, in the order the menu lists them.
pub open spec fn menu_index(m: MenuItem) -> usize {
    match m {
        MenuItem::Home => 0,
        MenuItem::Pray => 1,
        MenuItem::Save => 2,
    }
}

impl From<MenuItem> for usize {
    fn from(value: MenuItem) -> usize {
        match value {
            MenuItem::Home => 0,
            MenuItem::Pray => 1,
            MenuItem::Save => 2,
        }
    }
}

impl vstd::std_specs::convert::FromSpecImpl<MenuItem> for usize {
    open spec fn obeys_from_spec() -> bool {
        true
    }

    open spec fn from_spec(v: MenuItem) -> usize {
        menu_index(v)
    }
}

/// A key press as the state machine sees it: a character key, or any other
/// key, which never changes the state.
#[derive(Clone, Copy, PartialEq, Eq, Structural, Debug)]
pub enum KeyInput {
    Char(char),
    Other,
}

/// One event from the input producer: a decoded key press, or the periodic
/// heartbeat.
#[derive(Clone, Copy, PartialEq, Eq, Structural, Debug)]
pub enum AppEvent {
    Input(KeyInput),
    Tick,
}

/// What the surrounding loop must do after an event has been applied.
#[derive(Clone, Copy, PartialEq, Eq, Structural, Debug)]
pub enum Action {
    /// Render the state again and wait for the next event.
    Continue,
    /// Write the current record to the save file, then continue.
    Save,
    /// Leave the loop and restore the terminal.
    Quit,
}

/// Mathematical model of the whole application state.
pub ghost struct AppState {
    pub selection: MenuItem,
    pub record: RecordView,
    pub running: bool,
}

/// The counter after one pray: one more, except that it saturates at the top
/// of the counter's range instead of overflowing.
pub open spec fn bump(p: u32) -> u32 {
    if p < u32::MAX {
        (p + 1) as u32
    } else {
        p
    }
}

/// The state after one event.  A stopped machine ignores every event; ticks
/// and unknown keys change nothing; `q` stops the machine; `h`, `p` and `s`
/// select a menu entry; space prays when the pray view is selected.
pub open spec fn step(s: AppState, e: AppEvent) -> AppState {
    if !s.running {
        s
    } else {
        match e {
            AppEvent::Tick => s,
            AppEvent::Input(KeyInput::Other) => s,
            AppEvent::Input(KeyInput::Char(c)) => if c == 'q' {
                AppState { running: false, ..s }
            } else if c == 'h' {
                AppState { selection: MenuItem::Home, ..s }
            } else if c == 'p' {
                AppState { selection: MenuItem::Pray, ..s }
            } else if c == 's' {
                AppState { selection: MenuItem::Save, ..s }
            } else if c == ' ' && s.selection == MenuItem::Pray {
                AppState { record: RecordView { prays: bump(s.record.prays), ..s.record }, ..s }
            } else {
                s
            },
        }
    }
}

/// The action an event asks of the surrounding loop: quitting on `q`, saving
/// on space in the save view, and nothing otherwise.
pub open spec fn step_action(s: AppState, e: AppEvent) -> Action {
    if !s.running {
        Action::Continue
    } else {
        match e {
            AppEvent::Tick => Action::Continue,
            AppEvent::Input(KeyInput::Other) => Action::Continue,
            AppEvent::Input(KeyInput::Char(c)) => if c == 'q' {
                Action::Quit
            } else if c == ' ' && s.selection == MenuItem::Save {
                Action::Save
            } else {
                Action::Continue
            },
        }
    }
}

/// The state after a whole sequence of events, first event first.
pub open spec fn run_events(s: AppState, es: Seq<AppEvent>) -> AppState
    decreases es.len(),
{
    if es.len() == 0 {
        s
    } else {
        run_events(step(s, es[0]), es.drop_first())
    }
}

/// The in-memory application state: the selected menu entry, the player
/// record, and whether the loop is still running.
pub struct App {
    pub selection: MenuItem,
    pub data: PlayerData,
    pub running: bool,
}

impl View for App {
    type V = AppState;

    open spec fn view(&self) -> AppState {
        AppState { selection: self.selection, record: self.data@, running: self.running }
    }
}

impl App {
    /// The initial state: the home view selected, the given record, running.
    pub fn new(data: PlayerData) -> (a: App)
        ensures
            a@ == (AppState { selection: MenuItem::Home, record: data@, running: true }),
    {
        App { selection: MenuItem::Home, data, running: true }
    }

    /// Applies one event and reports what the surrounding loop must do,
    /// exactly as [`step`] and [`step_action`] say.
    pub fn handle_event(&mut self, e: AppEvent) -> (act: Action)
        ensures
            final(self)@ == step(old(self)@, e),
            act == step_action(old(self)@, e),
    {
        if !self.running {
            return Action::Continue;
        }
        match e {
            AppEvent::Tick => Action::Continue,
            AppEvent::Input(KeyInput::Other) => Action::Continue,
            AppEvent::Input(KeyInput::Char(c)) => {
                if c == 'q' {
                    self.running = false;
                    Action::Quit
                } else if c == 'h' {
                    self.selection = MenuItem::Home;
                    Action::Continue
                } else if c == 'p' {
                    self.selection = MenuItem::Pray;
                    Action::Continue
                } else if c == ' ' && self.selection == MenuItem::Pray {
                    if self.data.prays < u32::MAX {
                        self.data.prays = self.data.prays + 1;
                    }
                    Action::Continue
                } else if c == 's' {
                    self.selection = MenuItem::Save;
                    Action::Continue
                } else if c == ' ' && self.selection == MenuItem::Save {
                    Action::Save
                } else {
                    Action::Continue
                }
            },
        }
    }
}

/// The sequence of events sent by pressing space `n` times.
pub open spec fn space_presses(n: nat) -> Seq<AppEvent> {
    Seq::new(n, |i: int| AppEvent::Input(KeyInput::Char(' ')))
}

/// Law: with the pray view selected, a sequence of `n` space presses adds
/// exactly `n` to the counter and changes nothing else, as long as the
/// counter stays within its range.
pub proof fn lemma_pray_presses_add(s: AppState, n: nat)
    requires
        s.running,
        s.selection == MenuItem::Pray,
        s.record.prays + n <= u32::MAX,
    ensures
        run_events(s, space_presses(n)) == (AppState {
            selection: MenuItem::Pray,
            record: RecordView { name: s.record.name, prays: (s.record.prays + n) as u32 },
            running: true,
        }),
    decreases n,
{
    if n == 0 {
        assert(space_presses(0).len() == 0);
        assert(run_events(s, space_presses(0)) == s);
        assert(s == (AppState {
            selection: MenuItem::Pray,
            record: RecordView { name: s.record.name, prays: (s.record.prays + 0) as u32 },
            running: true,
        }));
    } else {
        let es = space_presses(n);
        let s1 = step(s, es[0]);
        assert(s1 == (AppState {
            selection: MenuItem::Pray,
            record: RecordView { name: s.record.name, prays: (s.record.prays + 1) as u32 },
            running: true,
        }));
        assert(es.drop_first() =~= space_presses((n - 1) as nat));
        lemma_pray_presses_add(s1, (n - 1) as nat);
    }
}

/// Law: any sequence of events that holds no space press leaves the record
/// untouched, whatever menu switches, unknown keys, ticks or a quit it holds.
pub proof fn lemma_no_space_preserves_record(s: AppState, es: Seq<AppEvent>)
    requires
        forall|i: int| 0 <= i < es.len() ==> es[i] != AppEvent::Input(KeyInput::Char(' ')),
    ensures
        run_events(s, es).record == s.record,
    decreases es.len(),
{
    if es.len() > 0 {
        let s1 = step(s, es[0]);
        assert(s1.record == s.record);
        lemma_no_space_preserves_record(s1, es.drop_first());
    }
}

/// Law: from every running state, one `q` press stops the machine and leaves
/// the record and the selection as they were.
pub proof fn lemma_quit_reachable(s: AppState)
    requires
        s.running,
    ensures
        step(s, AppEvent::Input(KeyInput::Char('q'))) == (AppState {
            selection: s.selection,
            record: s.record,
            running: false,
        }),
        step_action(s, AppEvent::Input(KeyInput::Char('q'))) == Action::Quit,
{
}

/// Law: once the machine has stopped, no sequence of events changes the
/// state any further.
pub proof fn lemma_quit_is_final(s: AppState, es: Seq<AppEvent>)
    requires
        !s.running,
    ensures
        run_events(s, es) == s,
    decreases es.len(),
{
    if es.len() > 0 {
        assert(step(s, es[0]) == s);
        lemma_quit_is_final(s, es.drop_first());
    }
}

} // verus!
