use totem_of_ket::player::PlayerData;
use totem_of_ket::state::{Action, App, AppEvent, KeyInput, MenuItem};

fn key(c: char) -> AppEvent {
    AppEvent::Input(KeyInput::Char(c))
}

#[test]
fn pray_presses_add_to_counter() {
    let mut app = App::new(PlayerData::default());
    assert_eq!(app.handle_event(key('p')), Action::Continue);
    assert_eq!(app.selection, MenuItem::Pray);
    for expected in 1..=5u32 {
        assert_eq!(app.handle_event(key(' ')), Action::Continue);
        assert_eq!(app.data.prays, expected);
    }
    assert_eq!(app.data.name, "Player");
    assert!(app.running);
}

#[test]
fn zero_pray_presses_change_nothing() {
    let mut app = App::new(PlayerData::new(String::from("Keeper"), 11));
    app.handle_event(key('p'));
    assert_eq!(app.data.prays, 11);
    assert_eq!(app.data.name, "Keeper");
}

#[test]
fn menu_switching_keeps_record() {
    let mut app = App::new(PlayerData::new(String::from("Alice"), 7));
    for c in ['h', 'p', 's', 'p', 'h', 's', 'h'] {
        app.handle_event(key(c));
    }
    assert_eq!(app.data.name, "Alice");
    assert_eq!(app.data.prays, 7);
}

#[test]
fn selection_follows_keys() {
    let mut app = App::new(PlayerData::default());
    app.handle_event(key('p'));
    assert_eq!(app.selection, MenuItem::Pray);
    app.handle_event(key('s'));
    assert_eq!(app.selection, MenuItem::Save);
    app.handle_event(key('h'));
    assert_eq!(app.selection, MenuItem::Home);
}

#[test]
fn space_outside_pray_does_not_count() {
    let mut app = App::new(PlayerData::default());
    app.handle_event(key(' '));
    assert_eq!(app.data.prays, 0);
    app.handle_event(key('s'));
    let act = app.handle_event(key(' '));
    assert_eq!(act, Action::Save);
    assert_eq!(app.data.prays, 0);
}

#[test]
fn ticks_and_unknown_keys_are_no_ops() {
    let mut app = App::new(PlayerData::new(String::from("Bob"), 3));
    app.handle_event(key('p'));
    app.handle_event(AppEvent::Tick);
    app.handle_event(key('x'));
    app.handle_event(AppEvent::Input(KeyInput::Other));
    assert_eq!(app.selection, MenuItem::Pray);
    assert_eq!(app.data.prays, 3);
    assert_eq!(app.data.name, "Bob");
    assert!(app.running);
}

#[test]
fn quit_is_reachable_and_final() {
    let mut app = App::new(PlayerData::new(String::from("Cleo"), 2));
    app.handle_event(key('p'));
    assert_eq!(app.handle_event(key('q')), Action::Quit);
    assert!(!app.running);
    for e in [key(' '), key('h'), key('s'), AppEvent::Tick, key('q')] {
        assert_eq!(app.handle_event(e), Action::Continue);
    }
    assert_eq!(app.selection, MenuItem::Pray);
    assert_eq!(app.data.prays, 2);
    assert_eq!(app.data.name, "Cleo");
    assert!(!app.running);
}

#[test]
fn counter_saturates_at_the_top() {
    let mut app = App::new(PlayerData::new(String::from("Max"), u32::MAX));
    app.handle_event(key('p'));
    app.handle_event(key(' '));
    assert_eq!(app.data.prays, u32::MAX);
}

#[test]
fn menu_indices_match_tab_order() {
    assert_eq!(usize::from(MenuItem::Home), 0);
    assert_eq!(usize::from(MenuItem::Pray), 1);
    assert_eq!(usize::from(MenuItem::Save), 2);
}

#[test]
fn scenario_fresh_player_prays_and_saves() {
    let mut app = App::new(PlayerData::default());
    assert_eq!(app.data.name, "Player");
    assert_eq!(app.data.prays, 0);
    app.handle_event(key('p'));
    app.handle_event(key(' '));
    app.handle_event(key(' '));
    app.handle_event(key(' '));
    assert_eq!(app.data.prays, 3);
    app.handle_event(key('s'));
    let act = app.handle_event(key(' '));
    assert_eq!(act, Action::Save);
    let written = totem_of_ket::codec::player_data_to_json(&app.data);
    assert_eq!(written, "{\"name\":\"Player\",\"prays\":3}");
    assert_eq!(app.handle_event(key('q')), Action::Quit);
    assert!(!app.running);
}

#[test]
fn scenario_loaded_player_goes_home() {
    let loaded = totem_of_ket::codec::player_data_from_json("{\"name\":\"Alice\",\"prays\":7}")
        .expect("well-formed record");
    assert_eq!(loaded.name, "Alice");
    assert_eq!(loaded.prays, 7);
    let mut app = App::new(loaded);
    app.handle_event(key('h'));
    assert_eq!(app.selection, MenuItem::Home);
    assert_eq!(app.data.name, "Alice");
    assert_eq!(app.data.prays, 7);
}
