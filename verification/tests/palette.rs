use gpui_commands::state::{classify_key, same_text, PaletteKey};
use gpui_commands::{visible_commands, ActionId, Command, CommandRegistry, Effects, FocusChange, PaletteState};

fn registry(names: &[&str]) -> CommandRegistry<()> {
    let mut registry = CommandRegistry::new();
    for (i, name) in names.iter().enumerate() {
        registry.register(Command::new(name, ActionId::new(name, i as u64)).handler(()));
    }
    registry
}

fn press(state: &mut PaletteState, registry: &CommandRegistry<()>, key: &str) -> Effects {
    state.handle_key(registry, key, None, false, false, false)
}

fn type_text(state: &mut PaletteState, registry: &CommandRegistry<()>, text: &str) -> Effects {
    state.handle_key(registry, "x", Some(text), false, false, false)
}

const NOTHING: Effects = Effects { run: None, focus: FocusChange::Keep, redraw: false };
const REDRAW: Effects = Effects { run: None, focus: FocusChange::Keep, redraw: true };

#[test]
fn trigger_opens_closes_and_reopens() {
    let mut state = PaletteState::new();
    assert!(!state.is_open());
    assert_eq!(
        state.toggle(),
        Effects { run: None, focus: FocusChange::Capture, redraw: true }
    );
    assert!(state.is_open());
    assert_eq!(
        state.toggle(),
        Effects { run: None, focus: FocusChange::Restore, redraw: true }
    );
    assert!(!state.is_open());
    state.toggle();
    assert!(state.is_open());
}

#[test]
fn arrow_keys_move_selection_with_wraparound() {
    let registry = registry(&["Ping", "Pong"]);
    let mut state = PaletteState::new();
    state.toggle();
    assert_eq!(state.selected_index(), 0);
    assert_eq!(press(&mut state, &registry, "down"), REDRAW);
    assert_eq!(state.selected_index(), 1);
    press(&mut state, &registry, "down");
    assert_eq!(state.selected_index(), 0);
    press(&mut state, &registry, "up");
    assert_eq!(state.selected_index(), 1);
}

#[test]
fn enter_executes_selected_command_and_closes() {
    let registry = registry(&["Increment"]);
    let mut state = PaletteState::new();
    state.toggle();
    let effects = press(&mut state, &registry, "enter");
    assert_eq!(
        effects,
        Effects { run: Some(0), focus: FocusChange::Restore, redraw: true }
    );
    assert!(!state.is_open());
}

#[test]
fn escape_closes_and_clears_query() {
    let registry = registry(&["Ping"]);
    let mut state = PaletteState::new();
    state.toggle();
    type_text(&mut state, &registry, "pi");
    assert_eq!(state.query(), "pi");
    assert_eq!(
        press(&mut state, &registry, "escape"),
        Effects { run: None, focus: FocusChange::Restore, redraw: true }
    );
    assert!(!state.is_open());
    assert_eq!(state.query(), "");
    assert_eq!(press(&mut state, &registry, "escape"), NOTHING);
}

#[test]
fn typing_filters_and_ranks_commands() {
    let registry = registry(&["Save File", "Toggle Sidebar", "Format Document", "Side Panel"]);
    assert_eq!(visible_commands(&registry, ""), vec![0, 1, 2, 3]);
    assert_eq!(visible_commands(&registry, "tgsb"), vec![1]);
    // "Toggle Sidebar" and "Side Panel" both score 17: registration order.
    assert_eq!(visible_commands(&registry, "side"), vec![1, 3]);
    assert_eq!(visible_commands(&registry, "zzz"), Vec::<usize>::new());
}

#[test]
fn higher_score_ranks_first() {
    let registry = registry(&["Cargo Tools", "Go To"]);
    // "Cargo Tools": g 2, o 4 = 6; "Go To": g 5, o 4 = 9.
    assert_eq!(visible_commands(&registry, "go"), vec![1, 0]);
}

#[test]
fn ties_keep_registration_order() {
    let registry = registry(&["Beta", "Alpha", "Gamma"]);
    // every name scores 2 for "a" (no boundary, no previous match) except
    // "Alpha", which scores 5 at its start.
    assert_eq!(visible_commands(&registry, "a"), vec![1, 0, 2]);
}

#[test]
fn enter_runs_the_highlighted_match() {
    let registry = registry(&["Save File", "Toggle Sidebar", "Format Document"]);
    let mut state = PaletteState::new();
    state.toggle();
    assert_eq!(type_text(&mut state, &registry, "fo"), REDRAW);
    // "Format Document" (9) ranks above "Save File" (f at 5, o absent) ... only
    // names containing f then o match: "Format Document".
    assert_eq!(visible_commands(&registry, state.query()), vec![2]);
    let effects = press(&mut state, &registry, "enter");
    assert_eq!(effects.run, Some(2));
}

#[test]
fn backspace_edits_query_and_keeps_selection() {
    let registry = registry(&["Ping", "Pong"]);
    let mut state = PaletteState::new();
    state.toggle();
    type_text(&mut state, &registry, "p");
    press(&mut state, &registry, "down");
    assert_eq!(state.selected_index(), 1);
    assert_eq!(press(&mut state, &registry, "backspace"), REDRAW);
    assert_eq!(state.query(), "");
    assert_eq!(state.selected_index(), 1);
    assert_eq!(press(&mut state, &registry, "backspace"), NOTHING);
}

#[test]
fn typing_keeps_selection() {
    let registry = registry(&["Ping", "Pong"]);
    let mut state = PaletteState::new();
    state.toggle();
    press(&mut state, &registry, "down");
    assert_eq!(state.selected_index(), 1);
    assert_eq!(type_text(&mut state, &registry, "o"), REDRAW);
    assert_eq!(state.query(), "o");
    assert_eq!(state.selected_index(), 1);
    press(&mut state, &registry, "backspace");
    assert_eq!(state.query(), "");
    assert_eq!(state.selected_index(), 1);
    assert!(state.is_open());
}

#[test]
fn chords_are_not_text() {
    let registry = registry(&["Ping"]);
    let mut state = PaletteState::new();
    state.toggle();
    assert_eq!(state.handle_key(&registry, "k", Some("k"), true, false, false), NOTHING);
    assert_eq!(state.handle_key(&registry, "k", Some("k"), false, true, false), NOTHING);
    assert_eq!(state.handle_key(&registry, "k", Some("k"), false, false, true), NOTHING);
    assert_eq!(state.query(), "");
    assert_eq!(state.handle_key(&registry, "shift", None, false, false, false), NOTHING);
}

#[test]
fn enter_with_nothing_listed_runs_nothing() {
    let registry = registry(&["Ping"]);
    let mut state = PaletteState::new();
    state.toggle();
    type_text(&mut state, &registry, "zz");
    assert_eq!(press(&mut state, &registry, "down"), NOTHING);
    let effects = press(&mut state, &registry, "enter");
    assert_eq!(effects.run, None);
    assert!(!state.is_open());
}

#[test]
fn highlight_past_a_shorter_listing_runs_nothing() {
    let registry = registry(&["Ping", "Pong"]);
    let mut state = PaletteState::new();
    state.toggle();
    press(&mut state, &registry, "down");
    type_text(&mut state, &registry, "pi");
    assert_eq!(visible_commands(&registry, state.query()), vec![0]);
    assert_eq!(state.selected_index(), 1);
    let effects = press(&mut state, &registry, "enter");
    assert_eq!(effects.run, None);
    assert!(!state.is_open());
}

#[test]
fn click_selects_and_executes() {
    let registry = registry(&["Ping", "Pong"]);
    let mut state = PaletteState::new();
    state.toggle();
    let effects = state.select_and_execute(1, &registry);
    assert_eq!(effects.run, Some(1));
    assert_eq!(effects.focus, FocusChange::Restore);
    assert!(!state.is_open());
}

#[test]
fn move_selection_wraps_both_ways() {
    let mut state = PaletteState::new();
    assert_eq!(state.move_selection(-1, 3), REDRAW);
    assert_eq!(state.selected_index(), 2);
    state.move_selection(5, 3);
    assert_eq!(state.selected_index(), 1);
    state.move_selection(-7, 3);
    assert_eq!(state.selected_index(), 0);
    assert_eq!(state.move_selection(1, 0), NOTHING);
    assert_eq!(state.selected_index(), 0);
}

#[test]
fn close_when_closed_does_nothing() {
    let mut state = PaletteState::new();
    assert_eq!(state.close(), NOTHING);
    state.toggle();
    assert_eq!(
        state.close(),
        Effects { run: None, focus: FocusChange::Restore, redraw: true }
    );
}

#[test]
fn keys_are_classified_by_name() {
    assert_eq!(classify_key("escape"), PaletteKey::Escape);
    assert_eq!(classify_key("backspace"), PaletteKey::Backspace);
    assert_eq!(classify_key("up"), PaletteKey::Up);
    assert_eq!(classify_key("down"), PaletteKey::Down);
    assert_eq!(classify_key("enter"), PaletteKey::Enter);
    assert_eq!(classify_key("a"), PaletteKey::Other);
    assert_eq!(classify_key("Escape"), PaletteKey::Other);
    assert!(same_text("abc", "abc"));
    assert!(!same_text("abc", "abd"));
    assert!(!same_text("ab", "abc"));
}
