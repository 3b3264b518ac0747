use paper_ecash::models::note::{Note, NoteStatus, SpendInfo};
use paper_ecash::models::note_set::NoteSet;
use paper_ecash::state::store::{AppState, Settings, ToastVariant};

fn note(nonce: &str, amount: u64, paper: u128) -> Note {
    let mut n = Note::new(nonce.to_string(), amount);
    n.paper_note_id = paper;
    n
}

fn set_with(id: u128, fed: &str, notes: Vec<Note>) -> NoteSet {
    let mut s = NoteSet::new_empty("set".to_string());
    s.id = id;
    s.federation_id = fed.to_string();
    s.notes = notes;
    s
}

fn state_with(sets: Vec<NoteSet>) -> AppState {
    AppState::new(sets, Settings::default())
}

#[test]
fn settings_default_points_at_the_public_observer() {
    let s = Settings::default();
    assert_eq!(s.api_url, "https://observer.fedimint.org/api");
    assert!(!s.dark_mode);
    assert_eq!(s.default_auto_refresh_interval, None);
}

#[test]
fn new_state_has_no_toasts_and_unknown_federations() {
    let st = state_with(vec![set_with(1, "f", vec![])]);
    assert_eq!(st.note_sets.len(), 1);
    assert!(st.toasts.is_empty());
    assert!(st.known_federations.is_none());
}

#[test]
fn add_get_update_remove_sets() {
    let mut st = state_with(vec![]);
    st.add_note_set(set_with(7, "f", vec![note("a", 1000, 1)]));
    st.add_note_set(set_with(8, "g", vec![]));
    assert_eq!(st.get_note_set(7).unwrap().notes.len(), 1);
    assert!(st.get_note_set(9).is_none());
    let mut replacement = set_with(7, "f", vec![]);
    replacement.name = "renamed".to_string();
    st.update_note_set(7, replacement);
    assert_eq!(st.get_note_set(7).unwrap().name, "renamed");
    st.update_note_set(42, set_with(42, "x", vec![]));
    assert_eq!(st.note_sets.len(), 2);
    st.remove_note_set(7);
    assert!(st.get_note_set(7).is_none());
    assert_eq!(st.get_note_set(8).unwrap().federation_id, "g");
    assert_eq!(st.note_sets.len(), 1);
}

#[test]
fn update_note_status_in_a_set() {
    let mut st = state_with(vec![set_with(1, "f", vec![note("a", 1000, 1), note("b", 2000, 1)])]);
    st.update_note_status_at(1, "b", NoteStatus::Error("bad".to_string()), 55);
    let s = st.get_note_set(1).unwrap();
    assert!(s.notes[1].status.is_error());
    assert_eq!(s.notes[1].last_checked, Some(55));
    assert!(s.notes[0].status.is_unspent());
    st.update_note_status(1, "a", NoteStatus::Error("x".to_string()));
    assert!(st.note_sets[0].notes[0].status.is_error());
}

#[test]
fn mark_notes_spent_and_checked() {
    let mut st = state_with(vec![set_with(
        1,
        "f",
        vec![note("a", 1000, 1), note("b", 2000, 1), note("c", 4000, 2)],
    )]);
    let info = SpendInfo { session_index: 3, estimated_timestamp: Some(1_700_000_000) };
    st.mark_notes_spent_at(1, vec![("b".to_string(), info)], 100);
    let s = &st.note_sets[0];
    assert!(s.notes[1].status.is_spent());
    assert_eq!(s.notes[1].redemption_time(), Some(1_700_000_000));
    assert_eq!(s.last_refreshed, Some(100));
    assert_eq!(s.spent_amount_msat(), 2000);

    st.mark_notes_checked_at(1, &["a", "b"], 200);
    let s = &st.note_sets[0];
    assert_eq!(s.notes[0].last_checked, Some(200));
    assert_eq!(s.notes[1].last_checked, Some(100));
    assert_eq!(s.notes[2].last_checked, None);
    assert_eq!(s.last_refreshed, Some(200));
    assert_eq!(s.spent_count(), 1);
    assert_eq!(s.unspent_count(), 2);
}

#[test]
fn marking_an_unknown_set_changes_nothing() {
    let mut st = state_with(vec![set_with(1, "f", vec![note("a", 1000, 1)])]);
    st.mark_notes_spent_at(9, vec![("a".to_string(), SpendInfo { session_index: 0, estimated_timestamp: None })], 5);
    st.mark_notes_checked_at(9, &["a"], 5);
    assert!(st.note_sets[0].notes[0].status.is_unspent());
    assert_eq!(st.note_sets[0].last_refreshed, None);
}

#[test]
fn add_notes_appends_reindexed_and_counts_paper_notes() {
    let mut st = state_with(vec![set_with(1, "", vec![note("a", 1000, 1)])]);
    let added = st.add_notes_to_set(
        1,
        vec![note("b", 2000, 4), note("c", 3000, 4), note("d", 5000, 6)],
        "fedid".to_string(),
    );
    assert_eq!(added, Ok(2));
    let s = &st.note_sets[0];
    assert_eq!(s.federation_id, "fedid");
    assert_eq!(s.notes.len(), 4);
    let indices: Vec<usize> = s.notes.iter().map(|n| n.index).collect();
    assert_eq!(indices, vec![0, 1, 2, 3]);
    assert_eq!(s.total_amount_msat(), 11000);
}

#[test]
fn add_notes_with_other_federation_is_refused() {
    let fed = "0123456789abcdef0123";
    let mut st = state_with(vec![set_with(1, fed, vec![note("a", 1000, 1)])]);
    let res = st.add_notes_to_set(1, vec![note("b", 1, 2)], "fedcba9876543210ffff".to_string());
    assert_eq!(
        res,
        Err("Federation ID mismatch: expected 0123456789abcdef, got fedcba9876543210".to_string())
    );
    assert_eq!(st.note_sets[0].notes.len(), 1);
}

#[test]
fn add_notes_for_unobserved_federation_is_refused() {
    let mut st = state_with(vec![set_with(1, "", vec![])]);
    st.known_federations = Some(vec!["known".to_string()]);
    let res = st.add_notes_to_set(1, vec![note("b", 1, 2)], "short".to_string());
    assert_eq!(res, Err("Federation short is not observed by the configured observer".to_string()));
    assert!(st.note_sets[0].notes.is_empty());
    let ok = st.add_notes_to_set(1, vec![note("b", 1, 2)], "known".to_string());
    assert_eq!(ok, Ok(1));
}

#[test]
fn add_notes_to_missing_set_adds_nothing() {
    let mut st = state_with(vec![]);
    let res = st.add_notes_to_set(3, vec![note("b", 1, 2), note("c", 1, 2)], "f".to_string());
    assert_eq!(res, Ok(0));
    assert!(st.note_sets.is_empty());
}

#[test]
fn toasts_come_and_go() {
    let mut st = state_with(vec![]);
    st.add_toast("hello".to_string(), ToastVariant::Info);
    st.add_toast("bye".to_string(), ToastVariant::Warning);
    assert_eq!(st.toasts.len(), 2);
    assert_eq!(st.toasts[1].message, "bye");
    assert_eq!(st.toasts[1].variant, ToastVariant::Warning);
    let id = st.toasts[0].id;
    st.remove_toast(id);
    assert_eq!(st.toasts.len(), 1);
    assert_eq!(st.toasts[0].message, "bye");
}

#[test]
fn update_settings_replaces_them() {
    let mut st = state_with(vec![]);
    st.update_settings(Settings {
        api_url: "http://localhost".to_string(),
        dark_mode: true,
        default_auto_refresh_interval: Some(60),
    });
    assert_eq!(st.settings.api_url, "http://localhost");
    assert!(st.settings.dark_mode);
}

#[test]
fn set_preferences_keeps_the_refresh_interval() {
    let mut settings = Settings::default();
    settings.default_auto_refresh_interval = Some(300);
    let mut state = AppState::new(vec![set_with(1, "fed", vec![])], settings);
    state.set_preferences("http://localhost:3000/api".to_string(), true);
    assert_eq!(state.settings.api_url, "http://localhost:3000/api");
    assert!(state.settings.dark_mode);
    assert_eq!(state.settings.default_auto_refresh_interval, Some(300));
    assert_eq!(state.note_sets.len(), 1);
}

#[test]
fn toggle_dark_mode_flips_only_dark_mode() {
    let mut state = state_with(vec![]);
    let url = state.settings.api_url.clone();
    state.toggle_dark_mode();
    assert!(state.settings.dark_mode);
    state.toggle_dark_mode();
    assert!(!state.settings.dark_mode);
    assert_eq!(state.settings.api_url, url);
    assert_eq!(state.settings.default_auto_refresh_interval, None);
}
