use paper_ecash::api::client::{http_error, network_error, spend_results, ApiError, ObserverClient};
use paper_ecash::api::types::SpendInfoResponse;
use paper_ecash::features::refresh::{
    begin_auto_refresh, begin_refresh, finish_auto_refresh_at, finish_refresh_at, RefreshPlan,
};
use paper_ecash::models::note::{Note, SpendInfo};
use paper_ecash::models::note_set::NoteSet;
use paper_ecash::models::oob_notes::OobNotesError;
use paper_ecash::state::store::{AppState, Settings, ToastVariant};

#[test]
fn urls_and_requests() {
    let c = ObserverClient::new("https://obs.example/api".to_string());
    assert_eq!(c.spend_check_url("fed1"), "https://obs.example/api/federations/fed1/nonces/spend");
    assert_eq!(c.federations_url(), "https://obs.example/api/federations");
    assert_eq!(c.federation_meta_url("fed1"), "https://obs.example/api/federations/fed1/meta");
    assert!(c.spend_check_request("fed1", vec![]).is_none());
    let (url, req) = c.spend_check_request("f", vec!["n1".to_string()]).unwrap();
    assert_eq!(url, "https://obs.example/api/federations/f/nonces/spend");
    assert_eq!(req.nonces, vec!["n1".to_string()]);
    let d = ObserverClient::default();
    assert_eq!(d.federations_url(), "https://observer.fedimint.org/api/federations");
}

#[test]
fn error_texts() {
    match network_error("TypeError: Failed to fetch") {
        ApiError::Network(m) => assert!(m.starts_with("Request failed - the observer API may not support")),
        _ => panic!("network error expected"),
    }
    match network_error("timeout") {
        ApiError::Network(m) => assert_eq!(m, "timeout"),
        _ => panic!("network error expected"),
    }
    match http_error(404, "not found") {
        ApiError::Api(m) => assert_eq!(m, "HTTP 404: not found"),
        _ => panic!("api error expected"),
    }
    assert_eq!(http_error(500, "x").message(), "API error: HTTP 500: x");
    assert_eq!(ApiError::Parse("bad json".to_string()).message(), "Failed to parse response: bad json");
    assert_eq!(network_error("timeout").message(), "Network error: timeout");
    assert_eq!(OobNotesError::NoNotes.message(), "No notes found in ecash string");
    assert_eq!(
        OobNotesError::DecodeError("Empty input".to_string()).message(),
        "Failed to decode ecash: Empty input"
    );
}

#[test]
fn spend_responses_become_spend_info() {
    let r = spend_results(vec![(
        "n".to_string(),
        SpendInfoResponse { session_index: 9, estimated_timestamp: Some(77) },
    )]);
    assert_eq!(r.len(), 1);
    assert_eq!(r[0].0, "n");
    assert_eq!(r[0].1.session_index, 9);
    assert_eq!(r[0].1.estimated_timestamp, Some(77));
}

fn state() -> AppState {
    let mut s = NoteSet::new_empty("s".to_string());
    s.id = 1;
    s.federation_id = "fed".to_string();
    s.notes = vec![Note::new("a".to_string(), 1000), Note::new("b".to_string(), 2000)];
    let mut empty = NoteSet::new_empty("e".to_string());
    empty.id = 2;
    AppState::new(vec![s, empty], Settings::default())
}

#[test]
fn manual_refresh_round_trip() {
    let mut st = state();
    let plan = begin_refresh(&mut st, 1);
    let nonces = match plan {
        RefreshPlan::Check { federation_id, nonces } => {
            assert_eq!(federation_id, "fed");
            nonces
        },
        RefreshPlan::Skip => panic!("a check was expected"),
    };
    assert_eq!(nonces, vec!["a".to_string(), "b".to_string()]);
    let info = SpendInfo { session_index: 1, estimated_timestamp: Some(10) };
    finish_refresh_at(&mut st, 1, &nonces, Ok(vec![("b".to_string(), info)]), 500);
    let s = &st.note_sets[0];
    assert!(s.notes[1].status.is_spent());
    assert_eq!(s.notes[0].last_checked, Some(500));
    assert_eq!(s.last_refreshed, Some(500));
    assert_eq!(st.toasts.last().unwrap().message, "1 notes marked as spent");
    assert_eq!(st.toasts.last().unwrap().variant, ToastVariant::Success);
}

#[test]
fn manual_refresh_outcomes() {
    let mut st = state();
    assert!(matches!(begin_refresh(&mut st, 2), RefreshPlan::Skip));
    assert_eq!(st.toasts.last().unwrap().message, "No unspent notes to check");
    assert!(matches!(begin_refresh(&mut st, 99), RefreshPlan::Skip));
    let nonces = vec!["a".to_string()];
    finish_refresh_at(&mut st, 1, &nonces, Ok(vec![]), 9);
    assert_eq!(st.toasts.last().unwrap().message, "All notes still unspent");
    finish_refresh_at(&mut st, 1, &nonces, Err("Network error: down".to_string()), 10);
    assert_eq!(st.toasts.last().unwrap().message, "Refresh failed: Network error: down");
    assert_eq!(st.toasts.last().unwrap().variant, ToastVariant::Error);
}

#[test]
fn refresh_after_import() {
    let mut st = state();
    assert!(matches!(begin_auto_refresh(&st, 2), RefreshPlan::Skip));
    let nonces = match begin_auto_refresh(&st, 1) {
        RefreshPlan::Check { nonces, .. } => nonces,
        RefreshPlan::Skip => panic!("a check was expected"),
    };
    finish_auto_refresh_at(&mut st, 1, &nonces, Ok(vec![]), 3);
    assert!(st.toasts.is_empty());
    let info = SpendInfo { session_index: 1, estimated_timestamp: None };
    finish_auto_refresh_at(&mut st, 1, &nonces, Ok(vec![("a".to_string(), info)]), 4);
    assert_eq!(st.toasts.last().unwrap().message, "Auto-refresh: 1 notes marked as spent");
    finish_auto_refresh_at(&mut st, 1, &nonces, Err("boom".to_string()), 5);
    assert_eq!(st.toasts.last().unwrap().message, "Auto-refresh failed: boom");
    assert!(st.note_sets[0].notes[0].status.is_spent());
}
