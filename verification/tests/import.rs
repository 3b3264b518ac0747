use base64::Engine;
use paper_ecash::features::import::{
    combine_csv_results, create_note_set, import_csv, import_notes, import_pasted, import_scanned,
};
use paper_ecash::features::rows::{denomination_summary, federation_label, status_info, status_info_at};
use paper_ecash::models::note::{Note, NoteStatus, SpendInfo};
use paper_ecash::models::note_set::NoteSet;
use paper_ecash::models::oob_notes::parse_csv_notes;
use paper_ecash::models::paper_note::PaperNote;
use paper_ecash::state::store::{AppState, Settings, ToastVariant};

/// Two parts: the federation id prefix `deadbeef`, then two notes of
/// 1024 msat whose spend keys are 1 and 2.
fn sample_ecash() -> String {
    let mut notes = vec![1u8, 0xFD, 0x04, 0x00, 2];
    for k in [1u8, 2u8] {
        notes.extend([0u8; 48]);
        let mut key = [0u8; 32];
        key[31] = k;
        notes.extend(key);
    }
    let mut b = vec![2u8, 1, 4, 0xde, 0xad, 0xbe, 0xef, 0];
    b.extend([0xFD, 0x00, notes.len() as u8]);
    b.extend(notes);
    base64::engine::general_purpose::URL_SAFE_NO_PAD.encode(b)
}

fn state_with_set(fed: &str) -> AppState {
    let mut s = NoteSet::new_empty("s".to_string());
    s.id = 1;
    s.federation_id = fed.to_string();
    AppState::new(vec![s], Settings::default())
}

#[test]
fn pasting_an_ecash_string_adds_its_notes() {
    let mut st = state_with_set("");
    assert_eq!(import_pasted(&mut st, 1, &sample_ecash()), Ok(()));
    let s = &st.note_sets[0];
    assert_eq!(s.federation_id, "deadbeef");
    assert_eq!(s.notes.len(), 2);
    assert_eq!(s.total_amount_msat(), 2048);
    assert_eq!(s.paper_note_count(), 1);
    assert_eq!(st.toasts.last().unwrap().message, "Added 2 notes");
    assert_eq!(st.toasts.last().unwrap().variant, ToastVariant::Success);
}

#[test]
fn pasting_refusals() {
    let mut st = state_with_set("other");
    assert_eq!(import_pasted(&mut st, 1, "   "), Err("Please enter an ecash string".to_string()));
    assert_eq!(
        import_pasted(&mut st, 1, "%%%"),
        Err("Failed to parse ecash: Failed to decode ecash: Invalid base64 encoding".to_string())
    );
    assert_eq!(
        import_pasted(&mut st, 1, &sample_ecash()),
        Err("Federation ID mismatch: these notes belong to a different federation".to_string())
    );
    assert!(st.note_sets[0].notes.is_empty());
    assert!(st.toasts.is_empty());
}

#[test]
fn importing_notes_directly() {
    let mut st = state_with_set("fed");
    let notes = vec![Note::new("n".to_string(), 1000)];
    assert_eq!(import_notes(&mut st, 1, notes, "fed".to_string()), Ok(()));
    assert_eq!(st.note_sets[0].notes.len(), 1);
    assert_eq!(st.toasts.last().unwrap().message, "Added 1 notes");
}

#[test]
fn csv_files_combine_their_lines() {
    let content = format!("# header\n{}\n\n%bad%\n{}\n", sample_ecash(), sample_ecash());
    let combined = combine_csv_results(&parse_csv_notes(&content));
    assert_eq!(combined.notes.len(), 4);
    assert_eq!(combined.federation_id, Some("deadbeef".to_string()));
    assert_eq!(
        combined.errors,
        vec!["Line 2: Failed to decode ecash: Invalid base64 encoding".to_string()]
    );

    let mut st = state_with_set("");
    assert_eq!(import_csv(&mut st, 1, &content), Ok(()));
    assert_eq!(st.note_sets[0].notes.len(), 4);
    assert_eq!(st.toasts.len(), 2);
    assert_eq!(st.toasts[0].message, "Imported with 1 errors");
    assert_eq!(st.toasts[0].variant, ToastVariant::Warning);
    assert_eq!(st.toasts[1].message, "Added 4 notes");
}

#[test]
fn csv_without_notes_is_an_error() {
    let mut st = state_with_set("");
    assert_eq!(import_csv(&mut st, 1, "  \n "), Err("Please select a CSV file".to_string()));
    assert_eq!(import_csv(&mut st, 1, "# only a comment"), Err("No valid notes found in CSV".to_string()));
    assert_eq!(
        import_csv(&mut st, 1, "%x\n%y"),
        Err("Line 1: Failed to decode ecash: Invalid base64 encoding\nLine 2: Failed to decode ecash: Invalid base64 encoding"
            .to_string())
    );
    assert!(st.note_sets[0].notes.is_empty());
}

#[test]
fn creating_note_sets() {
    let mut st = AppState::new(vec![], Settings::default());
    assert_eq!(create_note_set(&mut st, "   "), Err("Please enter a name".to_string()));
    let id = create_note_set(&mut st, "  Conference  ").unwrap();
    assert_eq!(st.note_sets.len(), 1);
    assert_eq!(st.note_sets[0].id, id);
    assert_eq!(st.note_sets[0].name, "Conference");
    assert_eq!(st.note_sets[0].last_refreshed, None);
    assert_eq!(st.note_sets[0].auto_refresh_interval, None);
    assert!(st.note_sets[0].notes.is_empty());
    assert!(st.note_sets[0].federation_id.is_empty());
    assert_eq!(st.toasts.last().unwrap().message, "Note set created");
}

fn paper(statuses: Vec<(u64, NoteStatus)>) -> PaperNote {
    let notes = statuses
        .into_iter()
        .enumerate()
        .map(|(i, (amount, status))| {
            let mut n = Note::new(format!("n{}", i), amount);
            n.status = status;
            n
        })
        .collect();
    PaperNote { paper_note_id: 1, ecash_notes: notes, index: 0 }
}

#[test]
fn paper_note_rows() {
    let single = paper(vec![(1000, NoteStatus::Unspent)]);
    assert_eq!(denomination_summary(&single), None);
    assert_eq!(status_info_at(&single, 0), None);
    assert_eq!(status_info(&single), None);

    let several = paper(vec![(100_000, NoteStatus::Unspent), (100_000, NoteStatus::Unspent), (500_000, NoteStatus::Unspent)]);
    assert_eq!(denomination_summary(&several), Some("3 notes: 2x100 + 500".to_string()));

    let info = SpendInfo { session_index: 12, estimated_timestamp: Some(1000) };
    let spent = paper(vec![(1000, NoteStatus::Spent(info.clone())), (2000, NoteStatus::Spent(SpendInfo {
        session_index: 1,
        estimated_timestamp: None,
    }))]);
    assert_eq!(status_info_at(&spent, 1000 + 7200), Some("Session #12 - 2 hours ago".to_string()));
    let unknown = paper(vec![(1000, NoteStatus::Spent(SpendInfo { session_index: 3, estimated_timestamp: None }))]);
    assert_eq!(status_info_at(&unknown, 5), Some("Session #3 - Unknown time".to_string()));
    let partial = paper(vec![(1000, NoteStatus::Unspent), (1000, NoteStatus::Spent(info))]);
    assert_eq!(status_info_at(&partial, 5), Some("Some denominations spent".to_string()));
    let error = paper(vec![(1000, NoteStatus::Error("x".to_string()))]);
    assert_eq!(status_info_at(&error, 5), Some("Check error on one or more notes".to_string()));
}

#[test]
fn federation_labels() {
    assert_eq!(federation_label(""), "No notes imported yet");
    assert_eq!(federation_label("abc"), "abc...");
    assert_eq!(federation_label("0123456789abcdef0123"), "0123456789abcdef...");
}

#[test]
fn scanning_qr_codes() {
    let mut st = state_with_set("");
    let mut scanned: Vec<String> = Vec::new();
    import_scanned(&mut st, 1, &mut scanned, &format!("  {}\n", sample_ecash()));
    assert_eq!(st.note_sets[0].notes.len(), 2);
    assert_eq!(scanned.len(), 2);
    assert_eq!(st.toasts.last().unwrap().message, "Added 2 notes (nonce: 0279be...f81798)");
    import_scanned(&mut st, 1, &mut scanned, &sample_ecash());
    assert_eq!(st.note_sets[0].notes.len(), 2);
    assert_eq!(st.toasts.last().unwrap().message, "Notes already imported");
    assert_eq!(st.toasts.last().unwrap().variant, ToastVariant::Info);
    import_scanned(&mut st, 1, &mut scanned, "%%");
    assert_eq!(
        st.toasts.last().unwrap().message,
        "Invalid QR: Failed to decode ecash: Invalid base64 encoding"
    );
    assert_eq!(st.toasts.last().unwrap().variant, ToastVariant::Warning);
}
