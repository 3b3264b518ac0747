use paper_ecash::models::note::{Note, NoteStatus, SpendInfo};
use paper_ecash::models::note_set::NoteSet;
use paper_ecash::models::oob_notes::read_bigsize;
use paper_ecash::components::redemption_chart::aggregate_redemptions;
use paper_ecash::models::paper_note::{group_into_paper_notes, PaperNote};
use paper_ecash::state::store::{AppState, Settings};
use paper_ecash::utils::encoding::{format_number, truncate_string};

fn note(nonce: &str, amount: u64, paper: u128, status: NoteStatus) -> Note {
    let mut n = Note::new(nonce.to_string(), amount);
    n.paper_note_id = paper;
    n.status = status;
    n
}

fn spent() -> NoteStatus {
    NoteStatus::Spent(SpendInfo { session_index: 1, estimated_timestamp: Some(5) })
}

#[test]
fn statuses_partition_the_notes() {
    let mut s = NoteSet::new_empty("s".to_string());
    s.notes = vec![
        note("a", 1000, 1, NoteStatus::Unspent),
        note("b", 2000, 1, spent()),
        note("c", 4000, 2, NoteStatus::Error("e".to_string())),
        note("d", 8000, 3, spent()),
    ];
    assert_eq!(s.unspent_count() + s.spent_count() + s.error_count(), s.note_count());
    let error_amount = 4000;
    assert_eq!(s.unspent_amount_msat() + s.spent_amount_msat() + error_amount, s.total_amount_msat());
    assert!(s.spent_paper_note_count() + s.unspent_paper_note_count() <= s.paper_note_count());
    let papers = s.paper_notes();
    let count: usize = papers.iter().map(|p| p.ecash_note_count()).sum();
    assert_eq!(count, s.note_count());
}

#[test]
fn breakdown_accounts_for_every_note() {
    let p = PaperNote {
        paper_note_id: 1,
        ecash_notes: vec![
            note("a", 1000, 1, NoteStatus::Unspent),
            note("b", 4000, 1, NoteStatus::Unspent),
            note("c", 1000, 1, NoteStatus::Unspent),
        ],
        index: 0,
    };
    let b = p.denomination_breakdown();
    let count: usize = b.iter().map(|(_, c)| *c).sum();
    let total: u64 = b.iter().map(|(a, c)| a * (*c as u64)).sum();
    assert_eq!(count, p.ecash_note_count());
    assert_eq!(total, p.total_amount_msat());
}

#[test]
fn lookups_after_add_update_remove() {
    let mut st = AppState::new(vec![], Settings::default());
    let mut a = NoteSet::new_empty("a".to_string());
    a.id = 10;
    st.add_note_set(a);
    assert_eq!(st.get_note_set(10).unwrap().name, "a");
    let mut b = NoteSet::new_empty("b".to_string());
    b.id = 10;
    st.update_note_set(10, b);
    assert_eq!(st.get_note_set(10).unwrap().name, "b");
    st.remove_note_set(10);
    assert!(st.get_note_set(10).is_none());
}

#[test]
fn reported_nonces_show_spent_and_stay_spent() {
    let mut s = NoteSet::new_empty("s".to_string());
    s.id = 1;
    s.notes = vec![note("a", 1, 1, spent()), note("b", 1, 1, NoteStatus::Unspent)];
    let mut st = AppState::new(vec![s], Settings::default());
    st.mark_notes_spent_at(1, vec![("b".to_string(), SpendInfo { session_index: 2, estimated_timestamp: None })], 9);
    st.mark_notes_checked_at(1, &["a", "b"], 10);
    assert!(st.note_sets[0].notes[0].status.is_spent());
    assert!(st.note_sets[0].notes[1].status.is_spent());
}

#[test]
fn bigsize_round_trips() {
    for (bytes, value) in [
        (vec![0xFCu8, 7], 0xFCu64),
        (vec![0xFD, 0x01, 0x2C, 7], 300),
        (vec![0xFE, 0x00, 0x01, 0x00, 0x00, 7], 65536),
        (vec![0xFF, 0, 0, 0, 1, 0, 0, 0, 0, 7], 1u64 << 32),
    ] {
        let mut pos = 0;
        assert_eq!(read_bigsize(&bytes, &mut pos).unwrap(), value);
        assert_eq!(pos, bytes.len() - 1);
    }
}

#[test]
fn formatting_laws() {
    assert_eq!(format_number(9876543210).replace(',', ""), "9876543210");
    for limit in 0..12 {
        assert!(truncate_string("a long nonce value", limit).len() <= limit);
    }
}

#[test]
fn groupings_and_breakdowns_are_functions_of_the_notes() {
    let notes = vec![
        note("a", 1000, 7, spent()),
        note("b", 2000, 3, NoteStatus::Unspent),
        note("c", 1000, 7, NoteStatus::Unspent),
    ];
    let g1 = group_into_paper_notes(&notes);
    let g2 = group_into_paper_notes(&notes);
    assert_eq!(g1.len(), g2.len());
    for (x, y) in g1.iter().zip(g2.iter()) {
        assert_eq!(x.paper_note_id, y.paper_note_id);
        assert_eq!(x.ecash_note_count(), y.ecash_note_count());
        assert_eq!(x.denomination_breakdown(), y.denomination_breakdown());
    }
    let mut s = NoteSet::new_empty("s".to_string());
    s.notes = notes;
    let p1 = aggregate_redemptions(&s, 1);
    let p2 = aggregate_redemptions(&s, 1);
    assert_eq!(p1.len(), 1);
    assert_eq!(p1[0].timestamp, p2[0].timestamp);
    assert_eq!(p1[0].count, p2[0].count);
}
