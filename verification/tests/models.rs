use paper_ecash::models::note::{Note, NoteStatus, SpendInfo};
use paper_ecash::models::note_set::NoteSet;
use paper_ecash::models::paper_note::{group_into_paper_notes, PaperNote, PaperNoteStatus};

fn note(nonce: &str, amount: u64, paper: u128, index: usize, status: NoteStatus) -> Note {
    let mut n = Note::new(nonce.to_string(), amount);
    n.paper_note_id = paper;
    n.index = index;
    n.status = status;
    n
}

fn spent(ts: Option<i64>) -> NoteStatus {
    NoteStatus::Spent(SpendInfo { session_index: 7, estimated_timestamp: ts })
}

fn sample_set() -> NoteSet {
    let mut set = NoteSet::new_empty("set".to_string());
    set.federation_id = "fed".to_string();
    set.notes = vec![
        note("a", 1000, 5, 0, NoteStatus::Unspent),
        note("b", 2000, 3, 1, spent(Some(100))),
        note("c", 4000, 5, 2, spent(Some(50))),
        note("d", 8000, 3, 3, spent(None)),
        note("e", 16000, 9, 4, NoteStatus::Error("boom".to_string())),
    ];
    set
}

#[test]
fn note_basics() {
    let mut n = Note::new("abc".to_string(), 2500);
    assert_eq!(n.amount_sats(), 2);
    assert!(n.status.is_unspent());
    assert_eq!(n.redemption_time(), None);
    n.mark_spent_at(SpendInfo { session_index: 1, estimated_timestamp: Some(42) }, 99);
    assert!(n.status.is_spent());
    assert_eq!(n.redemption_time(), Some(42));
    assert_eq!(n.last_checked, Some(99));
    n.mark_error_at("x".to_string(), 100);
    assert!(n.status.is_error());
    n.mark_checked_at(101);
    assert_eq!(n.last_checked, Some(101));
    n.mark_checked();
    assert!(n.last_checked.is_some());
}

#[test]
fn note_set_totals_and_counts() {
    let set = sample_set();
    assert_eq!(set.total_amount_msat(), 31000);
    assert_eq!(set.total_amount_sats(), 31);
    assert_eq!(set.spent_amount_msat(), 14000);
    assert_eq!(set.spent_amount_sats(), 14);
    assert_eq!(set.unspent_amount_msat(), 1000);
    assert_eq!(set.unspent_amount_sats(), 1);
    assert_eq!(set.note_count(), 5);
    assert_eq!(set.spent_count(), 3);
    assert_eq!(set.unspent_count(), 1);
    assert_eq!(set.error_count(), 1);
    assert_eq!(set.unspent_nonces(), vec!["a"]);
    assert!(set.has_paper_note(9));
    assert!(!set.has_paper_note(4));
}

#[test]
fn paper_notes_group_by_id_in_order() {
    let set = sample_set();
    let papers = set.paper_notes();
    assert_eq!(papers.len(), 3);
    let ids: Vec<u128> = papers.iter().map(|p| p.paper_note_id).collect();
    assert_eq!(ids, vec![3, 5, 9]);
    let nonces: Vec<&str> = papers[1].ecash_notes.iter().map(|n| n.nonce.as_str()).collect();
    assert_eq!(nonces, vec!["a", "c"]);
    assert_eq!(papers[0].index, 1);
    assert_eq!(papers[1].index, 0);
    assert_eq!(papers[0].status(), PaperNoteStatus::Spent);
    assert_eq!(papers[1].status(), PaperNoteStatus::PartiallySpent);
    assert_eq!(papers[2].status(), PaperNoteStatus::Error);
    assert_eq!(set.paper_note_count(), 3);
    assert_eq!(set.spent_paper_note_count(), 1);
    assert_eq!(set.unspent_paper_note_count(), 0);
}

#[test]
fn grouping_keeps_every_note_once() {
    let set = sample_set();
    let papers = group_into_paper_notes(&set.notes);
    let total: usize = papers.iter().map(|p| p.ecash_note_count()).sum();
    assert_eq!(total, set.notes.len());
    let sum: u64 = papers.iter().map(|p| p.total_amount_msat()).sum();
    assert_eq!(sum, set.total_amount_msat());
    assert!(group_into_paper_notes(&[]).is_empty());
}

#[test]
fn paper_note_details() {
    let p = PaperNote {
        paper_note_id: 1,
        ecash_notes: vec![
            note("n1", 1000, 1, 4, spent(Some(10))),
            note("n2", 5000, 1, 5, NoteStatus::Unspent),
            note("n3", 1000, 1, 6, spent(Some(30))),
            note("n4", 2000, 1, 7, spent(None)),
        ],
        index: 4,
    };
    assert_eq!(p.total_amount_msat(), 9000);
    assert_eq!(p.redemption_time(), Some(30));
    assert_eq!(p.last_checked(), None);
    assert_eq!(p.spend_info().map(|i| i.estimated_timestamp), Some(Some(10)));
    assert_eq!(p.display_nonce(), "n1");
    assert_eq!(p.denomination_breakdown(), vec![(1000, 2), (2000, 1), (5000, 1)]);
    assert_eq!(p.ecash_note_count(), 4);
    assert!(!p.is_spent());
    assert!(!p.is_unspent());
    let empty = PaperNote { paper_note_id: 2, ecash_notes: vec![], index: 0 };
    assert_eq!(empty.display_nonce(), "");
    assert!(empty.is_spent());
    assert!(empty.spend_info().is_none());
}

#[test]
fn status_update_touches_the_first_match_only() {
    let mut set = sample_set();
    set.notes.push(note("a", 1, 5, 5, NoteStatus::Unspent));
    set.update_note_status_at("a", spent(Some(1)), 77);
    assert!(set.notes[0].status.is_spent());
    assert_eq!(set.notes[0].last_checked, Some(77));
    assert!(set.notes[5].status.is_unspent());
    set.update_note_status_at("zzz", spent(None), 78);
    assert_eq!(set.notes.len(), 6);
    set.mark_refreshed_at(80);
    assert_eq!(set.last_refreshed, Some(80));
}
