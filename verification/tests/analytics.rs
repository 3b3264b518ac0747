use paper_ecash::components::redemption_chart::{
    aggregate_by_hour, aggregate_redemptions, axis_count_labels, hours_have_data, max_count, series_totals,
};
use paper_ecash::features::sort::SortOrder;
use paper_ecash::models::note::{Note, NoteStatus, SpendInfo};
use paper_ecash::models::note_set::NoteSet;

fn note(nonce: &str, amount: u64, index: usize, ts: Option<Option<i64>>) -> Note {
    let mut n = Note::new(nonce.to_string(), amount);
    n.index = index;
    if let Some(t) = ts {
        n.status = NoteStatus::Spent(SpendInfo { session_index: 0, estimated_timestamp: t });
    }
    n
}

fn set(notes: Vec<Note>) -> NoteSet {
    let mut s = NoteSet::new_empty("s".to_string());
    s.notes = notes;
    s
}

#[test]
fn redemptions_per_day() {
    let day = 86400;
    let s = set(vec![
        note("a", 5000, 0, Some(Some(day + 10))),
        note("b", 2500, 1, Some(Some(day + 500))),
        note("c", 1000, 2, Some(Some(3 * day + 1))),
        note("d", 9000, 3, None),
        note("e", 9000, 4, Some(None)),
    ]);
    let pts = aggregate_redemptions(&s, 24);
    assert_eq!(pts.len(), 2);
    assert_eq!(pts[0].timestamp, day);
    assert_eq!(pts[0].amount_sats, 7);
    assert_eq!(pts[0].count, 2);
    assert_eq!(pts[1].timestamp, 3 * day);
    assert_eq!(pts[1].amount_sats, 1);
    assert_eq!(pts[1].count, 1);
    let total: u32 = pts.iter().map(|p| p.count).sum();
    assert_eq!(total, 3);
}

#[test]
fn times_before_the_epoch_round_down() {
    let s = set(vec![note("a", 1000, 0, Some(Some(-10))), note("b", 1000, 1, Some(Some(-3600)))]);
    let pts = aggregate_redemptions(&s, 1);
    assert_eq!(pts.len(), 1);
    assert_eq!(pts[0].timestamp, -3600);
    assert_eq!(pts[0].count, 2);
}

#[test]
fn redemptions_per_hour_of_day() {
    let s = set(vec![
        note("a", 1, 0, Some(Some(3600 * 14 + 5))),
        note("b", 1, 1, Some(Some(86400 + 3600 * 14))),
        note("c", 1, 2, Some(Some(0))),
        note("d", 1, 3, Some(Some(-1))),
        note("e", 1, 4, None),
    ]);
    let hours = aggregate_by_hour(&s);
    assert_eq!(hours.len(), 24);
    assert_eq!(hours[14].hour, 14);
    assert_eq!(hours[14].count, 2);
    assert_eq!(hours[0].count, 1);
    assert_eq!(hours[23].count, 1);
    let total: u32 = hours.iter().map(|h| h.count).sum();
    assert_eq!(total, 4);
}

fn order_of(notes: &[Note]) -> Vec<String> {
    notes.iter().map(|n| n.nonce.clone()).collect()
}

#[test]
fn sort_orders() {
    let notes = vec![
        note("x", 1, 3, None),
        note("y", 1, 0, Some(Some(300))),
        note("z", 1, 1, Some(Some(100))),
        note("w", 1, 2, Some(Some(300))),
        note("v", 1, 4, Some(None)),
    ];
    let mut a = notes.clone();
    SortOrder::ImportOrder.sort_notes(&mut a);
    assert_eq!(order_of(&a), vec!["y", "z", "w", "x", "v"]);
    let mut b = notes.clone();
    SortOrder::RedemptionDateAsc.sort_notes(&mut b);
    assert_eq!(order_of(&b), vec!["z", "y", "w", "x", "v"]);
    let mut c = notes.clone();
    SortOrder::RedemptionDateDesc.sort_notes(&mut c);
    assert_eq!(order_of(&c), vec!["y", "w", "z", "x", "v"]);
    assert_eq!(SortOrder::default(), SortOrder::ImportOrder);
}

#[test]
fn sort_is_stable_for_equal_keys() {
    let mut notes = vec![note("first", 1, 5, None), note("second", 1, 5, None), note("third", 1, 1, None)];
    SortOrder::ImportOrder.sort_notes(&mut notes);
    assert_eq!(order_of(&notes), vec!["third", "first", "second"]);
}

#[test]
fn chart_totals_and_emptiness() {
    let s = set(vec![
        note("a", 5000, 0, Some(Some(10))),
        note("b", 2500, 1, Some(Some(90_000))),
        note("c", 2500, 2, None),
    ]);
    let pts = aggregate_redemptions(&s, 24);
    assert_eq!(series_totals(&pts), (7, 2));
    assert!(hours_have_data(&aggregate_by_hour(&s)));
    let empty = set(vec![note("x", 1, 0, None)]);
    assert!(!hours_have_data(&aggregate_by_hour(&empty)));
    assert_eq!(series_totals(&aggregate_redemptions(&empty, 24)), (0, 0));
}

#[test]
fn chart_axis_labels_from_counts() {
    assert_eq!(max_count(&[]), 0);
    assert_eq!(max_count(&[3, 9, 4]), 9);
    assert!(axis_count_labels(&[]).is_empty());
    assert!(axis_count_labels(&[0, 0]).is_empty());
    assert_eq!(axis_count_labels(&[3, 9, 4]), vec!["9".to_string(), "4".to_string(), "0".to_string()]);
    assert_eq!(axis_count_labels(&[1]), vec!["1".to_string(), "0".to_string(), "0".to_string()]);
}
