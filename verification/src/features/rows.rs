//! The text shown in a note set card and in the row of a paper note.

use vstd::prelude::*;
use crate::models::paper_note::{
    PaperNote, PaperNoteStatus, is_denomination_breakdown, spec_first_spend_info, spec_paper_status,
};
use crate::state::store::{fed_prefix, fed_prefix_cut_ok, fed_prefix_of};
use crate::text::{decimal_string, spec_decimal};
use crate::utils::time::{format_relative_time_at, spec_relative_time};

verus! {

/// What a note set card shows for its federation: a notice before the
/// first import, else the first 16 bytes of the id and an ellipsis.
pub open spec fn spec_federation_label(fed: Seq<char>) -> Seq<char> {
    if fed.len() == 0 {
        "No notes imported yet"@
    } else {
        fed_prefix(fed) + "..."@
    }
}

/// The federation line of a note set card.
pub fn federation_label(federation_id: &str) -> (res: String)
    requires
        federation_id@.len() > 0 ==> fed_prefix_cut_ok(federation_id@),
    ensures
        res@ == spec_federation_label(federation_id@),
{
    if federation_id.is_empty() {
        String::from_str("No notes imported yet")
    } else {
        let mut s = fed_prefix_of(federation_id);
        s.append("...");
        s
    }
}

/// One denomination of a breakdown: whole satoshis, with a count in front
/// when there is more than one note of it, as in `"3x100"`.
pub open spec fn spec_denomination(amount: u64, count: usize) -> Seq<char> {
    if count > 1 {
        spec_decimal(count as nat) + "x"@ + spec_decimal((amount / 1000) as nat)
    } else {
        spec_decimal((amount / 1000) as nat)
    }
}

/// The denominations of a breakdown joined with `" + "`.
pub open spec fn spec_denominations(b: Seq<(u64, usize)>) -> Seq<char>
    decreases b.len(),
{
    if b.len() == 0 {
        Seq::empty()
    } else if b.len() == 1 {
        spec_denomination(b[0].0, b[0].1)
    } else {
        spec_denominations(b.drop_last()) + " + "@ + spec_denomination(b.last().0, b.last().1)
    }
}

/// The breakdown line of a paper note of several ecash notes, as in
/// `"3 notes: 2x100 + 500"`.
pub open spec fn spec_denomination_summary(n: nat, b: Seq<(u64, usize)>) -> Seq<char> {
    spec_decimal(n) + " notes: "@ + spec_denominations(b)
}

fn denomination_text(amount: u64, count: usize) -> (res: String)
    ensures
        res@ == spec_denomination(amount, count),
{
    if count > 1 {
        let mut s = decimal_string(count as u64);
        s.append("x");
        let sats = decimal_string(amount / 1000);
        s.append(sats.as_str());
        s
    } else {
        decimal_string(amount / 1000)
    }
}

/// The breakdown line of a paper note, for a paper note of more than one
/// ecash note.
pub fn denomination_summary(paper_note: &PaperNote) -> (res: Option<String>)
    ensures
        paper_note.ecash_notes@.len() <= 1 ==> res is None,
        paper_note.ecash_notes@.len() > 1 ==> exists|b: Seq<(u64, usize)>|
            #[trigger] is_denomination_breakdown(paper_note.ecash_notes@, b) && (res matches Some(s) && s@
                == spec_denomination_summary(paper_note.ecash_notes@.len(), b)),
{
    let n = paper_note.ecash_note_count();
    if n <= 1 {
        return None;
    }
    let breakdown = paper_note.denomination_breakdown();
    let mut parts = String::new();
    let mut i: usize = 0;
    while i < breakdown.len()
        invariant
            i <= breakdown@.len(),
            parts@ == spec_denominations(breakdown@.take(i as int)),
        decreases breakdown@.len() - i,
    {
        assert(breakdown@.take(i + 1).drop_last() =~= breakdown@.take(i as int));
        assert(breakdown@.take(i + 1).last() == breakdown@[i as int]);
        if i > 0 {
            parts.append(" + ");
        } else {
            assert(parts@ =~= Seq::<char>::empty());
            assert(breakdown@.take(1)[0] == breakdown@[0]);
        }
        let (amount, count) = breakdown[i];
        let d = denomination_text(amount, count);
        parts.append(d.as_str());
        i = i + 1;
    }
    assert(breakdown@.take(breakdown@.len() as int) =~= breakdown@);
    let mut s = decimal_string(n as u64);
    s.append(" notes: ");
    s.append(parts.as_str());
    Some(s)
}

/// The detail line of a paper note's status at time `now`: nothing when
/// unspent; for a spent one, the session and how long ago (if known) of
/// its first spent ecash note; a fixed notice otherwise.
pub open spec fn spec_status_info(p: PaperNote, now: i64) -> Option<Seq<char>> {
    match spec_paper_status(p.ecash_notes@) {
        PaperNoteStatus::Unspent => None,
        PaperNoteStatus::Spent => match spec_first_spend_info(p.ecash_notes@) {
            None => None,
            Some(info) => Some(
                "Session #"@ + spec_decimal(info.session_index as nat) + " - "@ + match info.estimated_timestamp {
                    Some(t) => spec_relative_time(now - t),
                    None => "Unknown time"@,
                },
            ),
        },
        PaperNoteStatus::PartiallySpent => Some("Some denominations spent"@),
        PaperNoteStatus::Error => Some("Check error on one or more notes"@),
    }
}

/// The detail line of a paper note's status, at time `now`.
pub fn status_info_at(paper_note: &PaperNote, now: i64) -> (res: Option<String>)
    ensures
        match spec_status_info(*paper_note, now) {
            None => res is None,
            Some(t) => res matches Some(s) && s@ == t,
        },
{
    match paper_note.status() {
        PaperNoteStatus::Unspent => None,
        PaperNoteStatus::Spent => match paper_note.spend_info() {
            None => None,
            Some(info) => {
                let mut s = String::from_str("Session #");
                let n = decimal_string(info.session_index);
                s.append(n.as_str());
                s.append(" - ");
                let when = match info.estimated_timestamp {
                    Some(t) => format_relative_time_at(t, now),
                    None => String::from_str("Unknown time"),
                };
                s.append(when.as_str());
                Some(s)
            },
        },
        PaperNoteStatus::PartiallySpent => Some(String::from_str("Some denominations spent")),
        PaperNoteStatus::Error => Some(String::from_str("Check error on one or more notes")),
    }
}

/// The detail line of a paper note's status, now.
pub fn status_info(paper_note: &PaperNote) -> (res: Option<String>)
    ensures
        exists|now: i64|
            match #[trigger] spec_status_info(*paper_note, now) {
                None => res is None,
                Some(t) => res matches Some(s) && s@ == t,
            },
{
    let now = crate::external::current_unix_time();
    status_info_at(paper_note, now)
}

} // verus!
