//! Refreshing a note set against the observer: what to ask, and what to do
//! with the answer. The request itself is made outside.

use vstd::prelude::*;
use crate::external::current_unix_time;
use crate::models::note::{Note, SpendInfo};
use crate::models::note_set::{NoteSet, spec_unspent_nonces};
use crate::models::note_set::spec_find_nonce;
use crate::state::laws::{lemma_check_keeps_statuses, lemma_reported_nonces_spent, lemma_spent_stays_spent};
use crate::state::store::{
    AppState, ToastVariant, spec_apply_spent, spec_find_set, spent_marked, checks_marked, str_views,
};
use crate::text::{decimal_string, spec_decimal};

verus! {

/// What a refresh needs to do next.
#[derive(Debug)]
pub enum RefreshPlan {
    /// Nothing to ask the observer.
    Skip,
    /// Ask the observer which of these nonces of this federation are spent.
    Check { federation_id: String, nonces: Vec<String> },
}

/// The views of a list of strings.
pub open spec fn string_views(v: Seq<String>) -> Seq<Seq<char>> {
    v.map_values(|s: String| s@)
}

/// The unspent nonces of a note set, as owned strings.
fn unspent_nonce_strings(set: &NoteSet) -> (res: Vec<String>)
    ensures
        string_views(res@) == spec_unspent_nonces(set.notes@),
{
    let refs = set.unspent_nonces();
    let mut res: Vec<String> = Vec::new();
    let mut i: usize = 0;
    while i < refs.len()
        invariant
            i <= refs@.len(),
            refs@.map_values(|s: &str| s@) == spec_unspent_nonces(set.notes@),
            string_views(res@) == refs@.map_values(|s: &str| s@).take(i as int),
        decreases refs@.len() - i,
    {
        let ghost prev = res@;
        let s = String::from_str(refs[i]);
        assert(s@ == refs@.map_values(|s: &str| s@)[i as int]);
        res.push(s);
        assert(res@ == prev.push(s));
        assert(string_views(res@) =~= string_views(prev).push(s@));
        i = i + 1;
        assert(string_views(res@) =~= refs@.map_values(|s: &str| s@).take(i as int));
    }
    assert(refs@.map_values(|s: &str| s@).take(refs@.len() as int) =~= refs@.map_values(|s: &str| s@));
    res
}

/// Borrowed views of owned strings.
fn as_strs(v: &Vec<String>) -> (res: Vec<&str>)
    ensures
        str_views(res@) == string_views(v@),
{
    let mut res: Vec<&str> = Vec::new();
    let mut i: usize = 0;
    while i < v.len()
        invariant
            i <= v@.len(),
            str_views(res@) == string_views(v@).take(i as int),
        decreases v@.len() - i,
    {
        let ghost prev = res@;
        let x = v[i].as_str();
        assert(x@ == string_views(v@)[i as int]);
        res.push(x);
        assert(res@ == prev.push(x));
        assert(str_views(res@) =~= str_views(prev).push(x@));
        i = i + 1;
        assert(str_views(res@) =~= string_views(v@).take(i as int));
    }
    assert(string_views(v@).take(v@.len() as int) =~= string_views(v@));
    res
}

/// The plan of a manual refresh of the set `set_id`: check its unspent
/// nonces; nothing when the set is gone; with no unspent notes, a notice
/// instead.
pub fn begin_refresh(state: &mut AppState, set_id: u128) -> (plan: RefreshPlan)
    ensures
        match spec_find_set(old(state).note_sets@, set_id) {
            None => plan is Skip && *final(state) == *old(state),
            Some(i) => {
                let nonces = spec_unspent_nonces(old(state).note_sets@[i].notes@);
                if nonces.len() == 0 {
                    &&& plan is Skip
                    &&& final(state).note_sets == old(state).note_sets
                    &&& final(state).toasts@.drop_last() == old(state).toasts@
                    &&& final(state).toasts@.last().message@ == "No unspent notes to check"@
                    &&& final(state).toasts@.last().variant == ToastVariant::Info
                } else {
                    &&& plan matches RefreshPlan::Check { federation_id, nonces: ns }
                        && federation_id@ == old(state).note_sets@[i].federation_id@ && string_views(ns@)
                        == nonces
                    &&& *final(state) == *old(state)
                }
            },
        },
{
    let set = match state.get_note_set(set_id) {
        None => return RefreshPlan::Skip,
        Some(s) => s,
    };
    let nonces = unspent_nonce_strings(&set);
    if nonces.len() == 0 {
        state.add_toast(String::from_str("No unspent notes to check"), ToastVariant::Info);
        return RefreshPlan::Skip;
    }
    RefreshPlan::Check { federation_id: set.federation_id, nonces }
}

/// The plan of the refresh that follows an import: check the unspent
/// nonces of the set, silently skipped when the set is gone, has no
/// federation yet, or has no unspent note.
pub fn begin_auto_refresh(state: &AppState, set_id: u128) -> (plan: RefreshPlan)
    ensures
        match spec_find_set(state.note_sets@, set_id) {
            None => plan is Skip,
            Some(i) => {
                let set = state.note_sets@[i];
                let nonces = spec_unspent_nonces(set.notes@);
                if set.federation_id@.len() == 0 || nonces.len() == 0 {
                    plan is Skip
                } else {
                    plan matches RefreshPlan::Check { federation_id, nonces: ns } && federation_id@
                        == set.federation_id@ && string_views(ns@) == nonces
                }
            },
        },
{
    let set = match state.get_note_set(set_id) {
        None => return RefreshPlan::Skip,
        Some(s) => s,
    };
    if set.federation_id.as_str().is_empty() {
        return RefreshPlan::Skip;
    }
    let nonces = unspent_nonce_strings(&set);
    if nonces.len() == 0 {
        return RefreshPlan::Skip;
    }
    RefreshPlan::Check { federation_id: set.federation_id, nonces }
}

/// The notice after a manual refresh that found `n` spent notes.
pub open spec fn msg_refreshed(n: nat) -> Seq<char> {
    if n > 0 {
        spec_decimal(n) + " notes marked as spent"@
    } else {
        "All notes still unspent"@
    }
}

/// The state after the answer to a check of `nonces` in set `set_id`: the
/// reported nonces marked spent (when there are any), then a check recorded
/// on the checked unspent nonces, all at `now`.
pub open spec fn check_applied(
    new: Seq<NoteSet>,
    old: Seq<NoteSet>,
    set_id: u128,
    nonces: Seq<Seq<char>>,
    results: Seq<(String, SpendInfo)>,
    now: i64,
) -> bool {
    if results.len() > 0 {
        exists|mid: Seq<NoteSet>|
            #[trigger] spent_marked(mid, old, set_id, results, now) && checks_marked(
                new,
                mid,
                set_id,
                nonces,
                now,
            )
    } else {
        checks_marked(new, old, set_id, nonces, now)
    }
}

/// Applies the observer's answer to a manual refresh of `nonces` in set
/// `set_id` at time `now`: marks the spent notes, records the check, and
/// tells the user; on failure only tells the user.
pub fn finish_refresh_at(
    state: &mut AppState,
    set_id: u128,
    nonces: &Vec<String>,
    outcome: Result<Vec<(String, SpendInfo)>, String>,
    now: i64,
)
    ensures
        final(state).settings == old(state).settings,
        final(state).known_federations == old(state).known_federations,
        final(state).toasts@.drop_last() == old(state).toasts@,
        match outcome {
            Ok(results) => {
                &&& check_applied(
                    final(state).note_sets@,
                    old(state).note_sets@,
                    set_id,
                    string_views(nonces@),
                    results@,
                    now,
                )
                &&& final(state).toasts@.last().message@ == msg_refreshed(results@.len())
                &&& final(state).toasts@.last().variant == (if results@.len() > 0 {
                    ToastVariant::Success
                } else {
                    ToastVariant::Info
                })
            },
            Err(e) => {
                &&& final(state).note_sets == old(state).note_sets
                &&& final(state).toasts@.last().message@ == "Refresh failed: "@ + e@
                &&& final(state).toasts@.last().variant == ToastVariant::Error
            },
        },
{
    match outcome {
        Ok(results) => {
            let spent_count = results.len();
            if spent_count > 0 {
                state.mark_notes_spent_at(set_id, results, now);
            }
            let refs = as_strs(nonces);
            state.mark_notes_checked_at(set_id, refs.as_slice(), now);
            if spent_count > 0 {
                let mut msg = decimal_string(spent_count as u64);
                msg.append(" notes marked as spent");
                state.add_toast(msg, ToastVariant::Success);
            } else {
                state.add_toast(String::from_str("All notes still unspent"), ToastVariant::Info);
            }
        },
        Err(e) => {
            let mut msg = String::from_str("Refresh failed: ");
            msg.append(e.as_str());
            state.add_toast(msg, ToastVariant::Error);
        },
    }
}

/// Applies the observer's answer to a manual refresh, now.
pub fn finish_refresh(
    state: &mut AppState,
    set_id: u128,
    nonces: &Vec<String>,
    outcome: Result<Vec<(String, SpendInfo)>, String>,
)
    ensures
        final(state).settings == old(state).settings,
        final(state).known_federations == old(state).known_federations,
        final(state).toasts@.drop_last() == old(state).toasts@,
        match outcome {
            Ok(results) => {
                &&& exists|now: i64|
                    #[trigger] check_applied(
                        final(state).note_sets@,
                        old(state).note_sets@,
                        set_id,
                        string_views(nonces@),
                        results@,
                        now,
                    )
                &&& final(state).toasts@.last().message@ == msg_refreshed(results@.len())
            },
            Err(e) => {
                &&& final(state).note_sets == old(state).note_sets
                &&& final(state).toasts@.last().message@ == "Refresh failed: "@ + e@
            },
        },
{
    let now = current_unix_time();
    finish_refresh_at(state, set_id, nonces, outcome, now);
}

/// The notice after an automatic refresh that found `n > 0` spent notes.
pub open spec fn msg_auto_refreshed(n: nat) -> Seq<char> {
    "Auto-refresh: "@ + spec_decimal(n) + " notes marked as spent"@
}

/// Applies the observer's answer to the refresh after an import at time
/// `now`: marks the spent notes (telling the user how many, if any) and
/// records the check; on failure tells the user.
pub fn finish_auto_refresh_at(
    state: &mut AppState,
    set_id: u128,
    nonces: &Vec<String>,
    outcome: Result<Vec<(String, SpendInfo)>, String>,
    now: i64,
)
    ensures
        final(state).settings == old(state).settings,
        final(state).known_federations == old(state).known_federations,
        match outcome {
            Ok(results) => {
                &&& check_applied(
                    final(state).note_sets@,
                    old(state).note_sets@,
                    set_id,
                    string_views(nonces@),
                    results@,
                    now,
                )
                &&& if results@.len() > 0 {
                    &&& final(state).toasts@.drop_last() == old(state).toasts@
                    &&& final(state).toasts@.last().message@ == msg_auto_refreshed(results@.len())
                    &&& final(state).toasts@.last().variant == ToastVariant::Success
                } else {
                    final(state).toasts == old(state).toasts
                }
            },
            Err(e) => {
                &&& final(state).note_sets == old(state).note_sets
                &&& final(state).toasts@.drop_last() == old(state).toasts@
                &&& final(state).toasts@.last().message@ == "Auto-refresh failed: "@ + e@
                &&& final(state).toasts@.last().variant == ToastVariant::Error
            },
        },
{
    match outcome {
        Ok(results) => {
            let spent_count = results.len();
            if spent_count > 0 {
                state.mark_notes_spent_at(set_id, results, now);
                let mut msg = String::from_str("Auto-refresh: ");
                let n = decimal_string(spent_count as u64);
                msg.append(n.as_str());
                msg.append(" notes marked as spent");
                state.add_toast(msg, ToastVariant::Success);
            }
            let refs = as_strs(nonces);
            state.mark_notes_checked_at(set_id, refs.as_slice(), now);
        },
        Err(e) => {
            let mut msg = String::from_str("Auto-refresh failed: ");
            msg.append(e.as_str());
            state.add_toast(msg, ToastVariant::Error);
        },
    }
}

/// Applies the observer's answer to the refresh after an import, now.
pub fn finish_auto_refresh(
    state: &mut AppState,
    set_id: u128,
    nonces: &Vec<String>,
    outcome: Result<Vec<(String, SpendInfo)>, String>,
)
    ensures
        final(state).settings == old(state).settings,
        final(state).known_federations == old(state).known_federations,
        match outcome {
            Ok(results) => exists|now: i64|
                #[trigger] check_applied(
                    final(state).note_sets@,
                    old(state).note_sets@,
                    set_id,
                    string_views(nonces@),
                    results@,
                    now,
                ),
            Err(e) => final(state).note_sets == old(state).note_sets,
        },
{
    let now = current_unix_time();
    finish_auto_refresh_at(state, set_id, nonces, outcome, now);
}

/// Spent statuses carry over to notes with the same statuses.
proof fn lemma_statuses_carry(
    a: Seq<Note>,
    b: Seq<Note>,
    notes: Seq<Note>,
    results: Seq<(String, SpendInfo)>,
)
    requires
        a.len() == notes.len(),
        b.len() == a.len(),
        forall|k: int| 0 <= k < a.len() ==> (#[trigger] b[k]).status == a[k].status,
        forall|m: int|
            0 <= m < results.len() ==> ((#[trigger] spec_find_nonce(notes, results[m].0@)) matches Some(k)
                ==> a[k].status is Spent),
    ensures
        forall|m: int|
            0 <= m < results.len() ==> ((#[trigger] spec_find_nonce(notes, results[m].0@)) matches Some(k)
                ==> b[k].status is Spent),
{
    assert forall|m: int| 0 <= m < results.len() implies ((#[trigger] spec_find_nonce(notes, results[m].0@))
        matches Some(k) ==> b[k].status is Spent) by {
        if let Some(k) = spec_find_nonce(notes, results[m].0@) {
            crate::state::laws::lemma_find_nonce_spec(notes, results[m].0@);
            assert(b[k].status == a[k].status);
        }
    }
}

/// In `after`, the first note of `before` with each nonce of `results` is
/// spent.
#[verifier::opaque]
pub open spec fn reported_spent(before: Seq<Note>, after: Seq<Note>, results: Seq<(String, SpendInfo)>) -> bool {
    forall|m: int|
        0 <= m < results.len() ==> ((#[trigger] spec_find_nonce(before, results[m].0@)) matches Some(k)
            ==> after[k].status is Spent)
}

/// The nonces reported spent are spent after marking them and anything that
/// keeps statuses.
proof fn lemma_reported_after_check(
    before: Seq<Note>,
    after: Seq<Note>,
    checked: Seq<Note>,
    results: Seq<(String, SpendInfo)>,
    now: i64,
)
    requires
        after == spec_apply_spent(before, results, now),
        checked.len() == after.len(),
        forall|k: int| 0 <= k < after.len() ==> (#[trigger] checked[k]).status == after[k].status,
    ensures
        reported_spent(before, checked, results),
{
    reveal(reported_spent);
    lemma_reported_nonces_spent(before, results, now);
    lemma_spent_stays_spent(before, results, now);
    lemma_statuses_carry(after, checked, before, results);
}

/// What marking spent did to the sets, when the set was found.
proof fn lemma_spent_marked_facts(
    mid: Seq<NoteSet>,
    old: Seq<NoteSet>,
    s: int,
    set_id: u128,
    results: Seq<(String, SpendInfo)>,
    now: i64,
)
    requires
        spec_find_set(old, set_id) == Some(s),
        spent_marked(mid, old, set_id, results, now),
    ensures
        0 <= s < old.len(),
        mid.len() == old.len(),
        forall|i: int| 0 <= i < old.len() && i != s ==> #[trigger] mid[i] == old[i],
        mid[s].notes@ == spec_apply_spent(old[s].notes@, results, now),
{
    crate::state::laws::lemma_find_set_spec(old, set_id);
}

/// Statuses of every set after marking spent (only set `s` changed, its
/// notes as `spec_apply_spent` says) and then keeping statuses.
proof fn lemma_marked_then_kept(
    new: Seq<NoteSet>,
    mid: Seq<NoteSet>,
    old: Seq<NoteSet>,
    s: int,
    results: Seq<(String, SpendInfo)>,
    now: i64,
)
    requires
        0 <= s < old.len(),
        mid.len() == old.len(),
        forall|i: int| 0 <= i < old.len() && i != s ==> #[trigger] mid[i] == old[i],
        mid[s].notes@ == spec_apply_spent(old[s].notes@, results, now),
        new.len() == mid.len(),
        forall|i: int| 0 <= i < mid.len() ==> (#[trigger] new[i]).notes@.len() == mid[i].notes@.len(),
        forall|i: int, k: int|
            0 <= i < mid.len() && 0 <= k < mid[i].notes@.len() ==> (#[trigger] new[i].notes@[k]).status
                == mid[i].notes@[k].status,
    ensures
        forall|i: int| 0 <= i < old.len() ==> (#[trigger] new[i]).notes@.len() == old[i].notes@.len(),
        forall|i: int, k: int|
            0 <= i < old.len() && 0 <= k < old[i].notes@.len() && old[i].notes@[k].status is Spent
                ==> (#[trigger] new[i].notes@[k]).status is Spent,
        reported_spent(old[s].notes@, new[s].notes@, results),
{
    let before = old[s].notes@;
    let after = mid[s].notes@;
    lemma_spent_stays_spent(before, results, now);
    assert forall|i: int| 0 <= i < old.len() implies (#[trigger] new[i]).notes@.len() == old[i].notes@.len() by {
        if i != s {
            assert(mid[i] == old[i]);
        }
        assert(new[i].notes@.len() == mid[i].notes@.len());
    }
    assert forall|i: int, k: int|
        0 <= i < old.len() && 0 <= k < old[i].notes@.len() && old[i].notes@[k].status is Spent
            implies (#[trigger] new[i].notes@[k]).status is Spent by {
        if i != s {
            assert(mid[i] == old[i]);
        }
        assert(new[i].notes@[k].status == mid[i].notes@[k].status);
    }
    assert(new[s].notes@.len() == after.len());
    assert forall|k: int| 0 <= k < after.len() implies (#[trigger] new[s].notes@[k]).status == after[k].status by {
        assert(new[s].notes@[k].status == mid[s].notes@[k].status);
    }
    lemma_reported_after_check(before, after, new[s].notes@, results, now);
}

/// A refresh never makes a spent note unspent, and every nonce the observer
/// reports spent shows as spent afterwards: after the answer to a check of a
/// set is applied, the sets keep their notes, those spent before are still
/// spent, and in the checked set the first note with each reported nonce is
/// spent (`reported_spent`).
pub proof fn lemma_refresh_outcome(
    new: Seq<NoteSet>,
    old: Seq<NoteSet>,
    set_id: u128,
    nonces: Seq<Seq<char>>,
    results: Seq<(String, SpendInfo)>,
    now: i64,
)
    requires
        check_applied(new, old, set_id, nonces, results, now),
    ensures
        new.len() == old.len(),
        forall|i: int| 0 <= i < old.len() ==> (#[trigger] new[i]).notes@.len() == old[i].notes@.len(),
        forall|i: int, k: int|
            0 <= i < old.len() && 0 <= k < old[i].notes@.len() && old[i].notes@[k].status is Spent
                ==> (#[trigger] new[i].notes@[k]).status is Spent,
        spec_find_set(old, set_id) matches Some(s) ==> reported_spent(old[s].notes@, new[s].notes@, results),
{
    if results.len() > 0 {
        let mid = choose|mid: Seq<NoteSet>|
            #[trigger] spent_marked(mid, old, set_id, results, now) && checks_marked(new, mid, set_id, nonces, now);
        match spec_find_set(old, set_id) {
            None => {
                assert(mid == old);
                lemma_check_keeps_statuses(new, mid, set_id, nonces, now);
            },
            Some(s) => {
                lemma_spent_marked_facts(mid, old, s, set_id, results, now);
                lemma_check_keeps_statuses(new, mid, set_id, nonces, now);
                lemma_marked_then_kept(new, mid, old, s, results, now);
            },
        }
    } else {
        lemma_check_keeps_statuses(new, old, set_id, nonces, now);
        if let Some(s) = spec_find_set(old, set_id) {
            reveal(reported_spent);
        }
    }
}

} // verus!
