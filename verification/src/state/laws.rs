//! What the state operations promise across calls: what a lookup finds
//! after a set is added, replaced or removed; what adding notes, checking
//! and marking spent do to a set's notes.

use vstd::prelude::*;
use crate::models::note::{Note, NoteStatus};
use crate::models::note_set::{NoteSet, StatusKind, spec_count_of, spec_find_nonce, spec_total_of};
use crate::models::paper_note::spec_total_msat;
use crate::state::store::{
    AppState, checked_note, checks_marked, notes_added, reindexed, spec_apply_spent, spec_find_set,
    spec_note_update,
};

verus! {

/// What `spec_find_set` finds: the first set with the id, or none.
pub(crate) proof fn lemma_find_set_spec(sets: Seq<NoteSet>, id: u128)
    ensures
        match spec_find_set(sets, id) {
            Some(i) => 0 <= i < sets.len() && sets[i].id == id && forall|j: int|
                0 <= j < i ==> (#[trigger] sets[j]).id != id,
            None => forall|j: int| 0 <= j < sets.len() ==> (#[trigger] sets[j]).id != id,
        },
{
    if exists|i: int| 0 <= i < sets.len() && (#[trigger] sets[i]).id == id {
        let i = choose|i: int| 0 <= i < sets.len() && (#[trigger] sets[i]).id == id;
        lemma_first_set_exists(sets, id, i);
    }
}

proof fn lemma_first_set_exists(sets: Seq<NoteSet>, id: u128, i: int)
    requires
        0 <= i < sets.len(),
        sets[i].id == id,
    ensures
        exists|w: int|
            0 <= w < sets.len() && (#[trigger] sets[w]).id == id && forall|j: int|
                0 <= j < w ==> (#[trigger] sets[j]).id != id,
    decreases i,
{
    if exists|j: int| 0 <= j < i && (#[trigger] sets[j]).id == id {
        let j = choose|j: int| 0 <= j < i && (#[trigger] sets[j]).id == id;
        lemma_first_set_exists(sets, id, j);
    } else {
        assert(forall|j: int| 0 <= j < i ==> (#[trigger] sets[j]).id != id);
    }
}

/// The first set with an id is the one at `i` when no earlier set has it.
proof fn lemma_find_set_at(sets: Seq<NoteSet>, id: u128, i: int)
    requires
        0 <= i < sets.len(),
        sets[i].id == id,
        forall|j: int| 0 <= j < i ==> (#[trigger] sets[j]).id != id,
    ensures
        spec_find_set(sets, id) == Some(i),
{
    lemma_find_set_spec(sets, id);
    let w = spec_find_set(sets, id)->0;
    if w < i {
        assert(sets[w].id != id);
    } else if w > i {
        assert(sets[i].id != id);
    }
}

/// After a note set is added, looking up its id finds it, unless a set
/// with that id was there before; every earlier lookup is unchanged.
pub proof fn lemma_add_then_find(sets: Seq<NoteSet>, set: NoteSet, other: u128)
    ensures
        spec_find_set(sets, set.id) is None ==> spec_find_set(sets.push(set), set.id) == Some(sets.len() as int),
        spec_find_set(sets, other) is Some ==> spec_find_set(sets.push(set), other) == spec_find_set(sets, other),
{
    let after = sets.push(set);
    lemma_find_set_spec(sets, set.id);
    if spec_find_set(sets, set.id) is None {
        assert forall|j: int| 0 <= j < sets.len() implies (#[trigger] after[j]).id != set.id by {
            assert(after[j] == sets[j]);
        }
        lemma_find_set_at(after, set.id, sets.len() as int);
    }
    lemma_find_set_spec(sets, other);
    if let Some(i) = spec_find_set(sets, other) {
        assert forall|j: int| 0 <= j < i implies (#[trigger] after[j]).id != other by {
            assert(after[j] == sets[j]);
        }
        assert(after[i] == sets[i]);
        lemma_find_set_at(after, other, i);
    }
}

/// After the note set with an id is replaced by one with the same id,
/// looking up the id finds the replacement.
pub proof fn lemma_update_then_find(sets: Seq<NoteSet>, id: u128, set: NoteSet)
    requires
        set.id == id,
    ensures
        spec_find_set(sets, id) matches Some(i) ==> spec_find_set(sets.update(i, set), id) == Some(i) && sets.update(
            i,
            set,
        )[i] == set,
{
    lemma_find_set_spec(sets, id);
    if let Some(i) = spec_find_set(sets, id) {
        let after = sets.update(i, set);
        assert forall|j: int| 0 <= j < i implies (#[trigger] after[j]).id != id by {
            assert(after[j] == sets[j]);
        }
        lemma_find_set_at(after, id, i);
    }
}

/// After the note sets with an id are removed, looking up that id finds
/// nothing, and looking up any other id finds the same set as before.
pub proof fn lemma_remove_then_find(sets: Seq<NoteSet>, id: u128, other: u128)
    ensures
        spec_find_set(sets.filter(|s: NoteSet| s.id != id), id) is None,
        other != id ==> match spec_find_set(sets, other) {
            None => spec_find_set(sets.filter(|s: NoteSet| s.id != id), other) is None,
            Some(i) => spec_find_set(sets.filter(|s: NoteSet| s.id != id), other) matches Some(j)
                && sets.filter(|s: NoteSet| s.id != id)[j] == sets[i],
        },
{
    broadcast use vstd::seq_lib::group_filter_ensures;

    let keep = |s: NoteSet| s.id != id;
    let kept = sets.filter(keep);
    assert forall|j: int| 0 <= j < kept.len() implies (#[trigger] kept[j]).id != id by {
        sets.lemma_filter_pred(keep, j);
    }
    lemma_find_set_spec(kept, id);
    if other != id {
        lemma_find_set_spec(sets, other);
        match spec_find_set(sets, other) {
            None => {
                assert forall|j: int| 0 <= j < kept.len() implies (#[trigger] kept[j]).id != other by {
                    assert(kept.contains(kept[j]));
                    sets.lemma_filter_contains_rev(keep, kept[j]);
                    let w = choose|w: int| 0 <= w < sets.len() && sets[w] == kept[j];
                    assert(sets[w].id != other);
                }
                lemma_find_set_spec(kept, other);
            },
            Some(i) => {
                let front = sets.take(i);
                let back = sets.skip(i);
                assert(sets =~= front + back);
                Seq::filter_distributes_over_add(front, back, keep);
                assert(back =~= seq![sets[i]] + back.skip(1));
                back.skip(1).lemma_filter_prepend(sets[i], keep);
                let m = front.filter(keep).len() as int;
                assert(kept[m] == sets[i]);
                assert forall|j: int| 0 <= j < m implies (#[trigger] kept[j]).id != other by {
                    let f = front.filter(keep);
                    assert(kept[j] == f[j]);
                    assert(f.contains(f[j]));
                    front.lemma_filter_contains_rev(keep, f[j]);
                    let w = choose|w: int| 0 <= w < front.len() && front[w] == f[j];
                    assert(front[w] == sets[w]);
                }
                lemma_find_set_at(kept, other, m);
            },
        }
    }
}

/// The total of two sequences of notes one after the other.
proof fn lemma_total_append(a: Seq<Note>, b: Seq<Note>)
    ensures
        spec_total_msat(a + b) == spec_total_msat(a) + spec_total_msat(b),
    decreases b.len(),
{
    if b.len() > 0 {
        lemma_total_append(a, b.drop_last());
        assert((a + b).drop_last() =~= a + b.drop_last());
    } else {
        assert(a + b =~= a);
    }
}

/// Re-indexing notes keeps their total.
proof fn lemma_total_reindexed(notes: Seq<Note>, start: nat)
    ensures
        spec_total_msat(reindexed(notes, start)) == spec_total_msat(notes),
    decreases notes.len(),
{
    if notes.len() > 0 {
        lemma_total_reindexed(notes.drop_last(), start);
        assert(reindexed(notes, start).drop_last() =~= reindexed(notes.drop_last(), start));
    }
}

/// Adding notes to a set keeps its notes in front and appends the new ones:
/// its note count grows by their number and its total by their total.
pub proof fn lemma_add_notes_grows_set(
    new: AppState,
    old: AppState,
    set_id: u128,
    new_notes: Seq<Note>,
    fed: Seq<char>,
    res: Result<usize, String>,
)
    requires
        notes_added(new, old, set_id, new_notes, fed, res),
        res is Ok,
    ensures
        match spec_find_set(old.note_sets@, set_id) {
            Some(i) => {
                &&& new.note_sets@[i].notes@.take(old.note_sets@[i].notes@.len() as int)
                    == old.note_sets@[i].notes@
                &&& new.note_sets@[i].notes@.len() == old.note_sets@[i].notes@.len() + new_notes.len()
                &&& spec_total_msat(new.note_sets@[i].notes@) == spec_total_msat(old.note_sets@[i].notes@)
                    + spec_total_msat(new_notes)
            },
            None => new == old,
        },
{
    if let Some(i) = spec_find_set(old.note_sets@, set_id) {
        let before = old.note_sets@[i].notes@;
        let added = reindexed(new_notes, before.len());
        assert((before + added).take(before.len() as int) =~= before);
        lemma_total_append(before, added);
        lemma_total_reindexed(new_notes, before.len());
    }
}

/// Two note sequences that agree on every note's status and amount have
/// the same counts and totals of each status kind.
proof fn lemma_same_statuses_same_totals(a: Seq<Note>, b: Seq<Note>, k: StatusKind)
    requires
        a.len() == b.len(),
        forall|i: int| 0 <= i < a.len() ==> (#[trigger] a[i]).status == b[i].status && a[i].amount_msat
            == b[i].amount_msat,
    ensures
        spec_total_of(a, k) == spec_total_of(b, k),
        spec_count_of(a, k) == spec_count_of(b, k),
    decreases a.len(),
{
    if a.len() > 0 {
        assert forall|i: int| 0 <= i < a.len() - 1 implies (#[trigger] a.drop_last()[i]).status
            == b.drop_last()[i].status && a.drop_last()[i].amount_msat == b.drop_last()[i].amount_msat by {
            assert(a.drop_last()[i] == a[i]);
            assert(b.drop_last()[i] == b[i]);
        }
        lemma_same_statuses_same_totals(a.drop_last(), b.drop_last(), k);
    }
}

/// A check changes no note's status or amount: after `mark_notes_checked`
/// every set has the same counts and amounts of unspent, spent and error
/// notes as before.
pub proof fn lemma_check_keeps_totals(
    new: Seq<NoteSet>,
    old: Seq<NoteSet>,
    set_id: u128,
    nonces: Seq<Seq<char>>,
    now: i64,
    k: StatusKind,
)
    requires
        checks_marked(new, old, set_id, nonces, now),
    ensures
        new.len() == old.len(),
        forall|i: int|
            0 <= i < old.len() ==> spec_total_of(#[trigger] new[i].notes@, k) == spec_total_of(old[i].notes@, k)
                && spec_count_of(new[i].notes@, k) == spec_count_of(old[i].notes@, k),
{
    if let Some(s) = spec_find_set(old, set_id) {
        let before = old[s].notes@;
        let after = before.map_values(|n: Note| checked_note(n, nonces, now));
        assert(new[s].notes@ == after);
        assert forall|i: int| 0 <= i < before.len() implies (#[trigger] after[i]).status == before[i].status
            && after[i].amount_msat == before[i].amount_msat by {
            assert(after[i] == checked_note(before[i], nonces, now));
        }
        lemma_same_statuses_same_totals(after, before, k);
    }
}

/// What `spec_find_nonce` finds: the first note with the nonce, or none.
pub(crate) proof fn lemma_find_nonce_spec(notes: Seq<Note>, nonce: Seq<char>)
    ensures
        match spec_find_nonce(notes, nonce) {
            Some(i) => 0 <= i < notes.len() && notes[i].nonce@ == nonce && forall|j: int|
                0 <= j < i ==> (#[trigger] notes[j]).nonce@ != nonce,
            None => forall|j: int| 0 <= j < notes.len() ==> (#[trigger] notes[j]).nonce@ != nonce,
        },
{
    if exists|i: int| 0 <= i < notes.len() && (#[trigger] notes[i]).nonce@ == nonce {
        let i = choose|i: int| 0 <= i < notes.len() && (#[trigger] notes[i]).nonce@ == nonce;
        lemma_first_nonce_exists(notes, nonce, i);
    }
}

proof fn lemma_first_nonce_exists(notes: Seq<Note>, nonce: Seq<char>, i: int)
    requires
        0 <= i < notes.len(),
        notes[i].nonce@ == nonce,
    ensures
        exists|w: int|
            0 <= w < notes.len() && (#[trigger] notes[w]).nonce@ == nonce && forall|j: int|
                0 <= j < w ==> (#[trigger] notes[j]).nonce@ != nonce,
    decreases i,
{
    if exists|j: int| 0 <= j < i && (#[trigger] notes[j]).nonce@ == nonce {
        let j = choose|j: int| 0 <= j < i && (#[trigger] notes[j]).nonce@ == nonce;
        lemma_first_nonce_exists(notes, nonce, j);
    } else {
        assert(forall|j: int| 0 <= j < i ==> (#[trigger] notes[j]).nonce@ != nonce);
    }
}

/// Notes with the same nonces in the same places find the same first note
/// for every nonce.
proof fn lemma_same_nonces_same_find(a: Seq<Note>, b: Seq<Note>, nonce: Seq<char>)
    requires
        a.len() == b.len(),
        forall|i: int| 0 <= i < a.len() ==> (#[trigger] a[i]).nonce@ == b[i].nonce@,
    ensures
        spec_find_nonce(a, nonce) == spec_find_nonce(b, nonce),
{
    lemma_find_nonce_spec(a, nonce);
    lemma_find_nonce_spec(b, nonce);
    match (spec_find_nonce(a, nonce), spec_find_nonce(b, nonce)) {
        (Some(x), Some(y)) => {
            if x < y {
                assert(b[x].nonce@ == nonce);
            } else if y < x {
                assert(a[y].nonce@ == nonce);
            }
        },
        (Some(x), None) => {
            assert(b[x].nonce@ == nonce);
        },
        (None, Some(y)) => {
            assert(a[y].nonce@ == nonce);
        },
        (None, None) => {},
    }
}

/// Marking spent changes statuses only: the notes keep their number and
/// their nonces.
proof fn lemma_apply_spent_keeps_nonces(notes: Seq<Note>, results: Seq<(String, crate::models::note::SpendInfo)>, now: i64)
    ensures
        spec_apply_spent(notes, results, now).len() == notes.len(),
        forall|i: int|
            0 <= i < notes.len() ==> (#[trigger] spec_apply_spent(notes, results, now)[i]).nonce@ == notes[i].nonce@,
    decreases results.len(),
{
    if results.len() > 0 {
        lemma_apply_spent_keeps_nonces(notes, results.drop_last(), now);
        let prev = spec_apply_spent(notes, results.drop_last(), now);
        lemma_find_nonce_spec(prev, results.last().0@);
        assert forall|i: int| 0 <= i < notes.len() implies (#[trigger] spec_apply_spent(notes, results, now)[i]).nonce@
            == notes[i].nonce@ by {
            assert(prev[i].nonce@ == notes[i].nonce@);
        }
    }
}

/// A nonce reported spent shows as spent: after `mark_notes_spent`, the
/// first note of the set with each reported nonce is spent.
pub proof fn lemma_reported_nonces_spent(notes: Seq<Note>, results: Seq<(String, crate::models::note::SpendInfo)>, now: i64)
    ensures
        forall|m: int|
            0 <= m < results.len() ==> ((#[trigger] spec_find_nonce(notes, results[m].0@)) matches Some(k)
                ==> spec_apply_spent(notes, results, now)[k].status is Spent),
    decreases results.len(),
{
    if results.len() > 0 {
        let earlier = results.drop_last();
        let last = results.last();
        lemma_reported_nonces_spent(notes, earlier, now);
        lemma_apply_spent_keeps_nonces(notes, earlier, now);
        let prev = spec_apply_spent(notes, earlier, now);
        lemma_same_nonces_same_find(prev, notes, last.0@);
        lemma_find_nonce_spec(notes, last.0@);
        let after = spec_apply_spent(notes, results, now);
        assert(after == spec_note_update(prev, last.0@, NoteStatus::Spent(last.1), now));
        assert forall|m: int| 0 <= m < results.len() implies ((#[trigger] spec_find_nonce(notes, results[m].0@))
            matches Some(k) ==> after[k].status is Spent) by {
            if let Some(k) = spec_find_nonce(notes, results[m].0@) {
                lemma_find_nonce_spec(notes, results[m].0@);
                if m < results.len() - 1 {
                    assert(results[m] == earlier[m]);
                    assert(prev[k].status is Spent);
                }
            }
        }
    }
}

/// Marking notes spent never makes a note unspent: the notes keep their
/// number, and a spent note stays spent.
pub proof fn lemma_spent_stays_spent(notes: Seq<Note>, results: Seq<(String, crate::models::note::SpendInfo)>, now: i64)
    ensures
        spec_apply_spent(notes, results, now).len() == notes.len(),
        forall|k: int|
            0 <= k < notes.len() && notes[k].status is Spent ==> (#[trigger] spec_apply_spent(notes, results, now)[k]).status is Spent,
    decreases results.len(),
{
    if results.len() > 0 {
        lemma_spent_stays_spent(notes, results.drop_last(), now);
        let prev = spec_apply_spent(notes, results.drop_last(), now);
        lemma_find_nonce_spec(prev, results.last().0@);
        assert forall|k: int| 0 <= k < notes.len() && notes[k].status is Spent implies (
        #[trigger] spec_apply_spent(notes, results, now)[k]).status is Spent by {
            assert(prev[k].status is Spent);
        }
    }
}

/// After a check, the notes of every set keep their number and statuses.
pub proof fn lemma_check_keeps_statuses(
    new: Seq<NoteSet>,
    old: Seq<NoteSet>,
    set_id: u128,
    nonces: Seq<Seq<char>>,
    now: i64,
)
    requires
        checks_marked(new, old, set_id, nonces, now),
    ensures
        new.len() == old.len(),
        forall|i: int| 0 <= i < old.len() ==> (#[trigger] new[i]).notes@.len() == old[i].notes@.len(),
        forall|i: int, k: int|
            0 <= i < old.len() && 0 <= k < old[i].notes@.len() ==> (#[trigger] new[i].notes@[k]).status
                == old[i].notes@[k].status,
{
    if let Some(s) = spec_find_set(old, set_id) {
        let before = old[s].notes@;
        assert forall|i: int| 0 <= i < old.len() implies (#[trigger] new[i]).notes@.len() == old[i].notes@.len() by {
            if i != s {
                assert(new[i] == old[i]);
            }
        }
        assert forall|i: int, k: int|
            0 <= i < old.len() && 0 <= k < old[i].notes@.len() implies (#[trigger] new[i].notes@[k]).status
                == old[i].notes@[k].status by {
            if i == s {
                assert(new[i].notes@[k] == checked_note(before[k], nonces, now));
            } else {
                assert(new[i] == old[i]);
            }
        }
    }
}

} // verus!
