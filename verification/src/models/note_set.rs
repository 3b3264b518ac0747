//! A named set of ecash notes of one federation, with its statistics.

use vstd::prelude::*;
use crate::external::{current_unix_time, random_id};
use crate::models::note::{Note, NoteStatus};
use crate::models::paper_note::{
    PaperNote, PaperNoteStatus, group_into_paper_notes, is_paper_note_grouping, notes_with_id,
    spec_paper_status, spec_total_msat, sum_amounts,
};
use crate::text::str_eq;

verus! {

/// A kind of note status, for selecting notes.
#[derive(Clone, Copy, Debug, PartialEq, Eq, Structural)]
pub enum StatusKind {
    Unspent,
    Spent,
    Error,
}

/// The status of `n` is of kind `k`.
pub open spec fn has_kind(n: Note, k: StatusKind) -> bool {
    match k {
        StatusKind::Unspent => n.status is Unspent,
        StatusKind::Spent => n.status is Spent,
        StatusKind::Error => n.status is Error,
    }
}

fn note_has_kind(n: &Note, k: StatusKind) -> (res: bool)
    ensures
        res == has_kind(*n, k),
{
    match k {
        StatusKind::Unspent => n.status.is_unspent(),
        StatusKind::Spent => n.status.is_spent(),
        StatusKind::Error => n.status.is_error(),
    }
}

/// Sum of the amounts of the notes of status kind `k`.
pub open spec fn spec_total_of(notes: Seq<Note>, k: StatusKind) -> nat
    decreases notes.len(),
{
    if notes.len() == 0 {
        0
    } else {
        spec_total_of(notes.drop_last(), k) + if has_kind(notes.last(), k) {
            notes.last().amount_msat as nat
        } else {
            0nat
        }
    }
}

/// Number of notes of status kind `k`.
pub open spec fn spec_count_of(notes: Seq<Note>, k: StatusKind) -> nat
    decreases notes.len(),
{
    if notes.len() == 0 {
        0
    } else {
        spec_count_of(notes.drop_last(), k) + if has_kind(notes.last(), k) {
            1nat
        } else {
            0nat
        }
    }
}

/// The nonces of the unspent notes, in order.
pub open spec fn spec_unspent_nonces(notes: Seq<Note>) -> Seq<Seq<char>>
    decreases notes.len(),
{
    if notes.len() == 0 {
        Seq::empty()
    } else {
        let prev = spec_unspent_nonces(notes.drop_last());
        if notes.last().status is Unspent {
            prev.push(notes.last().nonce@)
        } else {
            prev
        }
    }
}

proof fn lemma_total_of_prefix(notes: Seq<Note>, k: StatusKind, i: int)
    requires
        0 <= i <= notes.len(),
    ensures
        spec_total_of(notes.take(i), k) <= spec_total_of(notes, k),
    decreases notes.len(),
{
    if i < notes.len() {
        assert(notes.drop_last().take(i) =~= notes.take(i));
        lemma_total_of_prefix(notes.drop_last(), k, i);
    } else {
        assert(notes.take(i) =~= notes);
    }
}

proof fn lemma_count_of_bound(notes: Seq<Note>, k: StatusKind)
    ensures
        spec_count_of(notes, k) <= notes.len(),
    decreases notes.len(),
{
    if notes.len() > 0 {
        lemma_count_of_bound(notes.drop_last(), k);
    }
}

fn total_of(notes: &Vec<Note>, k: StatusKind) -> (total: u64)
    requires
        spec_total_of(notes@, k) <= u64::MAX,
    ensures
        total == spec_total_of(notes@, k),
{
    let mut total: u64 = 0;
    let mut i: usize = 0;
    while i < notes.len()
        invariant
            i <= notes.len(),
            spec_total_of(notes@, k) <= u64::MAX,
            total == spec_total_of(notes@.take(i as int), k),
        decreases notes.len() - i,
    {
        proof {
            assert(notes@.take(i + 1).drop_last() =~= notes@.take(i as int));
            lemma_total_of_prefix(notes@, k, i + 1);
        }
        if note_has_kind(&notes[i], k) {
            total = total + notes[i].amount_msat;
        }
        i = i + 1;
    }
    assert(notes@.take(notes.len() as int) =~= notes@);
    total
}

fn count_of(notes: &Vec<Note>, k: StatusKind) -> (count: usize)
    ensures
        count == spec_count_of(notes@, k),
{
    let mut count: usize = 0;
    let mut i: usize = 0;
    while i < notes.len()
        invariant
            i <= notes.len(),
            count == spec_count_of(notes@.take(i as int), k),
        decreases notes.len() - i,
    {
        proof {
            assert(notes@.take(i + 1).drop_last() =~= notes@.take(i as int));
            lemma_count_of_bound(notes@.take(i as int), k);
        }
        if note_has_kind(&notes[i], k) {
            count = count + 1;
        }
        i = i + 1;
    }
    assert(notes@.take(notes.len() as int) =~= notes@);
    count
}

/// Copies a list of notes.
pub fn clone_notes(notes: &Vec<Note>) -> (res: Vec<Note>)
    ensures
        res@ == notes@,
{
    let mut res: Vec<Note> = Vec::new();
    let mut i: usize = 0;
    while i < notes.len()
        invariant
            i <= notes.len(),
            res@ == notes@.take(i as int),
        decreases notes.len() - i,
    {
        res.push(notes[i].clone());
        i = i + 1;
        assert(res@ =~= notes@.take(i as int));
    }
    assert(notes@.take(notes.len() as int) =~= notes@);
    res
}

/// The position of the first note with the given nonce, if any.
pub open spec fn spec_find_nonce(notes: Seq<Note>, nonce: Seq<char>) -> Option<int> {
    if exists|i: int| 0 <= i < notes.len() && (#[trigger] notes[i]).nonce@ == nonce {
        Some(
            choose|i: int|
                0 <= i < notes.len() && (#[trigger] notes[i]).nonce@ == nonce && forall|j: int|
                    0 <= j < i ==> (#[trigger] notes[j]).nonce@ != nonce,
        )
    } else {
        None
    }
}

/// Finds the first note with the given nonce.
pub fn find_nonce(notes: &Vec<Note>, nonce: &str) -> (res: Option<usize>)
    ensures
        match res {
            Some(i) => i < notes@.len() && spec_find_nonce(notes@, nonce@) == Some(i as int),
            None => spec_find_nonce(notes@, nonce@) is None,
        },
{
    let mut i: usize = 0;
    while i < notes.len()
        invariant
            i <= notes.len(),
            forall|j: int| 0 <= j < i ==> (#[trigger] notes@[j]).nonce@ != nonce@,
        decreases notes.len() - i,
    {
        if str_eq(notes[i].nonce.as_str(), nonce) {
            proof {
                let w = choose|w: int|
                    0 <= w < notes@.len() && (#[trigger] notes@[w]).nonce@ == nonce@ && forall|j: int|
                        0 <= j < w ==> (#[trigger] notes@[j]).nonce@ != nonce@;
                assert(0 <= i < notes@.len() && notes@[i as int].nonce@ == nonce@ && forall|j: int|
                    0 <= j < i ==> (#[trigger] notes@[j]).nonce@ != nonce@);
                if w < i {
                } else if w > i {
                    assert(notes@[i as int].nonce@ != nonce@);
                }
            }
            return Some(i);
        }
        i = i + 1;
    }
    None
}

/// `after` is `before` with the note at `i` given `status`, checked at `now`.
pub open spec fn with_status_at(before: Seq<Note>, i: int, status: NoteStatus, now: i64) -> Seq<Note> {
    before.update(i, Note { status: status, last_checked: Some(now), ..before[i] })
}

/// The notes of a paper note status `st`, as a set of paper note ids.
pub open spec fn paper_ids_with_status(notes: Seq<Note>, st: PaperNoteStatus) -> Set<u128> {
    Set::new(
        |id: u128|
            (exists|k: int| 0 <= k < notes.len() && (#[trigger] notes[k]).paper_note_id == id)
                && spec_paper_status(notes_with_id(notes, id)) == st,
    )
}

/// The paper note ids that occur among notes.
pub open spec fn spec_paper_note_ids(notes: Seq<Note>) -> Set<u128> {
    Set::new(|id: u128| exists|k: int| 0 <= k < notes.len() && (#[trigger] notes[k]).paper_note_id == id)
}

/// Whether paper note `id` is counted: always when `st` is `None`, else
/// when the paper note has status `st`.
pub open spec fn id_selected(notes: Seq<Note>, id: u128, st: Option<PaperNoteStatus>) -> bool {
    match st {
        None => true,
        Some(s) => spec_paper_status(notes_with_id(notes, id)) == s,
    }
}

/// The ids of a sequence of paper notes.
pub open spec fn group_ids(groups: Seq<PaperNote>) -> Seq<u128> {
    groups.map_values(|g: PaperNote| g.paper_note_id)
}

/// How many of `ids` are selected.
pub open spec fn count_ids(ids: Seq<u128>, notes: Seq<Note>, st: Option<PaperNoteStatus>) -> nat
    decreases ids.len(),
{
    if ids.len() == 0 {
        0
    } else {
        count_ids(ids.drop_last(), notes, st) + if id_selected(notes, ids.last(), st) {
            1nat
        } else {
            0nat
        }
    }
}

/// The selected ids among `ids`, as a set.
pub open spec fn selected_set(ids: Seq<u128>, notes: Seq<Note>, st: Option<PaperNoteStatus>) -> Set<u128> {
    Set::new(|x: u128| ids.contains(x) && id_selected(notes, x, st))
}

/// Counting distinct ids one by one gives the size of their set.
proof fn lemma_count_ids(ids: Seq<u128>, notes: Seq<Note>, st: Option<PaperNoteStatus>)
    requires
        ids.no_duplicates(),
    ensures
        selected_set(ids, notes, st).finite(),
        selected_set(ids, notes, st).len() == count_ids(ids, notes, st),
    decreases ids.len(),
{
    broadcast use vstd::set::group_set_axioms;

    if ids.len() == 0 {
        assert(selected_set(ids, notes, st) =~= Set::<u128>::empty());
    } else {
        let prev = ids.drop_last();
        assert(prev.no_duplicates());
        lemma_count_ids(prev, notes, st);
        let last = ids.last();
        assert(!prev.contains(last)) by {
            if prev.contains(last) {
                let w = choose|w: int| 0 <= w < prev.len() && prev[w] == last;
                assert(ids[w] == ids[ids.len() - 1]);
            }
        }
        assert forall|x: u128| ids.contains(x) <==> prev.contains(x) || x == last by {
            if ids.contains(x) {
                let w = choose|w: int| 0 <= w < ids.len() && ids[w] == x;
                if w < ids.len() - 1 {
                    assert(prev[w] == x);
                }
            }
            if prev.contains(x) {
                let w = choose|w: int| 0 <= w < prev.len() && prev[w] == x;
                assert(ids[w] == x);
            }
            if x == last {
                assert(ids[ids.len() - 1] == x);
            }
        }
        if id_selected(notes, last, st) {
            assert(selected_set(ids, notes, st) =~= selected_set(prev, notes, st).insert(last));
        } else {
            assert(selected_set(ids, notes, st) =~= selected_set(prev, notes, st));
        }
    }
}

/// A paper note id has notes exactly when it occurs among the notes.
proof fn lemma_notes_with_id_nonempty(notes: Seq<Note>, id: u128)
    requires
        notes_with_id(notes, id).len() > 0,
    ensures
        exists|k: int| 0 <= k < notes.len() && (#[trigger] notes[k]).paper_note_id == id,
    decreases notes.len(),
{
    if notes.last().paper_note_id != id {
        lemma_notes_with_id_nonempty(notes.drop_last(), id);
        let k = choose|k: int| 0 <= k < notes.len() - 1 && (#[trigger] notes.drop_last()[k]).paper_note_id == id;
        assert(notes[k] == notes.drop_last()[k]);
    } else {
        assert(notes[notes.len() - 1].paper_note_id == id);
    }
}

/// The paper notes of a grouping have distinct ids, and exactly the ids
/// that occur among the notes.
proof fn lemma_grouping_ids(notes: Seq<Note>, groups: Seq<PaperNote>)
    requires
        is_paper_note_grouping(notes, groups),
    ensures
        group_ids(groups).no_duplicates(),
        forall|x: u128| group_ids(groups).contains(x) <==> spec_paper_note_ids(notes).contains(x),
{
    let ids = group_ids(groups);
    assert forall|i: int, j: int| 0 <= i < ids.len() && 0 <= j < ids.len() && i != j implies ids[i] != ids[j] by {
        if i < j {
            assert(groups[i].paper_note_id < groups[j].paper_note_id);
        } else {
            assert(groups[j].paper_note_id < groups[i].paper_note_id);
        }
    }
    assert forall|x: u128| ids.contains(x) <==> spec_paper_note_ids(notes).contains(x) by {
        if ids.contains(x) {
            let i = choose|i: int| 0 <= i < ids.len() && ids[i] == x;
            assert(groups[i].ecash_notes@ == notes_with_id(notes, groups[i].paper_note_id));
            lemma_notes_with_id_nonempty(notes, x);
        }
        if spec_paper_note_ids(notes).contains(x) {
            let k = choose|k: int| 0 <= k < notes.len() && (#[trigger] notes[k]).paper_note_id == x;
            let i = choose|i: int| 0 <= i < groups.len() && groups[i].paper_note_id == (#[trigger] notes[k]).paper_note_id;
            assert(ids[i] == x);
        }
    }
}

/// Counts the paper notes of a grouping that are selected.
fn count_groups(groups: &Vec<PaperNote>, st: Option<PaperNoteStatus>, Ghost(notes): Ghost<Seq<Note>>) -> (res: usize)
    requires
        is_paper_note_grouping(notes, groups@),
    ensures
        res == selected_set(group_ids(groups@), notes, st).len(),
        selected_set(group_ids(groups@), notes, st) =~= match st {
            None => spec_paper_note_ids(notes),
            Some(s) => paper_ids_with_status(notes, s),
        },
{
    let ghost ids = group_ids(groups@);
    proof {
        lemma_grouping_ids(notes, groups@);
        lemma_count_ids(ids, notes, st);
    }
    let mut count: usize = 0;
    let mut i: usize = 0;
    while i < groups.len()
        invariant
            i <= groups@.len(),
            ids == group_ids(groups@),
            is_paper_note_grouping(notes, groups@),
            count == count_ids(ids.take(i as int), notes, st),
            count <= i,
        decreases groups@.len() - i,
    {
        assert(ids.take(i + 1).drop_last() =~= ids.take(i as int));
        assert(ids.take(i + 1).last() == groups@[i as int].paper_note_id);
        let selected = match st {
            None => true,
            Some(s) => groups[i].status() == s,
        };
        if selected {
            count = count + 1;
        }
        i = i + 1;
    }
    assert(ids.take(groups@.len() as int) =~= ids);
    count
}

/// A named set of ecash notes of one federation.
#[derive(Debug)]
pub struct NoteSet {
    pub id: u128,
    pub name: String,
    pub federation_id: String,
    pub notes: Vec<Note>,
    /// Creation time, in seconds since the Unix epoch.
    pub created_at: i64,
    /// Time of the last refresh, in seconds since the Unix epoch.
    pub last_refreshed: Option<i64>,
    /// Seconds between automatic refreshes, if enabled.
    pub auto_refresh_interval: Option<u64>,
}

/// Two note sets hold the same data.
pub open spec fn same_note_set(a: NoteSet, b: NoteSet) -> bool {
    &&& a.id == b.id
    &&& a.name == b.name
    &&& a.federation_id == b.federation_id
    &&& a.notes@ == b.notes@
    &&& a.created_at == b.created_at
    &&& a.last_refreshed == b.last_refreshed
    &&& a.auto_refresh_interval == b.auto_refresh_interval
}

impl Clone for NoteSet {
    fn clone(&self) -> (res: Self)
        ensures
            same_note_set(res, *self),
    {
        let notes = clone_notes(&self.notes);
        NoteSet {
            id: self.id,
            name: self.name.clone(),
            federation_id: self.federation_id.clone(),
            notes,
            created_at: self.created_at,
            last_refreshed: self.last_refreshed,
            auto_refresh_interval: self.auto_refresh_interval,
        }
    }
}

impl NoteSet {
    /// A new note set with a fresh id, created now.
    pub fn new(name: String, federation_id: String, notes: Vec<Note>) -> (res: Self)
        ensures
            res.name == name,
            res.federation_id == federation_id,
            res.notes == notes,
            res.last_refreshed is None,
            res.auto_refresh_interval is None,
    {
        NoteSet {
            id: random_id(),
            name,
            federation_id,
            notes,
            created_at: current_unix_time(),
            last_refreshed: None,
            auto_refresh_interval: None,
        }
    }

    /// A new empty note set with a fresh id, created now, of no federation yet.
    pub fn new_empty(name: String) -> (res: Self)
        ensures
            res.name == name,
            res.federation_id@ == Seq::<char>::empty(),
            res.notes@ == Seq::<Note>::empty(),
            res.last_refreshed is None,
            res.auto_refresh_interval is None,
    {
        NoteSet {
            id: random_id(),
            name,
            federation_id: String::new(),
            notes: Vec::new(),
            created_at: current_unix_time(),
            last_refreshed: None,
            auto_refresh_interval: None,
        }
    }

    pub fn total_amount_msat(&self) -> (total: u64)
        requires
            spec_total_msat(self.notes@) <= u64::MAX,
        ensures
            total == spec_total_msat(self.notes@),
    {
        sum_amounts(&self.notes)
    }

    pub fn total_amount_sats(&self) -> (total: u64)
        requires
            spec_total_msat(self.notes@) <= u64::MAX,
        ensures
            total == spec_total_msat(self.notes@) / 1000,
    {
        self.total_amount_msat() / 1000
    }

    pub fn spent_amount_msat(&self) -> (total: u64)
        requires
            spec_total_of(self.notes@, StatusKind::Spent) <= u64::MAX,
        ensures
            total == spec_total_of(self.notes@, StatusKind::Spent),
    {
        total_of(&self.notes, StatusKind::Spent)
    }

    pub fn spent_amount_sats(&self) -> (total: u64)
        requires
            spec_total_of(self.notes@, StatusKind::Spent) <= u64::MAX,
        ensures
            total == spec_total_of(self.notes@, StatusKind::Spent) / 1000,
    {
        self.spent_amount_msat() / 1000
    }

    pub fn unspent_amount_msat(&self) -> (total: u64)
        requires
            spec_total_of(self.notes@, StatusKind::Unspent) <= u64::MAX,
        ensures
            total == spec_total_of(self.notes@, StatusKind::Unspent),
    {
        total_of(&self.notes, StatusKind::Unspent)
    }

    pub fn unspent_amount_sats(&self) -> (total: u64)
        requires
            spec_total_of(self.notes@, StatusKind::Unspent) <= u64::MAX,
        ensures
            total == spec_total_of(self.notes@, StatusKind::Unspent) / 1000,
    {
        self.unspent_amount_msat() / 1000
    }

    pub fn note_count(&self) -> (res: usize)
        ensures
            res == self.notes@.len(),
    {
        self.notes.len()
    }

    pub fn spent_count(&self) -> (res: usize)
        ensures
            res == spec_count_of(self.notes@, StatusKind::Spent),
    {
        count_of(&self.notes, StatusKind::Spent)
    }

    pub fn unspent_count(&self) -> (res: usize)
        ensures
            res == spec_count_of(self.notes@, StatusKind::Unspent),
    {
        count_of(&self.notes, StatusKind::Unspent)
    }

    pub fn error_count(&self) -> (res: usize)
        ensures
            res == spec_count_of(self.notes@, StatusKind::Error),
    {
        count_of(&self.notes, StatusKind::Error)
    }

    /// The nonces of the unspent notes, in order.
    pub fn unspent_nonces(&self) -> (res: Vec<&str>)
        ensures
            res@.map_values(|s: &str| s@) == spec_unspent_nonces(self.notes@),
    {
        let mut res: Vec<&str> = Vec::new();
        let mut i: usize = 0;
        while i < self.notes.len()
            invariant
                i <= self.notes@.len(),
                res@.map_values(|s: &str| s@) == spec_unspent_nonces(self.notes@.take(i as int)),
            decreases self.notes@.len() - i,
        {
            let ghost prev = res@;
            assert(self.notes@.take(i + 1).drop_last() =~= self.notes@.take(i as int));
            if self.notes[i].status.is_unspent() {
                res.push(self.notes[i].nonce.as_str());
                assert(res@.map_values(|s: &str| s@) =~= prev.map_values(|s: &str| s@).push(
                    self.notes@[i as int].nonce@,
                ));
            }
            i = i + 1;
        }
        assert(self.notes@.take(self.notes@.len() as int) =~= self.notes@);
        res
    }

    /// Records a refresh at time `now`.
    pub fn mark_refreshed_at(&mut self, now: i64)
        ensures
            *final(self) == (NoteSet { last_refreshed: Some(now), ..*old(self) }),
    {
        self.last_refreshed = Some(now);
    }

    /// Records a refresh now.
    pub fn mark_refreshed(&mut self)
        ensures
            final(self).last_refreshed is Some,
            *final(self) == (NoteSet { last_refreshed: final(self).last_refreshed, ..*old(self) }),
    {
        let now = current_unix_time();
        self.mark_refreshed_at(now);
    }

    /// Gives the first note with the given nonce the new status, checked at
    /// time `now`; without such a note nothing changes.
    pub fn update_note_status_at(&mut self, nonce: &str, status: NoteStatus, now: i64)
        ensures
            *final(self) == (NoteSet {
                notes: final(self).notes,
                ..*old(self)
            }),
            match spec_find_nonce(old(self).notes@, nonce@) {
                Some(i) => final(self).notes@ == with_status_at(old(self).notes@, i, status, now),
                None => final(self).notes@ == old(self).notes@,
            },
    {
        match find_nonce(&self.notes, nonce) {
            Some(i) => {
                let mut note = self.notes[i].clone();
                note.status = status;
                note.last_checked = Some(now);
                self.notes.set(i, note);
            },
            None => {},
        }
    }

    /// Gives the first note with the given nonce the new status, checked now.
    pub fn update_note_status(&mut self, nonce: &str, status: NoteStatus)
        ensures
            *final(self) == (NoteSet {
                notes: final(self).notes,
                ..*old(self)
            }),
            match spec_find_nonce(old(self).notes@, nonce@) {
                Some(i) => exists|now: i64| final(self).notes@ == with_status_at(old(self).notes@, i, status, now),
                None => final(self).notes@ == old(self).notes@,
            },
    {
        let now = current_unix_time();
        self.update_note_status_at(nonce, status, now);
    }

    /// The paper notes of the set, in increasing order of paper note id.
    pub fn paper_notes(&self) -> (res: Vec<PaperNote>)
        ensures
            is_paper_note_grouping(self.notes@, res@),
    {
        group_into_paper_notes(self.notes.as_slice())
    }

    /// The number of paper notes: the number of distinct paper note ids.
    pub fn paper_note_count(&self) -> (res: usize)
        ensures
            res == spec_paper_note_ids(self.notes@).len(),
    {
        let groups = self.paper_notes();
        count_groups(&groups, None, Ghost(self.notes@))
    }

    /// The number of paper notes all of whose ecash notes are spent.
    pub fn spent_paper_note_count(&self) -> (res: usize)
        ensures
            res == paper_ids_with_status(self.notes@, PaperNoteStatus::Spent).len(),
    {
        let groups = self.paper_notes();
        count_groups(&groups, Some(PaperNoteStatus::Spent), Ghost(self.notes@))
    }

    /// The number of paper notes all of whose ecash notes are unspent.
    pub fn unspent_paper_note_count(&self) -> (res: usize)
        ensures
            res == paper_ids_with_status(self.notes@, PaperNoteStatus::Unspent).len(),
    {
        let groups = self.paper_notes();
        count_groups(&groups, Some(PaperNoteStatus::Unspent), Ghost(self.notes@))
    }

    /// Whether some note belongs to the given paper note.
    pub fn has_paper_note(&self, paper_note_id: u128) -> (res: bool)
        ensures
            res == exists|k: int| 0 <= k < self.notes@.len() && (#[trigger] self.notes@[k]).paper_note_id == paper_note_id,
    {
        let mut i: usize = 0;
        while i < self.notes.len()
            invariant
                i <= self.notes@.len(),
                forall|k: int| 0 <= k < i ==> (#[trigger] self.notes@[k]).paper_note_id != paper_note_id,
            decreases self.notes@.len() - i,
        {
            if self.notes[i].paper_note_id == paper_note_id {
                return true;
            }
            i = i + 1;
        }
        false
    }
}

proof fn lemma_status_partition_seq(notes: Seq<Note>)
    ensures
        spec_count_of(notes, StatusKind::Unspent) + spec_count_of(notes, StatusKind::Spent)
            + spec_count_of(notes, StatusKind::Error) == notes.len(),
        spec_total_of(notes, StatusKind::Unspent) + spec_total_of(notes, StatusKind::Spent)
            + spec_total_of(notes, StatusKind::Error) == spec_total_msat(notes),
    decreases notes.len(),
{
    if notes.len() > 0 {
        lemma_status_partition_seq(notes.drop_last());
    }
}

/// Every note is unspent, spent or in error, and only one of them: the
/// unspent, spent and error counts of a set add up to its note count, and
/// their amounts to its total amount.
pub proof fn lemma_status_partition(set: NoteSet)
    ensures
        spec_count_of(set.notes@, StatusKind::Unspent) + spec_count_of(set.notes@, StatusKind::Spent)
            + spec_count_of(set.notes@, StatusKind::Error) == set.notes@.len(),
        spec_total_of(set.notes@, StatusKind::Unspent) + spec_total_of(set.notes@, StatusKind::Spent)
            + spec_total_of(set.notes@, StatusKind::Error) == spec_total_msat(set.notes@),
{
    lemma_status_partition_seq(set.notes@);
}

/// No paper note counts as both spent and unspent: the spent and the
/// unspent paper notes of a set are together at most all its paper notes.
pub proof fn lemma_paper_counts_bounded(set: NoteSet)
    ensures
        paper_ids_with_status(set.notes@, PaperNoteStatus::Spent).len()
            + paper_ids_with_status(set.notes@, PaperNoteStatus::Unspent).len()
            <= spec_paper_note_ids(set.notes@).len(),
{
    let notes = set.notes@;
    let ids = spec_paper_note_ids(notes);
    let spent = paper_ids_with_status(notes, PaperNoteStatus::Spent);
    let unspent = paper_ids_with_status(notes, PaperNoteStatus::Unspent);
    let seq_ids = notes.map_values(|n: Note| n.paper_note_id);
    assert(ids =~= seq_ids.to_set()) by {
        assert forall|x: u128| ids.contains(x) implies seq_ids.to_set().contains(x) by {
            let k = choose|k: int| 0 <= k < notes.len() && (#[trigger] notes[k]).paper_note_id == x;
            assert(seq_ids[k] == x);
        }
        assert forall|x: u128| seq_ids.to_set().contains(x) implies ids.contains(x) by {
            let k = choose|k: int| 0 <= k < seq_ids.len() && seq_ids[k] == x;
            assert(notes[k].paper_note_id == x);
        }
    }
    vstd::seq_lib::seq_to_set_is_finite(seq_ids);
    assert(spent.disjoint(unspent));
    assert((spent + unspent).subset_of(ids));
    vstd::set_lib::lemma_len_subset(spent, ids);
    vstd::set_lib::lemma_len_subset(unspent, ids);
    vstd::set_lib::lemma_len_subset(spent + unspent, ids);
    vstd::set_lib::lemma_set_disjoint_lens(spent, unspent);
}

} // verus!
