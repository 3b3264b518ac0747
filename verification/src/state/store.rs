//! The application state: note sets, settings and notifications, and the
//! rules by which they change.

use vstd::prelude::*;
use vstd::string::StringSliceAdditionalSpecFns;
use vstd::utf8::{decode_utf8, encode_utf8, is_char_boundary};
use crate::external::{current_unix_time, random_id};
use crate::models::note::{Note, NoteStatus, SpendInfo};
use crate::models::note_set::{NoteSet, spec_find_nonce, spec_paper_note_ids, with_status_at};
use crate::text::str_eq;

verus! {

/// User settings.
#[derive(Debug)]
pub struct Settings {
    pub api_url: String,
    pub dark_mode: bool,
    pub default_auto_refresh_interval: Option<u64>,
}

impl Default for Settings {
    fn default() -> (res: Self)
        ensures
            res.api_url@ == "https://observer.fedimint.org/api"@,
            !res.dark_mode,
            res.default_auto_refresh_interval is None,
    {
        Settings {
            api_url: String::from_str("https://observer.fedimint.org/api"),
            dark_mode: false,
            default_auto_refresh_interval: None,
        }
    }
}

/// The kind of a notification.
#[derive(Clone, Copy, Debug, PartialEq, Eq, Structural)]
pub enum ToastVariant {
    Success,
    Error,
    Info,
    Warning,
}

/// A notification shown to the user.
#[derive(Debug)]
pub struct Toast {
    pub id: u128,
    pub message: String,
    pub variant: ToastVariant,
}

/// The note sets, the settings, the notifications on display, and the
/// federations the observer is known to follow (once fetched).
pub struct AppState {
    pub note_sets: Vec<NoteSet>,
    pub settings: Settings,
    pub toasts: Vec<Toast>,
    pub known_federations: Option<Vec<String>>,
}

/// The position of the first note set with the given id, if any.
pub open spec fn spec_find_set(sets: Seq<NoteSet>, id: u128) -> Option<int> {
    if exists|i: int| 0 <= i < sets.len() && (#[trigger] sets[i]).id == id {
        Some(
            choose|i: int|
                0 <= i < sets.len() && (#[trigger] sets[i]).id == id && forall|j: int|
                    0 <= j < i ==> (#[trigger] sets[j]).id != id,
        )
    } else {
        None
    }
}

fn find_set(sets: &Vec<NoteSet>, id: u128) -> (res: Option<usize>)
    ensures
        match res {
            Some(i) => i < sets@.len() && spec_find_set(sets@, id) == Some(i as int),
            None => spec_find_set(sets@, id) is None,
        },
{
    let mut i: usize = 0;
    while i < sets.len()
        invariant
            i <= sets@.len(),
            forall|j: int| 0 <= j < i ==> (#[trigger] sets@[j]).id != id,
        decreases sets@.len() - i,
    {
        if sets[i].id == id {
            proof {
                let w = choose|w: int|
                    0 <= w < sets@.len() && (#[trigger] sets@[w]).id == id && forall|j: int|
                        0 <= j < w ==> (#[trigger] sets@[j]).id != id;
                assert(0 <= i < sets@.len() && sets@[i as int].id == id && forall|j: int|
                    0 <= j < i ==> (#[trigger] sets@[j]).id != id);
                if w > i {
                    assert(sets@[i as int].id != id);
                }
            }
            return Some(i);
        }
        i = i + 1;
    }
    None
}

/// `new` is `old` with the given federation id, notes and refresh time.
pub open spec fn set_changed(
    new: NoteSet,
    old: NoteSet,
    federation_id: Seq<char>,
    notes: Seq<Note>,
    last_refreshed: Option<i64>,
) -> bool {
    &&& new.id == old.id
    &&& new.name == old.name
    &&& new.federation_id@ == federation_id
    &&& new.notes@ == notes
    &&& new.created_at == old.created_at
    &&& new.last_refreshed == last_refreshed
    &&& new.auto_refresh_interval == old.auto_refresh_interval
}

/// `new` is `old` with only the set at `i` changed as `set_changed` says.
pub open spec fn sets_changed_at(
    new: Seq<NoteSet>,
    old: Seq<NoteSet>,
    i: int,
    federation_id: Seq<char>,
    notes: Seq<Note>,
    last_refreshed: Option<i64>,
) -> bool {
    &&& new.len() == old.len()
    &&& forall|j: int| 0 <= j < old.len() && j != i ==> new[j] == old[j]
    &&& set_changed(new[i], old[i], federation_id, notes, last_refreshed)
}

/// The notes after the first note with `nonce` got `status` at `now`.
pub open spec fn spec_note_update(notes: Seq<Note>, nonce: Seq<char>, status: NoteStatus, now: i64) -> Seq<Note> {
    match spec_find_nonce(notes, nonce) {
        Some(i) => with_status_at(notes, i, status, now),
        None => notes,
    }
}

/// The notes after each reported nonce, in order, is marked spent at `now`.
pub open spec fn spec_apply_spent(notes: Seq<Note>, results: Seq<(String, SpendInfo)>, now: i64) -> Seq<Note>
    decreases results.len(),
{
    if results.len() == 0 {
        notes
    } else {
        spec_note_update(
            spec_apply_spent(notes, results.drop_last(), now),
            results.last().0@,
            NoteStatus::Spent(results.last().1),
            now,
        )
    }
}

/// A note after a check at `now` that covered the given nonces: unspent
/// notes among them record the check.
pub open spec fn checked_note(n: Note, nonces: Seq<Seq<char>>, now: i64) -> Note {
    if nonces.contains(n.nonce@) && n.status is Unspent {
        Note { last_checked: Some(now), ..n }
    } else {
        n
    }
}

/// New notes placed after `start` notes: their indices continue from `start`.
pub open spec fn reindexed(new_notes: Seq<Note>, start: nat) -> Seq<Note> {
    Seq::new(new_notes.len(), |i: int| Note { index: (start + i) as usize, ..new_notes[i] })
}

/// At most the first 16 bytes of a federation id (as shown in messages).
pub open spec fn fed_prefix(f: Seq<char>) -> Seq<char> {
    let b = encode_utf8(f);
    decode_utf8(b.take(if b.len() < 16 { b.len() as int } else { 16 }))
}

/// Cutting a federation id after 16 bytes falls on a character boundary.
pub open spec fn fed_prefix_cut_ok(f: Seq<char>) -> bool {
    let b = encode_utf8(f);
    is_char_boundary(b, if b.len() < 16 { b.len() as int } else { 16 })
}

/// An ASCII federation id can be cut anywhere, after 16 bytes too.
pub proof fn lemma_ascii_cut_ok(f: Seq<char>)
    requires
        vstd::utf8::is_ascii_chars(f),
    ensures
        fed_prefix_cut_ok(f),
{
    let b = encode_utf8(f);
    vstd::utf8::is_ascii_chars_encode_utf8(f);
    vstd::utf8::encode_utf8_valid_utf8(f);
    if b.len() < 16 {
        vstd::utf8::is_char_boundary_start_end_of_seq(b);
    } else if b.len() == 16 {
        vstd::utf8::is_char_boundary_start_end_of_seq(b);
    } else {
        assert(f[16] as u8 == b[16]);
        vstd::utf8::is_ascii_chars_nat_bound(f);
        assert((f[16] as nat) < 128);
        vstd::utf8::is_char_boundary_iff_not_is_continuation_byte(b, 16);
    }
}

/// The message for a federation the observer does not follow.
pub open spec fn msg_unobserved(f: Seq<char>) -> Seq<char> {
    "Federation "@ + fed_prefix(f) + " is not observed by the configured observer"@
}

/// The message for notes of another federation than the set's.
pub open spec fn msg_mismatch(expected: Seq<char>, got: Seq<char>) -> Seq<char> {
    "Federation ID mismatch: expected "@ + fed_prefix(expected) + ", got "@ + fed_prefix(got)
}

/// The first (at most) 16 bytes of a federation id.
pub(crate) fn fed_prefix_of(f: &str) -> (res: String)
    requires
        fed_prefix_cut_ok(f@),
    ensures
        res@ == fed_prefix(f@),
{
    let n = f.as_bytes().len();
    let k: usize = if n < 16 { n } else { 16 };
    let (head, _) = f.split_at(k);
    let res = head.to_owned();
    proof {
        vstd::utf8::encode_utf8_decode_utf8(res@);
    }
    res
}

/// Whether the list holds the string.
fn contains_string(list: &Vec<String>, s: &String) -> (res: bool)
    ensures
        res == list@.map_values(|x: String| x@).contains(s@),
{
    let ghost views = list@.map_values(|x: String| x@);
    let mut i: usize = 0;
    while i < list.len()
        invariant
            i <= list@.len(),
            views == list@.map_values(|x: String| x@),
            forall|j: int| 0 <= j < i ==> list@[j]@ != s@,
        decreases list@.len() - i,
    {
        if list[i] == *s {
            assert(views[i as int] == s@);
            return true;
        }
        i = i + 1;
    }
    assert forall|j: int| 0 <= j < views.len() implies views[j] != s@ by {
        assert(views[j] == list@[j]@);
    }
    false
}


/// The number of distinct paper note ids among notes.
fn distinct_paper_notes(notes: &Vec<Note>) -> (count: usize)
    ensures
        count == spec_paper_note_ids(notes@).len(),
{
    let mut seen: Vec<u128> = Vec::new();
    let mut i: usize = 0;
    while i < notes.len()
        invariant
            i <= notes@.len(),
            seen@.no_duplicates(),
            seen@.len() <= i,
            forall|x: u128|
                seen@.contains(x) <==> exists|k: int| 0 <= k < i && (#[trigger] notes@[k]).paper_note_id == x,
        decreases notes@.len() - i,
    {
        let id = notes[i].paper_note_id;
        let mut found = false;
        let mut j: usize = 0;
        while j < seen.len()
            invariant
                j <= seen@.len(),
                found == exists|m: int| 0 <= m < j && seen@[m] == id,
            decreases seen@.len() - j,
        {
            if seen[j] == id {
                found = true;
            }
            j = j + 1;
        }
        let ghost prev = seen@;
        if !found {
            seen.push(id);
            assert forall|a: int, b: int| 0 <= a < seen@.len() && 0 <= b < seen@.len() && a != b implies seen@[a] != seen@[b] by {
                if a < prev.len() && b < prev.len() {
                } else if a == prev.len() {
                    assert(!prev.contains(id));
                    assert(seen@[b] == prev[b]);
                } else {
                    assert(!prev.contains(id));
                    assert(seen@[a] == prev[a]);
                }
            }
        }
        assert forall|x: u128|
            seen@.contains(x) <==> exists|k: int| 0 <= k < i + 1 && (#[trigger] notes@[k]).paper_note_id == x by {
            if seen@.contains(x) {
                let w = choose|w: int| 0 <= w < seen@.len() && seen@[w] == x;
                if w < prev.len() {
                    assert(prev.contains(x));
                } else {
                    assert(notes@[i as int].paper_note_id == x);
                }
            }
            if exists|k: int| 0 <= k < i + 1 && (#[trigger] notes@[k]).paper_note_id == x {
                let k = choose|k: int| 0 <= k < i + 1 && (#[trigger] notes@[k]).paper_note_id == x;
                if k < i {
                    assert(prev.contains(x));
                    let w = choose|w: int| 0 <= w < prev.len() && prev[w] == x;
                    assert(seen@[w] == x);
                } else if found {
                    let m = choose|m: int| 0 <= m < prev.len() && prev[m] == id;
                    assert(seen@[m] == x);
                } else {
                    assert(seen@[prev.len() as int] == x);
                }
            }
        }
        i = i + 1;
    }
    proof {
        seen@.unique_seq_to_set();
        assert(seen@.to_set() =~= spec_paper_note_ids(notes@));
    }
    seen.len()
}

/// The characters of each string slice.
pub open spec fn str_views(s: Seq<&str>) -> Seq<Seq<char>> {
    s.map_values(|x: &str| x@)
}

/// `new` is `old` after the status update of `update_note_status_at`.
pub open spec fn status_updated(
    new: Seq<NoteSet>,
    old: Seq<NoteSet>,
    set_id: u128,
    nonce: Seq<char>,
    status: NoteStatus,
    now: i64,
) -> bool {
    match spec_find_set(old, set_id) {
        Some(i) => sets_changed_at(
            new,
            old,
            i,
            old[i].federation_id@,
            spec_note_update(old[i].notes@, nonce, status, now),
            old[i].last_refreshed,
        ),
        None => new == old,
    }
}

/// `new` is `old` after `mark_notes_spent_at`.
pub open spec fn spent_marked(
    new: Seq<NoteSet>,
    old: Seq<NoteSet>,
    set_id: u128,
    results: Seq<(String, SpendInfo)>,
    now: i64,
) -> bool {
    match spec_find_set(old, set_id) {
        Some(i) => sets_changed_at(
            new,
            old,
            i,
            old[i].federation_id@,
            spec_apply_spent(old[i].notes@, results, now),
            Some(now),
        ),
        None => new == old,
    }
}

/// `new` is `old` after `mark_notes_checked_at`.
pub open spec fn checks_marked(
    new: Seq<NoteSet>,
    old: Seq<NoteSet>,
    set_id: u128,
    nonces: Seq<Seq<char>>,
    now: i64,
) -> bool {
    match spec_find_set(old, set_id) {
        Some(i) => sets_changed_at(
            new,
            old,
            i,
            old[i].federation_id@,
            old[i].notes@.map_values(|n: Note| checked_note(n, nonces, now)),
            Some(now),
        ),
        None => new == old,
    }
}

/// Whether the observer is known to follow the federation (or it is not
/// known yet which federations it follows).
pub open spec fn federation_known(known: Option<Vec<String>>, fed: Seq<char>) -> bool {
    match known {
        None => true,
        Some(k) => k@.map_values(|x: String| x@).contains(fed),
    }
}

/// The federation ids that `add_notes_to_set` puts into messages can be
/// cut after 16 bytes.
pub open spec fn add_notes_messages_ok(state: AppState, set_id: u128, fed: Seq<char>) -> bool {
    &&& !federation_known(state.known_federations, fed) ==> fed_prefix_cut_ok(fed)
    &&& match spec_find_set(state.note_sets@, set_id) {
        Some(i) => (state.note_sets@[i].federation_id@.len() > 0 && state.note_sets@[i].federation_id@
            != fed) ==> fed_prefix_cut_ok(state.note_sets@[i].federation_id@) && fed_prefix_cut_ok(
            fed,
        ),
        None => true,
    }
}

/// The outcome of `add_notes_to_set`: an error with an unchanged state; or,
/// when there is no such set, nothing added (0) and an unchanged state; or
/// the number of distinct paper notes among the new notes, with the notes
/// appended (re-indexed) to the set and its federation id set.
pub open spec fn notes_added(
    new: AppState,
    old: AppState,
    set_id: u128,
    new_notes: Seq<Note>,
    fed: Seq<char>,
    res: Result<usize, String>,
) -> bool {
    let count = spec_paper_note_ids(new_notes).len();
    if !federation_known(old.known_federations, fed) {
        res matches Err(m) && m@ == msg_unobserved(fed) && new == old
    } else {
        match spec_find_set(old.note_sets@, set_id) {
            None => res matches Ok(c) && c == 0 && new == old,
            Some(i) => {
                let s = old.note_sets@[i];
                if s.federation_id@.len() == 0 || s.federation_id@ == fed {
                    &&& res matches Ok(c) && c == count
                    &&& sets_changed_at(
                        new.note_sets@,
                        old.note_sets@,
                        i,
                        fed,
                        s.notes@ + reindexed(new_notes, s.notes@.len()),
                        s.last_refreshed,
                    )
                    &&& new.settings == old.settings
                    &&& new.toasts == old.toasts
                    &&& new.known_federations == old.known_federations
                } else {
                    res matches Err(m) && m@ == msg_mismatch(s.federation_id@, fed) && new == old
                }
            },
        }
    }
}

impl AppState {
    /// The state made of stored note sets and settings, with no
    /// notification and no known federations yet.
    pub fn new(note_sets: Vec<NoteSet>, settings: Settings) -> (res: Self)
        ensures
            res.note_sets == note_sets,
            res.settings == settings,
            res.toasts@.len() == 0,
            res.known_federations is None,
    {
        AppState { note_sets, settings, toasts: Vec::new(), known_federations: None }
    }

    pub fn add_note_set(&mut self, note_set: NoteSet)
        ensures
            final(self).note_sets@ == old(self).note_sets@.push(note_set),
            final(self).settings == old(self).settings,
            final(self).toasts == old(self).toasts,
            final(self).known_federations == old(self).known_federations,
    {
        self.note_sets.push(note_set);
    }

    /// Removes every note set with the given id.
    pub fn remove_note_set(&mut self, id: u128)
        ensures
            final(self).note_sets@ == old(self).note_sets@.filter(|s: NoteSet| s.id != id),
            final(self).settings == old(self).settings,
            final(self).toasts == old(self).toasts,
            final(self).known_federations == old(self).known_federations,
    {
        let ghost before = self.note_sets@;
        let mut kept: Vec<NoteSet> = Vec::new();
        let mut old_sets: Vec<NoteSet> = Vec::new();
        std::mem::swap(&mut old_sets, &mut self.note_sets);
        assert(old_sets@ == before);
        assert(before.take(0).filter(|s: NoteSet| s.id != id) =~= Seq::<NoteSet>::empty()) by {
            reveal(Seq::filter);
        }
        let mut i: usize = 0;
        let n = old_sets.len();
        while i < n
            invariant
                n == before.len(),
                i <= n,
                old_sets@ == before.skip(i as int),
                kept@ == before.take(i as int).filter(|s: NoteSet| s.id != id),
            decreases n - i,
        {
            let set = old_sets.remove(0);
            proof {
                reveal(Seq::filter);
                assert(before.take(i + 1).drop_last() =~= before.take(i as int));
                assert(set == before[i as int]);
                assert(before.skip(i as int).remove(0) =~= before.skip(i + 1));
            }
            if set.id != id {
                kept.push(set);
            }
            i = i + 1;
        }
        assert(before.take(n as int) =~= before);
        self.note_sets = kept;
    }

    /// A copy of the first note set with the given id.
    pub fn get_note_set(&self, id: u128) -> (res: Option<NoteSet>)
        ensures
            match spec_find_set(self.note_sets@, id) {
                Some(i) => res matches Some(s) && crate::models::note_set::same_note_set(s, self.note_sets@[i]),
                None => res is None,
            },
    {
        match find_set(&self.note_sets, id) {
            Some(i) => Some(self.note_sets[i].clone()),
            None => None,
        }
    }

    /// Replaces the first note set with the given id, if any.
    pub fn update_note_set(&mut self, id: u128, note_set: NoteSet)
        ensures
            match spec_find_set(old(self).note_sets@, id) {
                Some(i) => final(self).note_sets@ == old(self).note_sets@.update(i, note_set),
                None => final(self).note_sets@ == old(self).note_sets@,
            },
            final(self).settings == old(self).settings,
            final(self).toasts == old(self).toasts,
            final(self).known_federations == old(self).known_federations,
    {
        match find_set(&self.note_sets, id) {
            Some(i) => self.note_sets.set(i, note_set),
            None => {},
        }
    }

    /// In the set `set_id`, gives the first note with `nonce` the new status,
    /// checked at `now`.
    pub fn update_note_status_at(&mut self, set_id: u128, nonce: &str, status: NoteStatus, now: i64)
        ensures
            status_updated(final(self).note_sets@, old(self).note_sets@, set_id, nonce@, status, now),
            final(self).settings == old(self).settings,
            final(self).toasts == old(self).toasts,
            final(self).known_federations == old(self).known_federations,
    {
        match find_set(&self.note_sets, set_id) {
            Some(i) => {
                let mut set = self.note_sets.remove(i);
                set.update_note_status_at(nonce, status, now);
                self.note_sets.insert(i, set);
            },
            None => {},
        }
    }

    /// In the set `set_id`, gives the first note with `nonce` the new status,
    /// checked now.
    pub fn update_note_status(&mut self, set_id: u128, nonce: &str, status: NoteStatus)
        ensures
            exists|now: i64| #[trigger] status_updated(final(self).note_sets@, old(self).note_sets@, set_id, nonce@, status, now),
            final(self).settings == old(self).settings,
            final(self).toasts == old(self).toasts,
            final(self).known_federations == old(self).known_federations,
    {
        let now = current_unix_time();
        self.update_note_status_at(set_id, nonce, status, now);
    }

    /// In the set `set_id`, marks each reported nonce spent (in order) and
    /// records a refresh, all at time `now`.
    pub fn mark_notes_spent_at(&mut self, set_id: u128, spend_results: Vec<(String, SpendInfo)>, now: i64)
        ensures
            spent_marked(final(self).note_sets@, old(self).note_sets@, set_id, spend_results@, now),
            final(self).settings == old(self).settings,
            final(self).toasts == old(self).toasts,
            final(self).known_federations == old(self).known_federations,
    {
        match find_set(&self.note_sets, set_id) {
            Some(i) => {
                let mut set = self.note_sets.remove(i);
                let ghost start = set.notes@;
                let mut k: usize = 0;
                while k < spend_results.len()
                    invariant
                        k <= spend_results@.len(),
                        set.notes@ == spec_apply_spent(start, spend_results@.take(k as int), now),
                        set.id == old(self).note_sets@[i as int].id,
                        set.name == old(self).note_sets@[i as int].name,
                        set.federation_id == old(self).note_sets@[i as int].federation_id,
                        set.created_at == old(self).note_sets@[i as int].created_at,
                        set.auto_refresh_interval == old(self).note_sets@[i as int].auto_refresh_interval,
                    decreases spend_results@.len() - k,
                {
                    assert(spend_results@.take(k + 1).drop_last() =~= spend_results@.take(k as int));
                    let info = spend_results[k].1.clone();
                    set.update_note_status_at(spend_results[k].0.as_str(), NoteStatus::Spent(info), now);
                    k = k + 1;
                }
                assert(spend_results@.take(spend_results@.len() as int) =~= spend_results@);
                set.mark_refreshed_at(now);
                self.note_sets.insert(i, set);
            },
            None => {},
        }
    }

    /// In the set `set_id`, marks each reported nonce spent (in order) and
    /// records a refresh, now.
    pub fn mark_notes_spent(&mut self, set_id: u128, spend_results: Vec<(String, SpendInfo)>)
        ensures
            exists|now: i64| #[trigger] spent_marked(final(self).note_sets@, old(self).note_sets@, set_id, spend_results@, now),
            final(self).settings == old(self).settings,
            final(self).toasts == old(self).toasts,
            final(self).known_federations == old(self).known_federations,
    {
        let now = current_unix_time();
        self.mark_notes_spent_at(set_id, spend_results, now);
    }

    /// In the set `set_id`, records a check at `now` on the unspent notes
    /// among the given nonces, and a refresh.
    pub fn mark_notes_checked_at(&mut self, set_id: u128, nonces: &[&str], now: i64)
        ensures
            checks_marked(final(self).note_sets@, old(self).note_sets@, set_id, str_views(nonces@), now),
            final(self).settings == old(self).settings,
            final(self).toasts == old(self).toasts,
            final(self).known_federations == old(self).known_federations,
    {
        let ghost views = str_views(nonces@);
        match find_set(&self.note_sets, set_id) {
            Some(i) => {
                let mut set = self.note_sets.remove(i);
                let ghost start = set.notes@;
                let mut updated: Vec<Note> = Vec::new();
                let mut k: usize = 0;
                while k < set.notes.len()
                    invariant
                        k <= set.notes@.len(),
                        set.notes@ == start,
                        views == str_views(nonces@),
                        updated@ == start.take(k as int).map_values(|n: Note| checked_note(n, views, now)),
                    decreases set.notes@.len() - k,
                {
                    let mut note = set.notes[k].clone();
                    let mut listed = false;
                    let mut m: usize = 0;
                    while m < nonces.len()
                        invariant
                            m <= nonces@.len(),
                            k < start.len(),
                            views == str_views(nonces@),
                            note == start[k as int],
                            listed == exists|j: int| 0 <= j < m && views[j] == note.nonce@,
                        decreases nonces@.len() - m,
                    {
                        assert(views[m as int] == nonces@[m as int]@);
                        if str_eq(nonces[m], note.nonce.as_str()) {
                            listed = true;
                        }
                        m = m + 1;
                    }
                    assert(listed == views.contains(note.nonce@));
                    if listed && note.status.is_unspent() {
                        note.last_checked = Some(now);
                    }
                    updated.push(note);
                    k = k + 1;
                    assert(updated@ =~= start.take(k as int).map_values(|n: Note| checked_note(n, views, now)));
                }
                assert(start.take(start.len() as int) =~= start);
                set.notes = updated;
                set.mark_refreshed_at(now);
                self.note_sets.insert(i, set);
            },
            None => {},
        }
    }

    /// In the set `set_id`, records a check now on the unspent notes among
    /// the given nonces, and a refresh.
    pub fn mark_notes_checked(&mut self, set_id: u128, nonces: &[&str])
        ensures
            exists|now: i64| #[trigger] checks_marked(final(self).note_sets@, old(self).note_sets@, set_id, str_views(nonces@), now),
            final(self).settings == old(self).settings,
            final(self).toasts == old(self).toasts,
            final(self).known_federations == old(self).known_federations,
    {
        let now = current_unix_time();
        self.mark_notes_checked_at(set_id, nonces, now);
    }

    /// Adds notes to an existing set and returns the number of distinct paper
    /// notes added. Fails if the federation id is not followed by the
    /// observer (once that is known) or differs from the set's.
    pub fn add_notes_to_set(&mut self, set_id: u128, new_notes: Vec<Note>, federation_id: String) -> (res: Result<
        usize,
        String,
    >)
        requires
            add_notes_messages_ok(*old(self), set_id, federation_id@),
        ensures
            notes_added(*final(self), *old(self), set_id, new_notes@, federation_id@, res),
    {
        match &self.known_federations {
            Some(known) => {
                if !contains_string(known, &federation_id) {
                    let mut msg = String::from_str("Federation ");
                    let prefix = fed_prefix_of(federation_id.as_str());
                    msg.append(prefix.as_str());
                    msg.append(" is not observed by the configured observer");
                    return Err(msg);
                }
            },
            None => {},
        }
        match find_set(&self.note_sets, set_id) {
            None => Ok(0),
            Some(i) => {
                let count = distinct_paper_notes(&new_notes);
                let empty = self.note_sets[i].federation_id.as_str().is_empty();
                if !empty && !(self.note_sets[i].federation_id == federation_id) {
                    let mut msg = String::from_str("Federation ID mismatch: expected ");
                    let expected = fed_prefix_of(self.note_sets[i].federation_id.as_str());
                    msg.append(expected.as_str());
                    msg.append(", got ");
                    let got = fed_prefix_of(federation_id.as_str());
                    msg.append(got.as_str());
                    return Err(msg);
                }
                let ghost fed = federation_id@;
                let mut set = self.note_sets.remove(i);
                let ghost old_set = set;
                if empty {
                    set.federation_id = federation_id;
                }
                assert(set.federation_id@ == fed);
                let ghost start = set.notes@;
                let mut k: usize = 0;
                while k < new_notes.len()
                    invariant
                        k <= new_notes@.len(),
                        start == old_set.notes@,
                        set.notes@ == start + reindexed(new_notes@.take(k as int), start.len()),
                        set.id == old_set.id,
                        set.name == old_set.name,
                        set.federation_id@ == fed,
                        set.created_at == old_set.created_at,
                        set.last_refreshed == old_set.last_refreshed,
                        set.auto_refresh_interval == old_set.auto_refresh_interval,
                    decreases new_notes@.len() - k,
                {
                    let mut note = new_notes[k].clone();
                    note.index = set.notes.len();
                    set.notes.push(note);
                    k = k + 1;
                    assert(set.notes@ =~= start + reindexed(new_notes@.take(k as int), start.len()));
                }
                assert(new_notes@.take(new_notes@.len() as int) =~= new_notes@);
                assert(set_changed(
                    set,
                    old_set,
                    fed,
                    old_set.notes@ + reindexed(new_notes@, old_set.notes@.len()),
                    old_set.last_refreshed,
                ));
                self.note_sets.insert(i, set);
                assert(self.note_sets@ =~= old(self).note_sets@.update(i as int, set));
                assert(sets_changed_at(
                    self.note_sets@,
                    old(self).note_sets@,
                    i as int,
                    fed,
                    old_set.notes@ + reindexed(new_notes@, old_set.notes@.len()),
                    old_set.last_refreshed,
                ));
                Ok(count)
            },
        }
    }

    /// Replaces the settings.
    pub fn update_settings(&mut self, settings: Settings)
        ensures
            final(self).settings == settings,
            final(self).note_sets == old(self).note_sets,
            final(self).toasts == old(self).toasts,
            final(self).known_federations == old(self).known_federations,
    {
        self.settings = settings;
    }

    /// Sets the observer URL and dark mode, keeping the other settings.
    pub fn set_preferences(&mut self, api_url: String, dark_mode: bool)
        ensures
            final(self).settings.api_url == api_url,
            final(self).settings.dark_mode == dark_mode,
            final(self).settings.default_auto_refresh_interval == old(self).settings.default_auto_refresh_interval,
            final(self).note_sets == old(self).note_sets,
            final(self).toasts == old(self).toasts,
            final(self).known_federations == old(self).known_federations,
    {
        self.settings.api_url = api_url;
        self.settings.dark_mode = dark_mode;
    }

    /// Switches dark mode on or off, keeping the other settings.
    pub fn toggle_dark_mode(&mut self)
        ensures
            final(self).settings.dark_mode == !old(self).settings.dark_mode,
            final(self).settings.api_url == old(self).settings.api_url,
            final(self).settings.default_auto_refresh_interval == old(self).settings.default_auto_refresh_interval,
            final(self).note_sets == old(self).note_sets,
            final(self).toasts == old(self).toasts,
            final(self).known_federations == old(self).known_federations,
    {
        self.settings.dark_mode = !self.settings.dark_mode;
    }

    /// Shows a notification under a fresh id.
    pub fn add_toast(&mut self, message: String, variant: ToastVariant)
        ensures
            final(self).toasts@.len() == old(self).toasts@.len() + 1,
            final(self).toasts@.drop_last() == old(self).toasts@,
            final(self).toasts@.last().message == message,
            final(self).toasts@.last().variant == variant,
            final(self).note_sets == old(self).note_sets,
            final(self).settings == old(self).settings,
            final(self).known_federations == old(self).known_federations,
    {
        let toast = Toast { id: random_id(), message, variant };
        self.toasts.push(toast);
        assert(self.toasts@.drop_last() =~= old(self).toasts@);
    }

    /// Dismisses every notification with the given id.
    pub fn remove_toast(&mut self, id: u128)
        ensures
            final(self).toasts@ == old(self).toasts@.filter(|t: Toast| t.id != id),
            final(self).note_sets == old(self).note_sets,
            final(self).settings == old(self).settings,
            final(self).known_federations == old(self).known_federations,
    {
        let ghost before = self.toasts@;
        let mut kept: Vec<Toast> = Vec::new();
        let mut old_toasts: Vec<Toast> = Vec::new();
        std::mem::swap(&mut old_toasts, &mut self.toasts);
        assert(before.take(0).filter(|t: Toast| t.id != id) =~= Seq::<Toast>::empty()) by {
            reveal(Seq::filter);
        }
        let mut i: usize = 0;
        let n = old_toasts.len();
        while i < n
            invariant
                n == before.len(),
                i <= n,
                old_toasts@ == before.skip(i as int),
                kept@ == before.take(i as int).filter(|t: Toast| t.id != id),
            decreases n - i,
        {
            let t = old_toasts.remove(0);
            proof {
                reveal(Seq::filter);
                assert(before.take(i + 1).drop_last() =~= before.take(i as int));
                assert(t == before[i as int]);
                assert(before.skip(i as int).remove(0) =~= before.skip(i + 1));
            }
            if t.id != id {
                kept.push(t);
            }
            i = i + 1;
        }
        assert(before.take(n as int) =~= before);
        self.toasts = kept;
    }
}

} // verus!
