//! Paper notes: the ecash notes printed together (one imported ecash
//! string), and their grouping out of a flat list of notes.

use vstd::prelude::*;
use crate::models::note::{Note, NoteStatus, SpendInfo, spec_redemption_time};

verus! {

/// The spend status of a paper note as a whole.
#[derive(Clone, Copy, Debug, PartialEq, Eq, Structural)]
pub enum PaperNoteStatus {
    Unspent,
    Spent,
    PartiallySpent,
    Error,
}

/// The ecash notes of one paper note.
#[derive(Debug)]
pub struct PaperNote {
    pub paper_note_id: u128,
    pub ecash_notes: Vec<Note>,
    /// Lowest index among the constituent ecash notes (import order).
    pub index: usize,
}

/// Sum of the amounts of notes, in millisatoshis.
pub open spec fn spec_total_msat(notes: Seq<Note>) -> nat
    decreases notes.len(),
{
    if notes.len() == 0 {
        0
    } else {
        spec_total_msat(notes.drop_last()) + (notes.last().amount_msat as nat)
    }
}

/// The total of a prefix is at most the total.
pub proof fn lemma_total_prefix(notes: Seq<Note>, k: int)
    requires
        0 <= k <= notes.len(),
    ensures
        spec_total_msat(notes.take(k)) <= spec_total_msat(notes),
    decreases notes.len(),
{
    if k < notes.len() {
        assert(notes.drop_last().take(k) =~= notes.take(k));
        lemma_total_prefix(notes.drop_last(), k);
    } else {
        assert(notes.take(k) =~= notes);
    }
}

/// Sums the amounts of notes.
pub fn sum_amounts(notes: &Vec<Note>) -> (total: u64)
    requires
        spec_total_msat(notes@) <= u64::MAX,
    ensures
        total == spec_total_msat(notes@),
{
    let mut total: u64 = 0;
    let mut i: usize = 0;
    while i < notes.len()
        invariant
            i <= notes.len(),
            spec_total_msat(notes@) <= u64::MAX,
            total == spec_total_msat(notes@.take(i as int)),
        decreases notes.len() - i,
    {
        proof {
            assert(notes@.take(i + 1).drop_last() =~= notes@.take(i as int));
            lemma_total_prefix(notes@, i + 1);
        }
        total = total + notes[i].amount_msat;
        i = i + 1;
    }
    assert(notes@.take(notes.len() as int) =~= notes@);
    total
}

/// Some note failed its status check.
pub open spec fn any_error(notes: Seq<Note>) -> bool {
    exists|i: int| 0 <= i < notes.len() && (#[trigger] notes[i]).status is Error
}

/// Every note is spent.
pub open spec fn all_spent(notes: Seq<Note>) -> bool {
    forall|i: int| 0 <= i < notes.len() ==> (#[trigger] notes[i]).status is Spent
}

/// Every note is unspent.
pub open spec fn all_unspent(notes: Seq<Note>) -> bool {
    forall|i: int| 0 <= i < notes.len() ==> (#[trigger] notes[i]).status is Unspent
}

/// The status of a paper note: an error in any note wins, then all spent,
/// then all unspent, otherwise partially spent.
pub open spec fn spec_paper_status(notes: Seq<Note>) -> PaperNoteStatus {
    if any_error(notes) {
        PaperNoteStatus::Error
    } else if all_spent(notes) {
        PaperNoteStatus::Spent
    } else if all_unspent(notes) {
        PaperNoteStatus::Unspent
    } else {
        PaperNoteStatus::PartiallySpent
    }
}

/// What a paper note's status says of its ecash notes: `Error` exactly
/// when some note is in error, whatever the number of notes; otherwise
/// `Spent` when every note is spent, `Unspent` when every note is unspent,
/// and `PartiallySpent` when some note is spent and some is unspent.
pub proof fn lemma_paper_status_meaning(p: PaperNote)
    ensures
        (exists|k: int| 0 <= k < p.ecash_notes@.len() && (#[trigger] p.ecash_notes@[k]).status is Error)
            <==> spec_paper_status(p.ecash_notes@) is Error,
        spec_paper_status(p.ecash_notes@) is Spent <==> (forall|k: int|
            0 <= k < p.ecash_notes@.len() ==> (#[trigger] p.ecash_notes@[k]).status is Spent),
        spec_paper_status(p.ecash_notes@) is Unspent <==> (p.ecash_notes@.len() > 0 && forall|k: int|
            0 <= k < p.ecash_notes@.len() ==> (#[trigger] p.ecash_notes@[k]).status is Unspent),
        spec_paper_status(p.ecash_notes@) is PartiallySpent <==> (exists|a: int, b: int|
            0 <= a < p.ecash_notes@.len() && 0 <= b < p.ecash_notes@.len() && (#[trigger] p.ecash_notes@[a]).status is Spent
                && (#[trigger] p.ecash_notes@[b]).status is Unspent && !(exists|k: int|
                0 <= k < p.ecash_notes@.len() && (#[trigger] p.ecash_notes@[k]).status is Error)),
{
    let notes = p.ecash_notes@;
    if !any_error(notes) && !all_spent(notes) && !all_unspent(notes) {
        let a = choose|a: int| 0 <= a < notes.len() && !(notes[a].status is Spent);
        let b = choose|b: int| 0 <= b < notes.len() && !(notes[b].status is Unspent);
        assert(notes[a].status is Unspent);
        assert(notes[b].status is Spent);
    }
    if notes.len() > 0 {
        assert(notes[0].status is Spent ==> !(notes[0].status is Unspent));
    }
    if any_error(p.ecash_notes@) {
        let k = choose|k: int| 0 <= k < notes.len() && notes[k].status is Error;
        assert(!(notes[k].status is Spent));
    }
}

/// The later of two optional times (an absent time counts as smallest).
pub open spec fn later(a: Option<i64>, b: Option<i64>) -> Option<i64> {
    match (a, b) {
        (None, x) => x,
        (x, None) => x,
        (Some(x), Some(y)) => Some(if x >= y { x } else { y }),
    }
}

/// The latest redemption time among notes, if any is known.
pub open spec fn spec_latest_redemption(notes: Seq<Note>) -> Option<i64>
    decreases notes.len(),
{
    if notes.len() == 0 {
        None
    } else {
        later(spec_latest_redemption(notes.drop_last()), spec_redemption_time(notes.last()))
    }
}

/// The latest time any note was checked, if any was.
pub open spec fn spec_latest_check(notes: Seq<Note>) -> Option<i64>
    decreases notes.len(),
{
    if notes.len() == 0 {
        None
    } else {
        later(spec_latest_check(notes.drop_last()), notes.last().last_checked)
    }
}

/// The spend info of the first spent note.
pub open spec fn spec_first_spend_info(notes: Seq<Note>) -> Option<SpendInfo>
    decreases notes.len(),
{
    if notes.len() == 0 {
        None
    } else {
        match notes[0].status {
            NoteStatus::Spent(info) => Some(info),
            _ => spec_first_spend_info(notes.drop_first()),
        }
    }
}

/// How many notes have the given amount.
pub open spec fn count_amount(notes: Seq<Note>, amount: u64) -> nat
    decreases notes.len(),
{
    if notes.len() == 0 {
        0
    } else {
        count_amount(notes.drop_last(), amount) + if notes.last().amount_msat == amount {
            1nat
        } else {
            0nat
        }
    }
}

/// `breakdown` lists each amount occurring in `notes` once, in increasing
/// order, with the number of notes of that amount.
pub open spec fn is_denomination_breakdown(notes: Seq<Note>, breakdown: Seq<(u64, usize)>) -> bool {
    &&& forall|i: int, j: int| 0 <= i < j < breakdown.len() ==> breakdown[i].0 < breakdown[j].0
    &&& forall|i: int|
        0 <= i < breakdown.len() ==> #[trigger] breakdown[i].1 == count_amount(notes, breakdown[i].0)
            && breakdown[i].1 > 0
    &&& forall|k: int|
        #![trigger notes[k]]
        0 <= k < notes.len() ==> exists|i: int| 0 <= i < breakdown.len() && breakdown[i].0 == notes[k].amount_msat
}

/// Amounts that do not occur in a prefix have count zero there.
proof fn lemma_count_amount_absent(notes: Seq<Note>, amount: u64)
    requires
        forall|k: int| 0 <= k < notes.len() ==> (#[trigger] notes[k]).amount_msat != amount,
    ensures
        count_amount(notes, amount) == 0,
    decreases notes.len(),
{
    if notes.len() > 0 {
        lemma_count_amount_absent(notes.drop_last(), amount);
    }
}

/// Counts notes per amount, in increasing order of amount.
fn breakdown_of(notes: &Vec<Note>) -> (res: Vec<(u64, usize)>)
    ensures
        is_denomination_breakdown(notes@, res@),
{
    let mut res: Vec<(u64, usize)> = Vec::new();
    let mut k: usize = 0;
    while k < notes.len()
        invariant
            k <= notes.len(),
            is_denomination_breakdown(notes@.take(k as int), res@),
            forall|i: int| 0 <= i < res@.len() ==> #[trigger] res@[i].1 <= k,
        decreases notes.len() - k,
    {
        let a = notes[k].amount_msat;
        let ghost pre = notes@.take(k as int);
        let ghost post = notes@.take(k + 1);
        let ghost old_res = res@;
        assert(post.drop_last() =~= pre);
        assert(post.last() == notes@[k as int]);
        let mut j: usize = 0;
        while j < res.len() && res[j].0 < a
            invariant
                j <= res.len(),
                forall|i: int| 0 <= i < j ==> (#[trigger] res@[i]).0 < a,
            decreases res.len() - j,
        {
            j = j + 1;
        }
        if j < res.len() && res[j].0 == a {
            let c = res[j].1;
            res.set(j, (a, c + 1));
            proof {
                assert forall|i: int| 0 <= i < res@.len() implies #[trigger] res@[i].1 == count_amount(
                    post,
                    res@[i].0,
                ) && res@[i].1 > 0 by {
                    assert(old_res[i].1 == count_amount(pre, old_res[i].0));
                    if i != j {
                        assert(old_res[i].0 != a) by {
                            if i < j {
                            } else {
                                assert(old_res[j as int].0 < old_res[i].0);
                            }
                        }
                    }
                }
                assert forall|m: int| 0 <= m < post.len() implies exists|i: int|
                    0 <= i < res@.len() && res@[i].0 == (#[trigger] post[m]).amount_msat by {
                    if m < pre.len() {
                        assert(pre[m] == post[m]);
                        let i = choose|i: int| 0 <= i < old_res.len() && old_res[i].0 == (#[trigger] pre[m]).amount_msat;
                        assert(res@[i].0 == old_res[i].0);
                    } else {
                        assert(res@[j as int].0 == a);
                    }
                }
            }
        } else {
            res.insert(j, (a, 1));
            proof {
                assert forall|i: int| 0 <= i < pre.len() implies (#[trigger] pre[i]).amount_msat != a by {
                    if pre[i].amount_msat == a {
                        let w = choose|w: int| 0 <= w < old_res.len() && old_res[w].0 == (#[trigger] pre[i]).amount_msat;
                        if w < j {
                        } else if w == j {
                        } else {
                            assert(old_res[j as int].0 < old_res[w].0);
                        }
                    }
                }
                lemma_count_amount_absent(pre, a);
                assert forall|i: int, i2: int| 0 <= i < i2 < res@.len() implies res@[i].0 < res@[i2].0 by {
                    if i2 < j {
                        assert(res@[i] == old_res[i]);
                        assert(res@[i2] == old_res[i2]);
                    } else if i2 == j {
                        assert(res@[i] == old_res[i]);
                    } else if i == j {
                        assert(res@[i2] == old_res[i2 - 1]);
                        if j < old_res.len() {
                            assert(old_res[j as int].0 >= a);
                            assert(old_res[j as int].0 != a);
                            if i2 - 1 > j {
                                assert(old_res[j as int].0 < old_res[i2 - 1].0);
                            }
                        }
                    } else if i < j {
                        assert(res@[i] == old_res[i]);
                        assert(res@[i2] == old_res[i2 - 1]);
                    } else {
                        assert(res@[i] == old_res[i - 1]);
                        assert(res@[i2] == old_res[i2 - 1]);
                    }
                }
                assert forall|i: int| 0 <= i < res@.len() implies #[trigger] res@[i].1 == count_amount(
                    post,
                    res@[i].0,
                ) && res@[i].1 > 0 by {
                    if i < j {
                        assert(res@[i] == old_res[i]);
                        assert(old_res[i].1 == count_amount(pre, old_res[i].0));
                    } else if i > j {
                        assert(res@[i] == old_res[i - 1]);
                        assert(old_res[i - 1].1 == count_amount(pre, old_res[i - 1].0));
                        assert(old_res[j as int].0 >= a);
                        assert(old_res[j as int].0 != a);
                        if i - 1 > j {
                            assert(old_res[j as int].0 < old_res[i - 1].0);
                        }
                    }
                }
                assert forall|m: int| 0 <= m < post.len() implies exists|i: int|
                    0 <= i < res@.len() && res@[i].0 == (#[trigger] post[m]).amount_msat by {
                    if m < pre.len() {
                        assert(pre[m] == post[m]);
                        let i = choose|i: int| 0 <= i < old_res.len() && old_res[i].0 == (#[trigger] pre[m]).amount_msat;
                        if i < j {
                            assert(res@[i] == old_res[i]);
                        } else {
                            assert(res@[i + 1] == old_res[i]);
                        }
                    } else {
                        assert(res@[j as int].0 == a);
                    }
                }
                assert forall|i: int| 0 <= i < res@.len() implies #[trigger] res@[i].1 <= k + 1 by {
                    if i < j {
                        assert(res@[i] == old_res[i]);
                    } else if i > j {
                        assert(res@[i] == old_res[i - 1]);
                    }
                }
            }
        }
        k = k + 1;
    }
    assert(notes@.take(notes.len() as int) =~= notes@);
    res
}

impl PaperNote {
    pub fn total_amount_msat(&self) -> (total: u64)
        requires
            spec_total_msat(self.ecash_notes@) <= u64::MAX,
        ensures
            total == spec_total_msat(self.ecash_notes@),
    {
        sum_amounts(&self.ecash_notes)
    }

    pub fn status(&self) -> (res: PaperNoteStatus)
        ensures
            res == spec_paper_status(self.ecash_notes@),
    {
        let mut all_spent_so_far = true;
        let mut all_unspent_so_far = true;
        let mut has_error = false;
        let mut i: usize = 0;
        while i < self.ecash_notes.len()
            invariant
                i <= self.ecash_notes@.len(),
                all_spent_so_far == (forall|j: int| 0 <= j < i ==> (#[trigger] self.ecash_notes@[j]).status is Spent),
                all_unspent_so_far == (forall|j: int| 0 <= j < i ==> (#[trigger] self.ecash_notes@[j]).status is Unspent),
                has_error == (exists|j: int| 0 <= j < i && (#[trigger] self.ecash_notes@[j]).status is Error),
            decreases self.ecash_notes@.len() - i,
        {
            let st = &self.ecash_notes[i].status;
            if !st.is_spent() {
                all_spent_so_far = false;
            }
            if !st.is_unspent() {
                all_unspent_so_far = false;
            }
            if st.is_error() {
                has_error = true;
            }
            i = i + 1;
        }
        if has_error {
            PaperNoteStatus::Error
        } else if all_spent_so_far {
            PaperNoteStatus::Spent
        } else if all_unspent_so_far {
            PaperNoteStatus::Unspent
        } else {
            PaperNoteStatus::PartiallySpent
        }
    }

    pub fn is_spent(&self) -> (res: bool)
        ensures
            res == (spec_paper_status(self.ecash_notes@) == PaperNoteStatus::Spent),
    {
        self.status() == PaperNoteStatus::Spent
    }

    pub fn is_unspent(&self) -> (res: bool)
        ensures
            res == (spec_paper_status(self.ecash_notes@) == PaperNoteStatus::Unspent),
    {
        self.status() == PaperNoteStatus::Unspent
    }

    /// The latest redemption time among the constituent ecash notes.
    pub fn redemption_time(&self) -> (res: Option<i64>)
        ensures
            res == spec_latest_redemption(self.ecash_notes@),
    {
        let mut best: Option<i64> = None;
        let mut i: usize = 0;
        while i < self.ecash_notes.len()
            invariant
                i <= self.ecash_notes@.len(),
                best == spec_latest_redemption(self.ecash_notes@.take(i as int)),
            decreases self.ecash_notes@.len() - i,
        {
            assert(self.ecash_notes@.take(i + 1).drop_last() =~= self.ecash_notes@.take(i as int));
            let t = self.ecash_notes[i].redemption_time();
            best = match (best, t) {
                (None, x) => x,
                (x, None) => x,
                (Some(x), Some(y)) => Some(if x >= y { x } else { y }),
            };
            i = i + 1;
        }
        assert(self.ecash_notes@.take(self.ecash_notes@.len() as int) =~= self.ecash_notes@);
        best
    }

    /// The latest time any constituent ecash note was checked.
    pub fn last_checked(&self) -> (res: Option<i64>)
        ensures
            res == spec_latest_check(self.ecash_notes@),
    {
        let mut best: Option<i64> = None;
        let mut i: usize = 0;
        while i < self.ecash_notes.len()
            invariant
                i <= self.ecash_notes@.len(),
                best == spec_latest_check(self.ecash_notes@.take(i as int)),
            decreases self.ecash_notes@.len() - i,
        {
            assert(self.ecash_notes@.take(i + 1).drop_last() =~= self.ecash_notes@.take(i as int));
            let t = self.ecash_notes[i].last_checked;
            best = match (best, t) {
                (None, x) => x,
                (x, None) => x,
                (Some(x), Some(y)) => Some(if x >= y { x } else { y }),
            };
            i = i + 1;
        }
        assert(self.ecash_notes@.take(self.ecash_notes@.len() as int) =~= self.ecash_notes@);
        best
    }

    /// The spend info of the first spent ecash note (for session display).
    pub fn spend_info(&self) -> (res: Option<&SpendInfo>)
        ensures
            match res {
                Some(info) => spec_first_spend_info(self.ecash_notes@) == Some(*info),
                None => spec_first_spend_info(self.ecash_notes@) is None,
            },
    {
        let mut i: usize = 0;
        assert(self.ecash_notes@.skip(0) =~= self.ecash_notes@);
        while i < self.ecash_notes.len()
            invariant
                i <= self.ecash_notes@.len(),
                spec_first_spend_info(self.ecash_notes@) == spec_first_spend_info(self.ecash_notes@.skip(i as int)),
            decreases self.ecash_notes@.len() - i,
        {
            assert(self.ecash_notes@.skip(i as int)[0] == self.ecash_notes@[i as int]);
            assert(self.ecash_notes@.skip(i as int).drop_first() =~= self.ecash_notes@.skip(i + 1));
            match &self.ecash_notes[i].status {
                NoteStatus::Spent(info) => return Some(info),
                _ => {},
            }
            i = i + 1;
        }
        None
    }

    /// The nonce shown for the paper note: that of its first ecash note.
    pub fn display_nonce(&self) -> (res: &str)
        ensures
            res@ == (if self.ecash_notes@.len() > 0 {
                self.ecash_notes@[0].nonce@
            } else {
                Seq::<char>::empty()
            }),
    {
        if self.ecash_notes.len() > 0 {
            self.ecash_notes[0].nonce.as_str()
        } else {
            proof {
                reveal_strlit("");
            }
            ""
        }
    }

    /// Each amount among the ecash notes with the number of notes of that
    /// amount, in increasing order of amount.
    pub fn denomination_breakdown(&self) -> (res: Vec<(u64, usize)>)
        ensures
            is_denomination_breakdown(self.ecash_notes@, res@),
    {
        breakdown_of(&self.ecash_notes)
    }

    pub fn ecash_note_count(&self) -> (res: usize)
        ensures
            res == self.ecash_notes@.len(),
    {
        self.ecash_notes.len()
    }
}


/// The notes with the given paper note id, in their original order.
pub open spec fn notes_with_id(notes: Seq<Note>, id: u128) -> Seq<Note>
    decreases notes.len(),
{
    if notes.len() == 0 {
        Seq::empty()
    } else {
        let prev = notes_with_id(notes.drop_last(), id);
        if notes.last().paper_note_id == id {
            prev.push(notes.last())
        } else {
            prev
        }
    }
}

/// The smaller of two optional indices (an absent index is ignored).
pub open spec fn smaller(a: Option<usize>, b: usize) -> Option<usize> {
    match a {
        None => Some(b),
        Some(x) => Some(if x <= b { x } else { b }),
    }
}

/// The lowest index among notes, if there is a note.
pub open spec fn spec_min_index(notes: Seq<Note>) -> Option<usize>
    decreases notes.len(),
{
    if notes.len() == 0 {
        None
    } else {
        smaller(spec_min_index(notes.drop_last()), notes.last().index)
    }
}

/// The import-order index of a paper note made of `notes`: their lowest
/// index, or 0 for no notes.
pub open spec fn spec_paper_index(notes: Seq<Note>) -> usize {
    match spec_min_index(notes) {
        Some(i) => i,
        None => 0,
    }
}

/// `groups` are the paper notes of `notes`: one per paper note id that occurs,
/// in increasing order of id, each with exactly the notes of that id in
/// their original order and the lowest index among them.
pub open spec fn is_paper_note_grouping(notes: Seq<Note>, groups: Seq<PaperNote>) -> bool {
    &&& forall|i: int, j: int|
        0 <= i < j < groups.len() ==> groups[i].paper_note_id < groups[j].paper_note_id
    &&& forall|i: int|
        0 <= i < groups.len() ==> {
            &&& (#[trigger] groups[i]).ecash_notes@ == notes_with_id(notes, groups[i].paper_note_id)
            &&& groups[i].ecash_notes@.len() > 0
            &&& groups[i].index == spec_paper_index(groups[i].ecash_notes@)
        }
    &&& forall|k: int|
        0 <= k < notes.len() ==> exists|i: int|
            0 <= i < groups.len() && groups[i].paper_note_id == (#[trigger] notes[k]).paper_note_id
}

/// Ids that do not occur have no notes.
proof fn lemma_notes_with_id_absent(notes: Seq<Note>, id: u128)
    requires
        forall|k: int| 0 <= k < notes.len() ==> (#[trigger] notes[k]).paper_note_id != id,
    ensures
        notes_with_id(notes, id) == Seq::<Note>::empty(),
    decreases notes.len(),
{
    if notes.len() > 0 {
        lemma_notes_with_id_absent(notes.drop_last(), id);
    }
}

/// Groups flat ecash notes into paper notes by paper note id.
pub fn group_into_paper_notes(notes: &[Note]) -> (res: Vec<PaperNote>)
    ensures
        is_paper_note_grouping(notes@, res@),
{
    let mut groups: Vec<PaperNote> = Vec::new();
    let mut k: usize = 0;
    while k < notes.len()
        invariant
            k <= notes@.len(),
            is_paper_note_grouping(notes@.take(k as int), groups@),
        decreases notes@.len() - k,
    {
        let note = notes[k].clone();
        let id = note.paper_note_id;
        let ghost pre = notes@.take(k as int);
        let ghost post = notes@.take(k + 1);
        let ghost old_groups = groups@;
        assert(post.drop_last() =~= pre);
        assert(post.last() == note);
        let mut j: usize = 0;
        while j < groups.len() && groups[j].paper_note_id < id
            invariant
                j <= groups@.len(),
                forall|i: int| 0 <= i < j ==> (#[trigger] groups@[i]).paper_note_id < id,
            decreases groups@.len() - j,
        {
            j = j + 1;
        }
        if j < groups.len() && groups[j].paper_note_id == id {
            let mut g = groups.remove(j);
            let ghost old_g = g;
            let note_index = note.index;
            g.ecash_notes.push(note);
            if note_index < g.index {
                g.index = note_index;
            }
            groups.insert(j, g);
            proof {
                assert(g.ecash_notes@ == old_g.ecash_notes@.push(notes@[k as int]));
                assert(g.ecash_notes@.drop_last() =~= old_g.ecash_notes@);
                assert(old_g == old_groups[j as int]);
                assert(spec_min_index(old_g.ecash_notes@) is Some);
                assert forall|i: int| 0 <= i < groups@.len() implies {
                    &&& (#[trigger] groups@[i]).ecash_notes@ == notes_with_id(post, groups@[i].paper_note_id)
                    &&& groups@[i].ecash_notes@.len() > 0
                    &&& groups@[i].index == spec_paper_index(groups@[i].ecash_notes@)
                } by {
                    if i == j {
                        assert(groups@[i] == g);
                        assert(old_g.ecash_notes@ == notes_with_id(pre, id));
                        assert(notes_with_id(post, id) == notes_with_id(pre, id).push(post.last()));
                        assert(spec_min_index(g.ecash_notes@) == smaller(
                            spec_min_index(old_g.ecash_notes@),
                            note_index,
                        ));


                    } else {
                        assert(groups@[i] == old_groups[i]);
                        assert(old_groups[i].paper_note_id != id) by {
                            if i > j {
                                assert(old_groups[j as int].paper_note_id < old_groups[i].paper_note_id);
                            }
                        }
                        let gi = old_groups[i];
                        assert(gi.ecash_notes@ == notes_with_id(pre, gi.paper_note_id));
                        assert(notes_with_id(post, gi.paper_note_id) == notes_with_id(pre, gi.paper_note_id));

                    }
                }
                assert forall|i: int, i2: int| 0 <= i < i2 < groups@.len() implies groups@[i].paper_note_id
                    < groups@[i2].paper_note_id by {
                    assert(groups@[i].paper_note_id == old_groups[i].paper_note_id);
                    assert(groups@[i2].paper_note_id == old_groups[i2].paper_note_id);
                }
                assert forall|m: int| 0 <= m < post.len() implies exists|i: int|
                    0 <= i < groups@.len() && groups@[i].paper_note_id == (#[trigger] post[m]).paper_note_id by {
                    if m < pre.len() {
                        assert(pre[m] == post[m]);
                        let i = choose|i: int|
                            0 <= i < old_groups.len() && old_groups[i].paper_note_id == (#[trigger] pre[m]).paper_note_id;
                        assert(groups@[i].paper_note_id == old_groups[i].paper_note_id);
                    } else {
                        assert(groups@[j as int].paper_note_id == id);
                    }
                }
            }
        } else {
            let note_index = note.index;
            let mut ecash_notes: Vec<Note> = Vec::new();
            ecash_notes.push(note);
            let g = PaperNote { paper_note_id: id, ecash_notes, index: note_index };
            groups.insert(j, g);
            proof {
                assert forall|i: int| 0 <= i < pre.len() implies (#[trigger] pre[i]).paper_note_id != id by {
                    if pre[i].paper_note_id == id {
                        let w = choose|w: int|
                            0 <= w < old_groups.len() && old_groups[w].paper_note_id == (#[trigger] pre[i]).paper_note_id;
                        if w > j {
                            assert(old_groups[j as int].paper_note_id < old_groups[w].paper_note_id);
                        }
                    }
                }
                lemma_notes_with_id_absent(pre, id);
                assert(g.ecash_notes@ =~= seq![notes@[k as int]]);
                assert(g.ecash_notes@.drop_last() =~= Seq::<Note>::empty());
                assert(notes_with_id(post, id) =~= seq![notes@[k as int]]);
                assert forall|i: int, i2: int| 0 <= i < i2 < groups@.len() implies groups@[i].paper_note_id
                    < groups@[i2].paper_note_id by {
                    if i2 < j {
                        assert(groups@[i] == old_groups[i]);
                        assert(groups@[i2] == old_groups[i2]);
                    } else if i2 == j {
                        assert(groups@[i] == old_groups[i]);
                    } else if i == j {
                        assert(groups@[i2] == old_groups[i2 - 1]);
                        if j < old_groups.len() {
                            assert(old_groups[j as int].paper_note_id >= id);
                            assert(old_groups[j as int].paper_note_id != id);
                            if i2 - 1 > j {
                                assert(old_groups[j as int].paper_note_id < old_groups[i2 - 1].paper_note_id);
                            }
                        }
                    } else if i < j {
                        assert(groups@[i] == old_groups[i]);
                        assert(groups@[i2] == old_groups[i2 - 1]);
                    } else {
                        assert(groups@[i] == old_groups[i - 1]);
                        assert(groups@[i2] == old_groups[i2 - 1]);
                    }
                }
                assert forall|i: int| 0 <= i < groups@.len() implies {
                    &&& (#[trigger] groups@[i]).ecash_notes@ == notes_with_id(post, groups@[i].paper_note_id)
                    &&& groups@[i].ecash_notes@.len() > 0
                    &&& groups@[i].index == spec_paper_index(groups@[i].ecash_notes@)
                } by {
                    if i < j {
                        assert(groups@[i] == old_groups[i]);
                    } else if i == j {
                        assert(spec_min_index(Seq::<Note>::empty()) == None::<usize>);
                        assert(spec_min_index(g.ecash_notes@) == Some(note_index));
                    } else {
                        assert(groups@[i] == old_groups[i - 1]);
                        assert(old_groups[j as int].paper_note_id >= id);
                        assert(old_groups[j as int].paper_note_id != id);
                        if i - 1 > j {
                            assert(old_groups[j as int].paper_note_id < old_groups[i - 1].paper_note_id);
                        }
                    }
                }
                assert forall|m: int| 0 <= m < post.len() implies exists|i: int|
                    0 <= i < groups@.len() && groups@[i].paper_note_id == (#[trigger] post[m]).paper_note_id by {
                    if m < pre.len() {
                        assert(pre[m] == post[m]);
                        let i = choose|i: int|
                            0 <= i < old_groups.len() && old_groups[i].paper_note_id == (#[trigger] pre[m]).paper_note_id;
                        if i < j {
                            assert(groups@[i] == old_groups[i]);
                        } else {
                            assert(groups@[i + 1] == old_groups[i]);
                        }
                    } else {
                        assert(groups@[j as int].paper_note_id == id);
                    }
                }
            }
        }
        k = k + 1;
    }
    assert(notes@.take(notes@.len() as int) =~= notes@);
    groups
}

/// The number of ecash notes in a sequence of paper notes.
pub open spec fn spec_ecash_count(groups: Seq<PaperNote>) -> nat
    decreases groups.len(),
{
    if groups.len() == 0 {
        0
    } else {
        spec_ecash_count(groups.drop_last()) + groups.last().ecash_notes@.len()
    }
}

/// The total amount of a sequence of paper notes.
pub open spec fn spec_groups_total(groups: Seq<PaperNote>) -> nat
    decreases groups.len(),
{
    if groups.len() == 0 {
        0
    } else {
        spec_groups_total(groups.drop_last()) + spec_total_msat(groups.last().ecash_notes@)
    }
}

/// The notes whose paper note id is not `id`, in their order.
pub open spec fn notes_without_id(notes: Seq<Note>, id: u128) -> Seq<Note>
    decreases notes.len(),
{
    if notes.len() == 0 {
        Seq::empty()
    } else {
        let prev = notes_without_id(notes.drop_last(), id);
        if notes.last().paper_note_id != id {
            prev.push(notes.last())
        } else {
            prev
        }
    }
}

/// Splitting notes by one id keeps their number and their total.
proof fn lemma_split_by_id(notes: Seq<Note>, id: u128)
    ensures
        notes.len() == notes_with_id(notes, id).len() + notes_without_id(notes, id).len(),
        spec_total_msat(notes) == spec_total_msat(notes_with_id(notes, id)) + spec_total_msat(
            notes_without_id(notes, id),
        ),
    decreases notes.len(),
{
    if notes.len() > 0 {
        lemma_split_by_id(notes.drop_last(), id);
        let prev_with = notes_with_id(notes.drop_last(), id);
        let prev_without = notes_without_id(notes.drop_last(), id);
        if notes.last().paper_note_id == id {
            assert(notes_with_id(notes, id).drop_last() =~= prev_with);
        } else {
            assert(notes_without_id(notes, id).drop_last() =~= prev_without);
        }
    }
}

/// Taking out one id leaves the notes of every other id as they were.
proof fn lemma_without_id_keeps_others(notes: Seq<Note>, id: u128, other: u128)
    requires
        other != id,
    ensures
        notes_with_id(notes_without_id(notes, id), other) == notes_with_id(notes, other),
    decreases notes.len(),
{
    if notes.len() > 0 {
        lemma_without_id_keeps_others(notes.drop_last(), id, other);
        let rest = notes_without_id(notes, id);
        if notes.last().paper_note_id != id {
            assert(rest.drop_last() =~= notes_without_id(notes.drop_last(), id));
        }
    }
}

/// Each note left after taking out one id is a note of another id.
proof fn lemma_without_id_members(notes: Seq<Note>, id: u128)
    ensures
        forall|k: int|
            0 <= k < notes_without_id(notes, id).len() ==> {
                &&& (#[trigger] notes_without_id(notes, id)[k]).paper_note_id != id
                &&& exists|j: int| 0 <= j < notes.len() && notes[j] == notes_without_id(notes, id)[k]
            },
    decreases notes.len(),
{
    if notes.len() > 0 {
        let prev = notes.drop_last();
        lemma_without_id_members(prev, id);
        let rest = notes_without_id(notes, id);
        let prev_rest = notes_without_id(prev, id);
        assert forall|k: int| 0 <= k < rest.len() implies {
            &&& (#[trigger] rest[k]).paper_note_id != id
            &&& exists|j: int| 0 <= j < notes.len() && notes[j] == rest[k]
        } by {
            if k < prev_rest.len() {
                assert(rest[k] == prev_rest[k]);
                let j = choose|j: int| 0 <= j < prev.len() && prev[j] == prev_rest[k];
                assert(notes[j] == prev[j]);
            } else {
                assert(rest[k] == notes.last());
                assert(notes[notes.len() - 1] == rest[k]);
            }
        }
    }
}

/// Grouping into paper notes loses and adds no ecash note: the paper notes
/// of a set hold as many ecash notes as the set, and the same total amount.
pub proof fn lemma_grouping_partitions_notes(notes: Seq<Note>, groups: Seq<PaperNote>)
    requires
        is_paper_note_grouping(notes, groups),
    ensures
        spec_ecash_count(groups) == notes.len(),
        spec_groups_total(groups) == spec_total_msat(notes),
    decreases groups.len(),
{
    if groups.len() == 0 {
        if notes.len() > 0 {
            assert(notes[0].paper_note_id == notes[0].paper_note_id);
        }
    } else {
        let last = groups.last();
        let id = last.paper_note_id;
        let rest = notes_without_id(notes, id);
        let earlier = groups.drop_last();
        lemma_without_id_members(notes, id);
        assert forall|i: int| 0 <= i < earlier.len() implies {
            &&& (#[trigger] earlier[i]).ecash_notes@ == notes_with_id(rest, earlier[i].paper_note_id)
            &&& earlier[i].ecash_notes@.len() > 0
            &&& earlier[i].index == spec_paper_index(earlier[i].ecash_notes@)
        } by {
            assert(earlier[i] == groups[i]);
            assert(groups[i].paper_note_id < id);
            lemma_without_id_keeps_others(notes, id, groups[i].paper_note_id);
        }
        assert forall|k: int| 0 <= k < rest.len() implies exists|i: int|
            0 <= i < earlier.len() && earlier[i].paper_note_id == (#[trigger] rest[k]).paper_note_id by {
            let j = choose|j: int| 0 <= j < notes.len() && notes[j] == rest[k];
            let i = choose|i: int| 0 <= i < groups.len() && groups[i].paper_note_id == (#[trigger] notes[j]).paper_note_id;
            assert(i != groups.len() - 1);
            assert(earlier[i] == groups[i]);
        }
        assert forall|i: int, i2: int| 0 <= i < i2 < earlier.len() implies earlier[i].paper_note_id
            < earlier[i2].paper_note_id by {
            assert(earlier[i] == groups[i]);
            assert(earlier[i2] == groups[i2]);
        }
        lemma_grouping_partitions_notes(rest, earlier);
        lemma_split_by_id(notes, id);
        assert(groups[groups.len() - 1] == last);
    }
}

/// The counts of a denomination breakdown added up.
pub open spec fn spec_breakdown_count(b: Seq<(u64, usize)>) -> nat
    decreases b.len(),
{
    if b.len() == 0 {
        0
    } else {
        spec_breakdown_count(b.drop_last()) + b.last().1 as nat
    }
}

/// The amounts of a denomination breakdown times their counts, added up.
pub open spec fn spec_breakdown_total(b: Seq<(u64, usize)>) -> nat
    decreases b.len(),
{
    if b.len() == 0 {
        0
    } else {
        spec_breakdown_total(b.drop_last()) + (b.last().0 as nat) * (b.last().1 as nat)
    }
}

/// The notes whose amount is not `amount`, in their order.
pub open spec fn notes_without_amount(notes: Seq<Note>, amount: u64) -> Seq<Note>
    decreases notes.len(),
{
    if notes.len() == 0 {
        Seq::empty()
    } else {
        let prev = notes_without_amount(notes.drop_last(), amount);
        if notes.last().amount_msat != amount {
            prev.push(notes.last())
        } else {
            prev
        }
    }
}

proof fn lemma_split_by_amount(notes: Seq<Note>, amount: u64)
    ensures
        notes.len() == count_amount(notes, amount) + notes_without_amount(notes, amount).len(),
        spec_total_msat(notes) == (amount as nat) * count_amount(notes, amount) + spec_total_msat(
            notes_without_amount(notes, amount),
        ),
    decreases notes.len(),
{
    if notes.len() == 0 {
        assert((amount as nat) * 0 == 0) by (nonlinear_arith);
    } else {
        lemma_split_by_amount(notes.drop_last(), amount);
        let c = count_amount(notes.drop_last(), amount);
        if notes.last().amount_msat == amount {
            assert(count_amount(notes, amount) == c + 1);
            assert(notes_without_amount(notes, amount) == notes_without_amount(notes.drop_last(), amount));
            assert((amount as nat) * (c + 1) == (amount as nat) * c + amount as nat) by (nonlinear_arith);
            assert(spec_total_msat(notes) == spec_total_msat(notes.drop_last()) + amount as nat);
        } else {
            assert(count_amount(notes, amount) == c);
            let w = notes_without_amount(notes, amount);
            assert(w.last() == notes.last());
            assert(spec_total_msat(w) == spec_total_msat(w.drop_last()) + notes.last().amount_msat as nat);
            assert(notes_without_amount(notes, amount).drop_last() =~= notes_without_amount(notes.drop_last(), amount));
        }
    }
}

proof fn lemma_without_amount_keeps_others(notes: Seq<Note>, amount: u64, other: u64)
    requires
        other != amount,
    ensures
        count_amount(notes_without_amount(notes, amount), other) == count_amount(notes, other),
    decreases notes.len(),
{
    if notes.len() > 0 {
        lemma_without_amount_keeps_others(notes.drop_last(), amount, other);
        if notes.last().amount_msat != amount {
            assert(notes_without_amount(notes, amount).drop_last() =~= notes_without_amount(notes.drop_last(), amount));
        }
    }
}

proof fn lemma_without_amount_members(notes: Seq<Note>, amount: u64)
    ensures
        forall|k: int|
            0 <= k < notes_without_amount(notes, amount).len() ==> {
                &&& (#[trigger] notes_without_amount(notes, amount)[k]).amount_msat != amount
                &&& exists|j: int| 0 <= j < notes.len() && notes[j] == notes_without_amount(notes, amount)[k]
            },
    decreases notes.len(),
{
    if notes.len() > 0 {
        let prev = notes.drop_last();
        lemma_without_amount_members(prev, amount);
        let rest = notes_without_amount(notes, amount);
        let prev_rest = notes_without_amount(prev, amount);
        assert forall|k: int| 0 <= k < rest.len() implies {
            &&& (#[trigger] rest[k]).amount_msat != amount
            &&& exists|j: int| 0 <= j < notes.len() && notes[j] == rest[k]
        } by {
            if k < prev_rest.len() {
                assert(rest[k] == prev_rest[k]);
                let j = choose|j: int| 0 <= j < prev.len() && prev[j] == prev_rest[k];
                assert(notes[j] == prev[j]);
            } else {
                assert(rest[k] == notes.last());
                assert(notes[notes.len() - 1] == rest[k]);
            }
        }
    }
}

/// A denomination breakdown accounts for every ecash note once: its counts
/// add up to the number of notes, and its amounts times counts to their
/// total amount.
pub proof fn lemma_breakdown_accounts_for_notes(notes: Seq<Note>, breakdown: Seq<(u64, usize)>)
    requires
        is_denomination_breakdown(notes, breakdown),
    ensures
        spec_breakdown_count(breakdown) == notes.len(),
        spec_breakdown_total(breakdown) == spec_total_msat(notes),
    decreases breakdown.len(),
{
    if breakdown.len() == 0 {
        if notes.len() > 0 {
            assert(notes[0].amount_msat == notes[0].amount_msat);
        }
    } else {
        let last = breakdown.last();
        let a = last.0;
        let rest = notes_without_amount(notes, a);
        let earlier = breakdown.drop_last();
        lemma_without_amount_members(notes, a);
        assert forall|i: int| 0 <= i < earlier.len() implies #[trigger] earlier[i].1 == count_amount(rest, earlier[i].0)
            && earlier[i].1 > 0 by {
            assert(earlier[i] == breakdown[i]);
            assert(breakdown[i].0 < a);
            lemma_without_amount_keeps_others(notes, a, breakdown[i].0);
        }
        assert forall|k: int| #![trigger rest[k]] 0 <= k < rest.len() implies exists|i: int|
            0 <= i < earlier.len() && earlier[i].0 == rest[k].amount_msat by {
            let j = choose|j: int| 0 <= j < notes.len() && notes[j] == rest[k];
            assert(notes[j].amount_msat == rest[k].amount_msat);
            let i = choose|i: int| 0 <= i < breakdown.len() && breakdown[i].0 == (#[trigger] notes[j]).amount_msat;
            assert(i != breakdown.len() - 1);
            assert(earlier[i] == breakdown[i]);
            assert(earlier[i].0 == rest[k].amount_msat);
            assert(exists|i2: int| 0 <= i2 < earlier.len() && earlier[i2].0 == rest[k].amount_msat);
        }
        assert forall|i: int, j: int| 0 <= i < j < earlier.len() implies earlier[i].0 < earlier[j].0 by {
            assert(earlier[i] == breakdown[i]);
            assert(earlier[j] == breakdown[j]);
        }
        if rest.len() > 0 {
            assert(exists|i: int| 0 <= i < earlier.len() && earlier[i].0 == rest[0].amount_msat);
        }
        lemma_breakdown_accounts_for_notes(rest, earlier);
        lemma_split_by_amount(notes, a);
        assert(breakdown[breakdown.len() - 1] == last);
    }
}

/// Two strictly increasing sequences with the same elements are equal.
pub proof fn lemma_increasing_same_elements(a: Seq<int>, b: Seq<int>)
    requires
        forall|i: int, j: int| 0 <= i < j < a.len() ==> a[i] < a[j],
        forall|i: int, j: int| 0 <= i < j < b.len() ==> b[i] < b[j],
        forall|x: int| a.contains(x) <==> b.contains(x),
    ensures
        a == b,
    decreases a.len(),
{
    if a.len() == 0 {
        if b.len() > 0 {
            assert(b.contains(b[0]));
        }
        assert(a =~= b);
    } else {
        assert(a.contains(a[0]));
        assert(b.contains(b[0]));
        let i = choose|i: int| 0 <= i < b.len() && b[i] == a[0];
        let j = choose|j: int| 0 <= j < a.len() && a[j] == b[0];
        if i > 0 {
            assert(b[0] < b[i]);
            if j > 0 {
                assert(a[0] < a[j]);
            }
        }
        assert(a[0] == b[0]);
        let a1 = a.drop_first();
        let b1 = b.drop_first();
        assert forall|x: int| a1.contains(x) <==> b1.contains(x) by {
            if a1.contains(x) {
                let k = choose|k: int| 0 <= k < a1.len() && a1[k] == x;
                assert(a[k + 1] == x);
                assert(a[0] < a[k + 1]);
                assert(b.contains(x));
                let m = choose|m: int| 0 <= m < b.len() && b[m] == x;
                assert(m != 0);
                assert(b1[m - 1] == x);
            }
            if b1.contains(x) {
                let k = choose|k: int| 0 <= k < b1.len() && b1[k] == x;
                assert(b[k + 1] == x);
                assert(b[0] < b[k + 1]);
                assert(a.contains(x));
                let m = choose|m: int| 0 <= m < a.len() && a[m] == x;
                assert(m != 0);
                assert(a1[m - 1] == x);
            }
        }
        assert forall|i: int, j: int| 0 <= i < j < a1.len() implies a1[i] < a1[j] by {
            assert(a1[i] == a[i + 1] && a1[j] == a[j + 1]);
        }
        assert forall|i: int, j: int| 0 <= i < j < b1.len() implies b1[i] < b1[j] by {
            assert(b1[i] == b[i + 1] && b1[j] == b[j + 1]);
        }
        lemma_increasing_same_elements(a1, b1);
        assert(a =~= b) by {
            assert forall|k: int| 0 <= k < a.len() implies a[k] == b[k] by {
                if k > 0 {
                    assert(a[k] == a1[k - 1] && b[k] == b1[k - 1]);
                }
            }
        }
    }
}

/// The ids of a grouping, as integers.
pub open spec fn group_keys(groups: Seq<PaperNote>) -> Seq<int> {
    groups.map_values(|g: PaperNote| g.paper_note_id as int)
}

/// The ids of a grouping are exactly the ids among the notes.
proof fn lemma_grouping_keys(notes: Seq<Note>, groups: Seq<PaperNote>, x: int)
    requires
        is_paper_note_grouping(notes, groups),
    ensures
        group_keys(groups).contains(x) <==> exists|k: int| 0 <= k < notes.len() && notes[k].paper_note_id as int == x,
{
    let keys = group_keys(groups);
    if keys.contains(x) {
        let i = choose|i: int| 0 <= i < keys.len() && keys[i] == x;
        let g = groups[i];
        assert(g.ecash_notes@.len() > 0);
        let n0 = g.ecash_notes@[0];
        lemma_notes_with_id_members(notes, g.paper_note_id);
        let k = choose|k: int| 0 <= k < notes.len() && notes[k] == notes_with_id(notes, g.paper_note_id)[0];
        assert(notes[k].paper_note_id as int == x);
    }
    if exists|k: int| 0 <= k < notes.len() && notes[k].paper_note_id as int == x {
        let k = choose|k: int| 0 <= k < notes.len() && notes[k].paper_note_id as int == x;
        let i = choose|i: int| 0 <= i < groups.len() && groups[i].paper_note_id == (#[trigger] notes[k]).paper_note_id;
        assert(keys[i] == x);
    }
}

/// The notes with an id are notes of the sequence and have that id.
proof fn lemma_notes_with_id_members(notes: Seq<Note>, id: u128)
    ensures
        forall|k: int|
            0 <= k < notes_with_id(notes, id).len() ==> {
                &&& (#[trigger] notes_with_id(notes, id)[k]).paper_note_id == id
                &&& exists|j: int| 0 <= j < notes.len() && notes[j] == notes_with_id(notes, id)[k]
            },
    decreases notes.len(),
{
    if notes.len() > 0 {
        let prev = notes.drop_last();
        lemma_notes_with_id_members(prev, id);
        let w = notes_with_id(notes, id);
        let pw = notes_with_id(prev, id);
        assert forall|k: int| 0 <= k < w.len() implies {
            &&& (#[trigger] w[k]).paper_note_id == id
            &&& exists|j: int| 0 <= j < notes.len() && notes[j] == w[k]
        } by {
            if k < pw.len() {
                assert(w[k] == pw[k]);
                let j = choose|j: int| 0 <= j < prev.len() && prev[j] == pw[k];
                assert(notes[j] == prev[j]);
            } else {
                assert(w[k] == notes.last());
                assert(notes[notes.len() - 1] == w[k]);
            }
        }
    }
}

/// The grouping of notes into paper notes is unique: two groupings of the
/// same notes have the same paper notes, in the same order.
pub proof fn lemma_grouping_unique(notes: Seq<Note>, a: Seq<PaperNote>, b: Seq<PaperNote>)
    requires
        is_paper_note_grouping(notes, a),
        is_paper_note_grouping(notes, b),
    ensures
        a.len() == b.len(),
        forall|i: int|
            0 <= i < a.len() ==> (#[trigger] a[i]).paper_note_id == b[i].paper_note_id && a[i].ecash_notes@
                == b[i].ecash_notes@ && a[i].index == b[i].index,
{
    let ka = group_keys(a);
    let kb = group_keys(b);
    assert forall|x: int| ka.contains(x) <==> kb.contains(x) by {
        lemma_grouping_keys(notes, a, x);
        lemma_grouping_keys(notes, b, x);
    }
    assert forall|i: int, j: int| 0 <= i < j < ka.len() implies ka[i] < ka[j] by {
        assert(a[i].paper_note_id < a[j].paper_note_id);
    }
    assert forall|i: int, j: int| 0 <= i < j < kb.len() implies kb[i] < kb[j] by {
        assert(b[i].paper_note_id < b[j].paper_note_id);
    }
    lemma_increasing_same_elements(ka, kb);
    assert forall|i: int| 0 <= i < a.len() implies (#[trigger] a[i]).paper_note_id == b[i].paper_note_id
        && a[i].ecash_notes@ == b[i].ecash_notes@ && a[i].index == b[i].index by {
        assert(ka[i] == kb[i]);
    }
}

/// An amount with notes occurs among the notes.
proof fn lemma_count_amount_positive(notes: Seq<Note>, amount: u64)
    requires
        count_amount(notes, amount) > 0,
    ensures
        exists|k: int| 0 <= k < notes.len() && notes[k].amount_msat == amount,
    decreases notes.len(),
{
    if notes.last().amount_msat == amount {
        assert(notes[notes.len() - 1].amount_msat == amount);
    } else {
        lemma_count_amount_positive(notes.drop_last(), amount);
        let k = choose|k: int| 0 <= k < notes.len() - 1 && notes.drop_last()[k].amount_msat == amount;
        assert(notes[k] == notes.drop_last()[k]);
    }
}

/// The amounts of a breakdown, as integers.
pub open spec fn breakdown_keys(b: Seq<(u64, usize)>) -> Seq<int> {
    b.map_values(|e: (u64, usize)| e.0 as int)
}

proof fn lemma_breakdown_keys(notes: Seq<Note>, b: Seq<(u64, usize)>, x: int)
    requires
        is_denomination_breakdown(notes, b),
    ensures
        breakdown_keys(b).contains(x) <==> exists|k: int| 0 <= k < notes.len() && notes[k].amount_msat as int == x,
{
    let keys = breakdown_keys(b);
    if keys.contains(x) {
        let i = choose|i: int| 0 <= i < keys.len() && keys[i] == x;
        assert(b[i].1 == count_amount(notes, b[i].0));
        lemma_count_amount_positive(notes, b[i].0);
    }
    if exists|k: int| 0 <= k < notes.len() && notes[k].amount_msat as int == x {
        let k = choose|k: int| 0 <= k < notes.len() && notes[k].amount_msat as int == x;
        assert(notes[k] == notes[k]);
        let i = choose|i: int| 0 <= i < b.len() && b[i].0 == notes[k].amount_msat;
        assert(keys[i] == x);
    }
}

/// The denomination breakdown of notes is unique: two breakdowns of the
/// same notes are equal.
pub proof fn lemma_breakdown_unique(notes: Seq<Note>, a: Seq<(u64, usize)>, b: Seq<(u64, usize)>)
    requires
        is_denomination_breakdown(notes, a),
        is_denomination_breakdown(notes, b),
    ensures
        a == b,
{
    let ka = breakdown_keys(a);
    let kb = breakdown_keys(b);
    assert forall|x: int| ka.contains(x) <==> kb.contains(x) by {
        lemma_breakdown_keys(notes, a, x);
        lemma_breakdown_keys(notes, b, x);
    }
    assert forall|i: int, j: int| 0 <= i < j < ka.len() implies ka[i] < ka[j] by {
        assert(a[i].0 < a[j].0);
    }
    assert forall|i: int, j: int| 0 <= i < j < kb.len() implies kb[i] < kb[j] by {
        assert(b[i].0 < b[j].0);
    }
    lemma_increasing_same_elements(ka, kb);
    assert forall|i: int| 0 <= i < a.len() implies a[i] == b[i] by {
        assert(ka[i] == kb[i]);
        assert(a[i].1 == count_amount(notes, a[i].0));
        assert(b[i].1 == count_amount(notes, b[i].0));
    }
    assert(a =~= b);
}

} // verus!
