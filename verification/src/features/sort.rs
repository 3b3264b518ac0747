//! Orders in which the notes of a set are listed.

use vstd::prelude::*;
use crate::models::note::{Note, spec_redemption_time};

verus! {

/// How notes are listed.
#[derive(Clone, Copy, Debug, PartialEq, Eq, Structural)]
pub enum SortOrder {
    /// In import order.
    ImportOrder,
    /// Earliest redemption first; notes without a redemption time last.
    RedemptionDateAsc,
    /// Latest redemption first; notes without a redemption time last.
    RedemptionDateDesc,
}

impl Default for SortOrder {
    fn default() -> (res: Self)
        ensures
            res == SortOrder::ImportOrder,
    {
        SortOrder::ImportOrder
    }
}

/// Three-way comparison of integers: -1, 0 or 1.
pub open spec fn three_way(a: int, b: int) -> int {
    if a < b {
        -1
    } else if a == b {
        0
    } else {
        1
    }
}

/// How two notes compare in an order: negative when `a` comes first,
/// positive when `b` does, zero when the order does not separate them.
/// By redemption date, notes with a time come before notes without one,
/// and notes without one keep import order.
pub open spec fn note_precedence(order: SortOrder, a: Note, b: Note) -> int {
    match order {
        SortOrder::ImportOrder => three_way(a.index as int, b.index as int),
        SortOrder::RedemptionDateAsc => match (spec_redemption_time(a), spec_redemption_time(b)) {
            (Some(x), Some(y)) => three_way(x as int, y as int),
            (Some(_), None) => -1,
            (None, Some(_)) => 1,
            (None, None) => three_way(a.index as int, b.index as int),
        },
        SortOrder::RedemptionDateDesc => match (spec_redemption_time(a), spec_redemption_time(b)) {
            (Some(x), Some(y)) => three_way(y as int, x as int),
            (Some(_), None) => -1,
            (None, Some(_)) => 1,
            (None, None) => three_way(a.index as int, b.index as int),
        },
    }
}

/// Where a stable insertion puts `x` into `s`: before the first element
/// that `x` comes strictly before, else at the end.
pub open spec fn insert_pos(order: SortOrder, s: Seq<Note>, x: Note) -> int
    decreases s.len(),
{
    if s.len() == 0 {
        0
    } else if note_precedence(order, s[0], x) > 0 {
        0
    } else {
        1 + insert_pos(order, s.drop_first(), x)
    }
}

/// `s` sorted stably: each element inserted, in turn, after every element
/// that does not come strictly after it.
pub open spec fn spec_stable_sort(order: SortOrder, s: Seq<Note>) -> Seq<Note>
    decreases s.len(),
{
    if s.len() == 0 {
        s
    } else {
        let sorted = spec_stable_sort(order, s.drop_last());
        sorted.insert(insert_pos(order, sorted, s.last()), s.last())
    }
}

proof fn lemma_insert_pos(order: SortOrder, s: Seq<Note>, x: Note, j: int)
    requires
        0 <= j <= s.len(),
        forall|k: int| 0 <= k < j ==> note_precedence(order, #[trigger] s[k], x) <= 0,
        j == s.len() || note_precedence(order, s[j], x) > 0,
    ensures
        insert_pos(order, s, x) == j,
    decreases s.len(),
{
    if s.len() > 0 && j > 0 {
        assert forall|k: int| 0 <= k < j - 1 implies note_precedence(order, #[trigger] s.drop_first()[k], x) <= 0 by {
            assert(s.drop_first()[k] == s[k + 1]);
        }
        assert(note_precedence(order, s[0], x) <= 0);
        if j < s.len() {
            assert(s.drop_first()[j - 1] == s[j]);
        }
        lemma_insert_pos(order, s.drop_first(), x, j - 1);
    }
}

fn three_way_i64(a: i64, b: i64) -> (r: i8)
    ensures
        r == three_way(a as int, b as int),
{
    if a < b {
        -1
    } else if a == b {
        0
    } else {
        1
    }
}

fn three_way_usize(a: usize, b: usize) -> (r: i8)
    ensures
        r == three_way(a as int, b as int),
{
    if a < b {
        -1
    } else if a == b {
        0
    } else {
        1
    }
}

impl SortOrder {
    /// How two notes compare in this order.
    pub fn compare(&self, a: &Note, b: &Note) -> (r: i8)
        ensures
            r == note_precedence(*self, *a, *b),
    {
        match self {
            SortOrder::ImportOrder => three_way_usize(a.index, b.index),
            SortOrder::RedemptionDateAsc => match (a.redemption_time(), b.redemption_time()) {
                (Some(x), Some(y)) => three_way_i64(x, y),
                (Some(_), None) => -1,
                (None, Some(_)) => 1,
                (None, None) => three_way_usize(a.index, b.index),
            },
            SortOrder::RedemptionDateDesc => match (a.redemption_time(), b.redemption_time()) {
                (Some(x), Some(y)) => three_way_i64(y, x),
                (Some(_), None) => -1,
                (None, Some(_)) => 1,
                (None, None) => three_way_usize(a.index, b.index),
            },
        }
    }

    /// Sorts notes stably in this order.
    pub fn sort_notes(&self, notes: &mut Vec<Note>)
        ensures
            final(notes)@ == spec_stable_sort(*self, old(notes)@),
    {
        let ghost input = notes@;
        let mut sorted: Vec<Note> = Vec::new();
        let mut rest: Vec<Note> = Vec::new();
        std::mem::swap(&mut rest, notes);
        assert(input.take(0) =~= Seq::<Note>::empty());
        let n = rest.len();
        let mut i: usize = 0;
        while i < n
            invariant
                n == input.len(),
                i <= n,
                rest@ == input.skip(i as int),
                sorted@ == spec_stable_sort(*self, input.take(i as int)),
            decreases n - i,
        {
            let x = rest.remove(0);
            proof {
                assert(input.take(i + 1).drop_last() =~= input.take(i as int));
                assert(x == input[i as int]);
                assert(input.skip(i as int).remove(0) =~= input.skip(i + 1));
            }
            let mut j: usize = 0;
            while j < sorted.len() && self.compare(&sorted[j], &x) <= 0
                invariant
                    j <= sorted@.len(),
                    forall|k: int| 0 <= k < j ==> note_precedence(*self, #[trigger] sorted@[k], x) <= 0,
                decreases sorted@.len() - j,
            {
                j = j + 1;
            }
            proof {
                lemma_insert_pos(*self, sorted@, x, j as int);
            }
            sorted.insert(j, x);
            i = i + 1;
        }
        assert(input.take(n as int) =~= input);
        *notes = sorted;
    }
}

/// `s` is in `order`: no element comes strictly after a later one.
pub open spec fn sorted_in(order: SortOrder, s: Seq<Note>) -> bool {
    forall|i: int, j: int| 0 <= i < j < s.len() ==> note_precedence(order, #[trigger] s[i], #[trigger] s[j]) <= 0
}

/// Comparing the other way round flips the sign.
proof fn lemma_precedence_flip(order: SortOrder, a: Note, b: Note)
    ensures
        note_precedence(order, a, b) == -note_precedence(order, b, a),
{
}

/// The order is transitive, also where one step is strict.
proof fn lemma_precedence_trans(order: SortOrder, a: Note, b: Note, c: Note)
    requires
        note_precedence(order, a, b) <= 0,
        note_precedence(order, b, c) <= 0,
    ensures
        note_precedence(order, a, c) <= 0,
        note_precedence(order, a, b) < 0 ==> note_precedence(order, a, c) < 0,
        note_precedence(order, b, c) < 0 ==> note_precedence(order, a, c) < 0,
{
}

/// Where `insert_pos` puts `x`: after the elements that do not come after
/// `x`, before one that does.
proof fn lemma_insert_pos_bounds(order: SortOrder, s: Seq<Note>, x: Note)
    ensures
        0 <= insert_pos(order, s, x) <= s.len(),
        forall|k: int| 0 <= k < insert_pos(order, s, x) ==> note_precedence(order, #[trigger] s[k], x) <= 0,
        insert_pos(order, s, x) < s.len() ==> note_precedence(order, s[insert_pos(order, s, x)], x) > 0,
    decreases s.len(),
{
    if s.len() > 0 && note_precedence(order, s[0], x) <= 0 {
        let t = s.drop_first();
        lemma_insert_pos_bounds(order, t, x);
        assert forall|k: int| 0 <= k < insert_pos(order, s, x) implies note_precedence(order, #[trigger] s[k], x)
            <= 0 by {
            if k > 0 {
                assert(s[k] == t[k - 1]);
            }
        }
        if insert_pos(order, s, x) < s.len() {
            assert(s[insert_pos(order, s, x)] == t[insert_pos(order, t, x)]);
        }
    }
}

/// Inserting at `insert_pos` keeps a sorted sequence sorted.
proof fn lemma_insert_sorted(order: SortOrder, s: Seq<Note>, x: Note)
    requires
        sorted_in(order, s),
    ensures
        sorted_in(order, s.insert(insert_pos(order, s, x), x)),
{
    let p = insert_pos(order, s, x);
    lemma_insert_pos_bounds(order, s, x);
    let r = s.insert(p, x);
    assert forall|i: int, j: int| 0 <= i < j < r.len() implies note_precedence(order, #[trigger] r[i], #[trigger] r[j])
        <= 0 by {
        if j < p {
            assert(r[i] == s[i] && r[j] == s[j]);
        } else if j == p {
            assert(r[i] == s[i] && r[j] == x);
        } else if i == p {
            assert(r[j] == s[j - 1]);
            lemma_precedence_flip(order, s[p], x);
            if j - 1 > p {
                lemma_precedence_trans(order, x, s[p], s[j - 1]);
            }
        } else if i < p {
            assert(r[i] == s[i] && r[j] == s[j - 1]);
        } else {
            assert(r[i] == s[i - 1] && r[j] == s[j - 1]);
        }
    }
}

/// Inserting an element adds it to the multiset of elements.
proof fn lemma_insert_multiset(s: Seq<Note>, p: int, x: Note)
    requires
        0 <= p <= s.len(),
    ensures
        s.insert(p, x).to_multiset() =~= s.to_multiset().insert(x),
{
    broadcast use vstd::seq_lib::group_to_multiset_ensures;

    let r = s.insert(p, x);
    assert(r.remove(p) =~= s);
    assert(r[p] == x);
    assert(r.contains(x));
    assert(r.to_multiset().count(x) > 0);
}

/// Sorting keeps the elements and puts them in order.
proof fn lemma_stable_sort_sorted(order: SortOrder, s: Seq<Note>)
    ensures
        sorted_in(order, spec_stable_sort(order, s)),
        spec_stable_sort(order, s).to_multiset() =~= s.to_multiset(),
        spec_stable_sort(order, s).len() == s.len(),
    decreases s.len(),
{
    broadcast use vstd::seq_lib::group_to_multiset_ensures;

    if s.len() > 0 {
        let sorted = spec_stable_sort(order, s.drop_last());
        lemma_stable_sort_sorted(order, s.drop_last());
        lemma_insert_sorted(order, sorted, s.last());
        lemma_insert_pos_bounds(order, sorted, s.last());
        lemma_insert_multiset(sorted, insert_pos(order, sorted, s.last()), s.last());
        assert(s.drop_last().push(s.last()) =~= s);
    }
}

/// Filtering an insertion: the inserted element is kept or dropped as the
/// filter says, the others as before.
proof fn lemma_filter_insert(s: Seq<Note>, p: int, x: Note, pred: spec_fn(Note) -> bool)
    requires
        0 <= p <= s.len(),
    ensures
        s.insert(p, x).filter(pred) == s.take(p).filter(pred) + (if pred(x) {
            seq![x]
        } else {
            Seq::<Note>::empty()
        }) + s.skip(p).filter(pred),
        s.filter(pred) == s.take(p).filter(pred) + s.skip(p).filter(pred),
{
    let front = s.take(p);
    let back = s.skip(p);
    assert(s.insert(p, x) =~= front + seq![x] + back);
    assert(s =~= front + back);
    Seq::filter_distributes_over_add(front + seq![x], back, pred);
    Seq::filter_distributes_over_add(front, seq![x], pred);
    Seq::filter_distributes_over_add(front, back, pred);
    Seq::<Note>::empty().lemma_filter_push(x, pred);
    assert(Seq::<Note>::empty().push(x) =~= seq![x]);
    assert(Seq::<Note>::empty().filter(pred) =~= Seq::<Note>::empty()) by {
        reveal(Seq::filter);
    }
}

/// The notes that `order` does not separate from `y`.
pub open spec fn tied_with(order: SortOrder, y: Note) -> spec_fn(Note) -> bool {
    |z: Note| note_precedence(order, z, y) == 0
}

/// Sorting is stable: the notes that the order does not separate from `y`
/// come out in the order they went in.
proof fn lemma_stable_sort_stable(order: SortOrder, s: Seq<Note>, y: Note)
    ensures
        spec_stable_sort(order, s).filter(tied_with(order, y)) == s.filter(tied_with(order, y)),
    decreases s.len(),
{
    let pred = tied_with(order, y);
    if s.len() == 0 {
    } else {
        let t = s.drop_last();
        let x = s.last();
        let sorted = spec_stable_sort(order, t);
        let p = insert_pos(order, sorted, x);
        lemma_stable_sort_stable(order, t, y);
        lemma_stable_sort_sorted(order, t);
        lemma_insert_pos_bounds(order, sorted, x);
        lemma_filter_insert(sorted, p, x, pred);
        assert(t.push(x) =~= s);
        t.lemma_filter_push(x, pred);
        if pred(x) {
            let back = sorted.skip(p);
            assert forall|k: int| 0 <= k < back.len() implies !pred(#[trigger] back[k]) by {
                let z = sorted[p + k];
                assert(back[k] == z);
                lemma_precedence_flip(order, sorted[p], x);
                if k > 0 {
                    assert(note_precedence(order, sorted[p], sorted[p + k]) <= 0);
                    lemma_precedence_trans(order, x, sorted[p], z);
                }
                lemma_precedence_flip(order, z, x);
                if note_precedence(order, z, y) == 0 {
                    lemma_precedence_flip(order, x, y);
                    lemma_precedence_trans(order, z, y, x);
                }
            }
            back.lemma_all_neg_filter_empty(pred);
            assert(back.filter(pred) =~= Seq::<Note>::empty());
            assert(sorted.take(p).filter(pred) + seq![x] + Seq::<Note>::empty() =~= sorted.filter(pred).push(x));
        } else {
            assert(sorted.take(p).filter(pred) + Seq::<Note>::empty() + sorted.skip(p).filter(pred)
                =~= sorted.filter(pred));
        }
    }
}

/// Sorting notes puts them in the order, keeps every note (as many times as
/// it occurs), and is stable: notes that the order does not separate keep
/// their relative order.
pub proof fn lemma_sort_notes_law(order: SortOrder, notes: Seq<Note>)
    ensures
        sorted_in(order, spec_stable_sort(order, notes)),
        spec_stable_sort(order, notes).to_multiset() == notes.to_multiset(),
        forall|y: Note|
            #[trigger] spec_stable_sort(order, notes).filter(tied_with(order, y)) == notes.filter(tied_with(order, y)),
{
    lemma_stable_sort_sorted(order, notes);
    assert forall|y: Note|
        #[trigger] spec_stable_sort(order, notes).filter(tied_with(order, y)) == notes.filter(tied_with(order, y)) by {
        lemma_stable_sort_stable(order, notes, y);
    }
}

} // verus!
