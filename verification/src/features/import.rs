//! Importing notes into a note set, from one pasted ecash string or from a
//! file with one ecash string per line, and creating note sets.

use vstd::prelude::*;
use crate::models::note::Note;
use crate::models::note_set::NoteSet;
use crate::models::oob_notes::{
    OobNotesError, ParsedNoteSet, ascii_nonces, lemma_parsed_federation_ascii, lemma_parsed_nonces_ascii,
    parse_csv_notes, parse_oob_notes,
    parse_outcome_is, parsed_note_set_is, spec_csv_entries, spec_oob_error_message, spec_parse_oob_notes,
};
use crate::state::store::{
    AppState, ToastVariant, fed_prefix_cut_ok, federation_known, lemma_ascii_cut_ok, notes_added, spec_find_set,
};
use crate::text::{decimal_string, spec_decimal, spec_trim, str_chars, str_eq, string_from_chars, trim_chars};
use crate::utils::encoding::{format_nonce, lemma_ascii_truncate_ok, spec_truncate_bytes};
use vstd::utf8::encode_utf8;

verus! {

/// The message for notes of another federation than the set's.
pub open spec fn msg_other_federation() -> Seq<char> {
    "Federation ID mismatch: these notes belong to a different federation"@
}

/// The federation id of set `set_id`, or nothing when there is no such set.
pub open spec fn current_federation(sets: Seq<NoteSet>, set_id: u128) -> Seq<char> {
    match spec_find_set(sets, set_id) {
        Some(i) => sets[i].federation_id@,
        None => Seq::empty(),
    }
}

/// `new` is `old` after importing `notes` of federation `fed` into set
/// `set_id`: refused when the set already belongs to another federation;
/// otherwise the notes are added (as `add_notes_to_set` does, whatever it
/// answers) and the user is told how many.
pub open spec fn notes_imported(
    new: AppState,
    old: AppState,
    set_id: u128,
    notes: Seq<Note>,
    fed: Seq<char>,
    res: Result<(), String>,
) -> bool {
    let current = current_federation(old.note_sets@, set_id);
    if current.len() > 0 && current != fed {
        res matches Err(m) && m@ == msg_other_federation() && new == old
    } else {
        &&& res is Ok
        &&& exists|mid: AppState, r: Result<usize, String>|
            #[trigger] notes_added(mid, old, set_id, notes, fed, r) && new.note_sets == mid.note_sets
                && new.settings == mid.settings && new.known_federations == mid.known_federations
                && new.toasts@.drop_last() == mid.toasts@
        &&& new.toasts@.len() > 0
        &&& new.toasts@.last().message@ == "Added "@ + spec_decimal(notes.len()) + " notes"@
        &&& new.toasts@.last().variant == ToastVariant::Success
    }
}

/// Imports notes of a federation into a note set.
pub fn import_notes(state: &mut AppState, set_id: u128, notes: Vec<Note>, federation_id: String) -> (res: Result<
    (),
    String,
>)
    requires
        !federation_known(old(state).known_federations, federation_id@) ==> fed_prefix_cut_ok(federation_id@),
    ensures
        notes_imported(*final(state), *old(state), set_id, notes@, federation_id@, res),
{
    let current = match state.get_note_set(set_id) {
        Some(s) => s.federation_id,
        None => String::new(),
    };
    if !current.as_str().is_empty() && !str_eq(current.as_str(), federation_id.as_str()) {
        return Err(String::from_str("Federation ID mismatch: these notes belong to a different federation"));
    }
    let count = notes.len();
    let ghost before = *state;
    let ghost nv = notes@;
    let ghost fed = federation_id@;
    let r = state.add_notes_to_set(set_id, notes, federation_id);
    let ghost mid = *state;
    assert(notes_added(mid, before, set_id, nv, fed, r));
    let mut msg = String::from_str("Added ");
    let n = decimal_string(count as u64);
    msg.append(n.as_str());
    msg.append(" notes");
    state.add_toast(msg, ToastVariant::Success);
    Ok(())
}

/// The error line for entry `i` (counted from 1 in the text).
pub open spec fn line_error(i: int, m: Seq<char>) -> Seq<char> {
    "Line "@ + spec_decimal((i + 1) as nat) + ": "@ + m
}

/// The entries of a file, combined: the notes of every entry of the first
/// federation met, that federation, and an error line for each entry that
/// failed or belongs to another federation.
pub open spec fn spec_combine(rs: Seq<Result<ParsedNoteSet, OobNotesError>>) -> (
    Seq<Note>,
    Option<Seq<char>>,
    Seq<Seq<char>>,
)
    decreases rs.len(),
{
    if rs.len() == 0 {
        (Seq::empty(), None, Seq::empty())
    } else {
        let prev = spec_combine(rs.drop_last());
        let i = rs.len() - 1;
        match rs.last() {
            Ok(p) => match prev.1 {
                None => (prev.0 + p.notes@, Some(p.federation_id@), prev.2),
                Some(f) => if f == p.federation_id@ {
                    (prev.0 + p.notes@, prev.1, prev.2)
                } else {
                    (prev.0, prev.1, prev.2.push(line_error(i, "Different federation ID"@)))
                },
            },
            Err(e) => (prev.0, prev.1, prev.2.push(line_error(i, spec_oob_error_message(e@)))),
        }
    }
}

/// The notes of the successful entries of federation `f`, in entry order.
pub open spec fn notes_of_federation(rs: Seq<Result<ParsedNoteSet, OobNotesError>>, f: Seq<char>) -> Seq<Note>
    decreases rs.len(),
{
    if rs.len() == 0 {
        Seq::empty()
    } else {
        notes_of_federation(rs.drop_last(), f) + match rs.last() {
            Ok(p) => if p.federation_id@ == f {
                p.notes@
            } else {
                Seq::empty()
            },
            Err(_) => Seq::empty(),
        }
    }
}

/// How many entries failed or belong to a federation other than `f`.
pub open spec fn entries_rejected(rs: Seq<Result<ParsedNoteSet, OobNotesError>>, f: Seq<char>) -> nat
    decreases rs.len(),
{
    if rs.len() == 0 {
        0
    } else {
        entries_rejected(rs.drop_last(), f) + match rs.last() {
            Ok(p) => if p.federation_id@ == f {
                0nat
            } else {
                1nat
            },
            Err(_) => 1nat,
        }
    }
}

/// One error line for each entry that failed or belongs to a federation
/// other than `f`, in entry order: `Line <n>: ` (entries counted from 1)
/// followed by the failure's message or by `Different federation ID`.
pub open spec fn rejection_lines(rs: Seq<Result<ParsedNoteSet, OobNotesError>>, f: Seq<char>) -> Seq<Seq<char>>
    decreases rs.len(),
{
    if rs.len() == 0 {
        Seq::empty()
    } else {
        let head = "Line "@ + spec_decimal(rs.len()) + ": "@;
        rejection_lines(rs.drop_last(), f) + match rs.last() {
            Ok(p) => if p.federation_id@ == f {
                Seq::empty()
            } else {
                seq![head + "Different federation ID"@]
            },
            Err(e) => seq![head + spec_oob_error_message(e@)],
        }
    }
}

/// What combining the entries of a file gives, in terms of the entries:
/// - with no successful entry, no notes, no federation, and one error line
///   per entry;
/// - otherwise the federation of the first successful entry, exactly the
///   notes of the entries of that federation (in order), and one error line
///   for each entry that failed or belongs to another federation.
pub proof fn lemma_csv_combine_meaning(rs: Seq<Result<ParsedNoteSet, OobNotesError>>)
    ensures
        spec_combine(rs).1 is None <==> (forall|i: int| 0 <= i < rs.len() ==> #[trigger] rs[i] is Err),
        spec_combine(rs).1 is None ==> spec_combine(rs).0.len() == 0 && spec_combine(rs).2.len()
            == rs.len() && forall|g: Seq<char>| #[trigger] rejection_lines(rs, g) == spec_combine(rs).2,
        spec_combine(rs).1 matches Some(f) ==> {
            &&& exists|i: int|
                0 <= i < rs.len() && (#[trigger] rs[i] matches Ok(p) && p.federation_id@ == f) && forall|j: int|
                    0 <= j < i ==> #[trigger] rs[j] is Err
            &&& spec_combine(rs).0 == notes_of_federation(rs, f)
            &&& spec_combine(rs).2.len() == entries_rejected(rs, f)
            &&& spec_combine(rs).2 == rejection_lines(rs, f)
        },
    decreases rs.len(),
{
    if rs.len() > 0 {
        let prev_rs = rs.drop_last();
        lemma_csv_combine_meaning(prev_rs);
        let prev = spec_combine(prev_rs);
        let last = rs.len() - 1;
        assert forall|i: int| 0 <= i < prev_rs.len() implies #[trigger] rs[i] == prev_rs[i] by {}
        assert(rs[last] == rs.last());
        let head = "Line "@ + spec_decimal(rs.len()) + ": "@;
        assert(forall|m: Seq<char>| #[trigger] line_error(last, m) == head + m);
        match prev.1 {
            None => {
                if let Ok(p) = rs.last() {
                    let f = p.federation_id@;
                    lemma_all_err_nothing(prev_rs, f);
                    assert(notes_of_federation(prev_rs, f) =~= Seq::<Note>::empty());
                    assert(spec_combine(rs).0 =~= notes_of_federation(rs, f));
                    assert(rs[last] matches Ok(q) && q.federation_id@ == f);
                    assert(rejection_lines(rs, f) =~= rejection_lines(prev_rs, f));
                } else {
                    let e = rs.last()->Err_0;
                    assert(spec_combine(rs).2 == prev.2.push(line_error(last, spec_oob_error_message(e@))));
                    assert forall|g: Seq<char>| #[trigger] rejection_lines(rs, g) == spec_combine(rs).2 by {
                        assert(rejection_lines(prev_rs, g) == prev.2);
                        assert(rejection_lines(rs, g) =~= spec_combine(rs).2);
                    }
                    assert forall|i: int| 0 <= i < rs.len() implies #[trigger] rs[i] is Err by {
                        if i < last {
                            assert(prev_rs[i] is Err);
                        }
                    }
                }
            },
            Some(f) => {
                let i = choose|i: int|
                    0 <= i < prev_rs.len() && (#[trigger] prev_rs[i] matches Ok(p) && p.federation_id@ == f)
                        && forall|j: int| 0 <= j < i ==> #[trigger] prev_rs[j] is Err;
                assert(rs[i] == prev_rs[i]);
                assert forall|j: int| 0 <= j < i implies #[trigger] rs[j] is Err by {
                    assert(rs[j] == prev_rs[j]);
                }
                assert(!(rs[i] is Err));
                match rs.last() {
                    Ok(p) => {
                        if p.federation_id@ == f {
                            assert(spec_combine(rs).0 =~= notes_of_federation(rs, f));
                            assert(rejection_lines(rs, f) =~= rejection_lines(prev_rs, f));
                        } else {
                            assert(notes_of_federation(rs, f) =~= notes_of_federation(prev_rs, f));
                            assert(spec_combine(rs).2 == prev.2.push(
                                line_error(last, "Different federation ID"@),
                            ));
                            assert(rejection_lines(rs, f) =~= spec_combine(rs).2);
                        }
                    },
                    Err(e) => {
                        assert(notes_of_federation(rs, f) =~= notes_of_federation(prev_rs, f));
                        assert(spec_combine(rs).2 == prev.2.push(line_error(last, spec_oob_error_message(e@))));
                        assert(rejection_lines(rs, f) =~= spec_combine(rs).2);
                    },
                }
            },
        }
    }
}

proof fn lemma_all_err_nothing(rs: Seq<Result<ParsedNoteSet, OobNotesError>>, f: Seq<char>)
    requires
        forall|i: int| 0 <= i < rs.len() ==> #[trigger] rs[i] is Err,
    ensures
        notes_of_federation(rs, f).len() == 0,
        entries_rejected(rs, f) == rs.len(),
    decreases rs.len(),
{
    if rs.len() > 0 {
        let prev = rs.drop_last();
        assert forall|i: int| 0 <= i < prev.len() implies #[trigger] prev[i] is Err by {
            assert(prev[i] == rs[i]);
        }
        lemma_all_err_nothing(prev, f);
        assert(rs.last() == rs[rs.len() - 1]);
    }
}

/// The combined entries of a file.
pub struct CsvImport {
    pub notes: Vec<Note>,
    pub federation_id: Option<String>,
    pub errors: Vec<String>,
}

/// The text of each string.
pub open spec fn texts(v: Seq<String>) -> Seq<Seq<char>> {
    v.map_values(|s: String| s@)
}

/// `c` holds what `spec_combine` makes of `rs`.
pub open spec fn combined_as(c: CsvImport, rs: Seq<Result<ParsedNoteSet, OobNotesError>>) -> bool {
    let e = spec_combine(rs);
    &&& c.notes@ == e.0
    &&& match c.federation_id {
        None => e.1 is None,
        Some(f) => e.1 == Some(f@),
    }
    &&& texts(c.errors@) == e.2
}

fn line_error_text(i: usize, m: &str) -> (res: String)
    requires
        i < usize::MAX,
    ensures
        res@ == line_error(i as int, m@),
{
    let mut s = String::from_str("Line ");
    let n = decimal_string((i + 1) as u64);
    s.append(n.as_str());
    s.append(": ");
    s.append(m);
    s
}

/// Combines the parsed entries of a file.
pub fn combine_csv_results(results: &Vec<Result<ParsedNoteSet, OobNotesError>>) -> (res: CsvImport)
    ensures
        combined_as(res, results@),
{
    let mut out = CsvImport { notes: Vec::new(), federation_id: None, errors: Vec::new() };
    assert(results@.take(0) =~= Seq::<Result<ParsedNoteSet, OobNotesError>>::empty());
    assert(texts(out.errors@) =~= Seq::<Seq<char>>::empty());
    let mut i: usize = 0;
    while i < results.len()
        invariant
            i <= results@.len(),
            combined_as(out, results@.take(i as int)),
        decreases results@.len() - i,
    {
        let ghost before = out.errors@;
        let ghost prev = spec_combine(results@.take(i as int));
        assert(results@.take(i + 1).drop_last() =~= results@.take(i as int));
        assert(results@.take(i + 1).last() == results@[i as int]);
        let ghost next = spec_combine(results@.take(i + 1));
        match &results[i] {
            Ok(p) => {
                let same = match &out.federation_id {
                    None => {
                        out.federation_id = Some(p.federation_id.clone());
                        true
                    },
                    Some(f) => str_eq(f.as_str(), p.federation_id.as_str()),
                };
                if same {
                    let ghost start = out.notes@;
                    let ghost errs = out.errors;
                    let ghost fedopt = out.federation_id;
                    let mut k: usize = 0;
                    while k < p.notes.len()
                        invariant
                            k <= p.notes@.len(),
                            out.notes@ == start + p.notes@.take(k as int),
                            out.errors == errs,
                            out.federation_id == fedopt,
                        decreases p.notes@.len() - k,
                    {
                        out.notes.push(p.notes[k].clone());
                        k = k + 1;
                        assert(out.notes@ =~= start + p.notes@.take(k as int));
                    }
                    assert(p.notes@.take(p.notes@.len() as int) =~= p.notes@);
                    assert(out.notes@ == next.0);
                    assert(texts(out.errors@) == next.2);
                } else {
                    let e = line_error_text(i, "Different federation ID");
                    out.errors.push(e);
                    assert(texts(out.errors@) =~= texts(before).push(e@));
                }
            },
            Err(err) => {
                let m = err.message();
                let e = line_error_text(i, m.as_str());
                out.errors.push(e);
                assert(texts(out.errors@) =~= texts(before).push(e@));
            },
        }
        i = i + 1;
    }
    assert(results@.take(results@.len() as int) =~= results@);
    out
}

/// Lines joined with line breaks.
pub open spec fn spec_join_lines(lines: Seq<Seq<char>>) -> Seq<char>
    decreases lines.len(),
{
    if lines.len() == 0 {
        Seq::empty()
    } else if lines.len() == 1 {
        lines[0]
    } else {
        spec_join_lines(lines.drop_last()) + "\n"@ + lines.last()
    }
}

fn join_lines(lines: &Vec<String>) -> (res: String)
    ensures
        res@ == spec_join_lines(texts(lines@)),
{
    let mut out = String::new();
    let mut i: usize = 0;
    while i < lines.len()
        invariant
            i <= lines@.len(),
            out@ == spec_join_lines(texts(lines@.take(i as int))),
        decreases lines@.len() - i,
    {
        assert(texts(lines@.take(i + 1)).drop_last() =~= texts(lines@.take(i as int)));
        assert(texts(lines@.take(i + 1)).last() == lines@[i as int]@);
        if i > 0 {
            out.append("\n");
        } else {
            assert(out@ =~= Seq::<char>::empty());
            assert(texts(lines@.take(1))[0] == lines@[0]@);
        }
        out.append(lines[i].as_str());
        i = i + 1;
    }
    assert(lines@.take(lines@.len() as int) =~= lines@);
    out
}

/// The federation id of each successful entry can be cut after 16 bytes.
pub open spec fn entries_cut_ok(rs: Seq<Result<ParsedNoteSet, OobNotesError>>) -> bool {
    forall|i: int| 0 <= i < rs.len() ==> (#[trigger] rs[i] matches Ok(p) ==> fed_prefix_cut_ok(p.federation_id@))
}

/// Where the combined federation id comes from: some successful entry.
proof fn lemma_combined_federation(rs: Seq<Result<ParsedNoteSet, OobNotesError>>)
    ensures
        spec_combine(rs).0.len() > 0 ==> spec_combine(rs).1 is Some,
        spec_combine(rs).1 matches Some(f) ==> exists|i: int|
            0 <= i < rs.len() && (#[trigger] rs[i] matches Ok(p) && p.federation_id@ == f),
    decreases rs.len(),
{
    if rs.len() > 0 {
        lemma_combined_federation(rs.drop_last());
        let prev = spec_combine(rs.drop_last());
        if let Some(f) = prev.1 {
            let i = choose|i: int|
                0 <= i < rs.len() - 1 && (#[trigger] rs.drop_last()[i] matches Ok(p) && p.federation_id@ == f);
            assert(rs[i] == rs.drop_last()[i]);
        } else if let Ok(p) = rs.last() {
            assert(rs[rs.len() - 1] == rs.last());
        }
    }
}

/// `new` is `old` after importing the parsed entries `rs` of a file into
/// set `set_id`: with no notes among them, an error (the error lines, or a
/// notice that nothing was found); otherwise a warning when some entries
/// failed, then the notes are imported.
pub open spec fn csv_imported(
    new: AppState,
    old: AppState,
    set_id: u128,
    rs: Seq<Result<ParsedNoteSet, OobNotesError>>,
    res: Result<(), String>,
) -> bool {
    let c = spec_combine(rs);
    let fed = match c.1 {
        Some(f) => f,
        None => Seq::empty(),
    };
    if c.0.len() == 0 {
        &&& res matches Err(m) && m@ == (if c.2.len() == 0 {
            "No valid notes found in CSV"@
        } else {
            spec_join_lines(c.2)
        })
        &&& new == old
    } else if c.2.len() == 0 {
        notes_imported(new, old, set_id, c.0, fed, res)
    } else {
        exists|mid: AppState|
            #[trigger] warned(mid, old, c.2.len())
            && notes_imported(new, mid, set_id, c.0, fed, res)
    }
}

/// `new` is `old` with a warning about `n` failed entries added.
pub open spec fn warned(new: AppState, old: AppState, n: nat) -> bool {
    &&& new.note_sets == old.note_sets
    &&& new.settings == old.settings
    &&& new.known_federations == old.known_federations
    &&& new.toasts@.drop_last() == old.toasts@
    &&& new.toasts@.len() > 0
    &&& new.toasts@.last().message@ == "Imported with "@ + spec_decimal(n) + " errors"@
    &&& new.toasts@.last().variant == ToastVariant::Warning
}

/// Imports the parsed entries of a file into a note set.
pub fn import_csv_results(
    state: &mut AppState,
    set_id: u128,
    results: Vec<Result<ParsedNoteSet, OobNotesError>>,
) -> (res: Result<(), String>)
    requires
        entries_cut_ok(results@),
    ensures
        csv_imported(*final(state), *old(state), set_id, results@, res),
{
    let combined = combine_csv_results(&results);
    proof {
        lemma_combined_federation(results@);
    }
    if combined.notes.len() == 0 {
        if combined.errors.len() == 0 {
            return Err(String::from_str("No valid notes found in CSV"));
        }
        return Err(join_lines(&combined.errors));
    }
    let fed = match combined.federation_id {
        Some(f) => f,
        None => String::new(),
    };
    proof {
        let i = choose|i: int|
            0 <= i < results@.len() && (#[trigger] results@[i] matches Ok(p) && p.federation_id@ == fed@);
        assert(fed_prefix_cut_ok(fed@));
    }
    let ghost before = *state;
    if combined.errors.len() > 0 {
        let mut msg = String::from_str("Imported with ");
        let n = decimal_string(combined.errors.len() as u64);
        msg.append(n.as_str());
        msg.append(" errors");
        state.add_toast(msg, ToastVariant::Warning);
        assert(warned(*state, before, texts(combined.errors@).len()));
    }
    import_notes(state, set_id, combined.notes, fed)
}

/// Entries parsed from ecash strings have ASCII federation ids, which can
/// be cut anywhere.
proof fn lemma_parsed_entries_cut_ok(rs: Seq<Result<ParsedNoteSet, OobNotesError>>, entries: Seq<Seq<char>>)
    requires
        rs.len() == entries.len(),
        forall|i: int| 0 <= i < rs.len() ==> #[trigger] parse_outcome_is(rs[i], spec_parse_oob_notes(entries[i])),
    ensures
        entries_cut_ok(rs),
{
    assert forall|i: int| 0 <= i < rs.len() implies (#[trigger] rs[i] matches Ok(p) ==> fed_prefix_cut_ok(
        p.federation_id@,
    )) by {
        if let Ok(p) = rs[i] {
            assert(parse_outcome_is(rs[i], spec_parse_oob_notes(entries[i])));
            lemma_parsed_federation_ascii(entries[i]);
            lemma_ascii_cut_ok(p.federation_id@);
        }
    }
}

/// Imports a file with one ecash string per line into a note set.
pub fn import_csv(state: &mut AppState, set_id: u128, content: &str) -> (res: Result<(), String>)
    ensures
        spec_trim(content@).len() == 0 ==> (res matches Err(m) && m@ == "Please select a CSV file"@
            && *final(state) == *old(state)),
        spec_trim(content@).len() > 0 ==> exists|rs: Seq<Result<ParsedNoteSet, OobNotesError>>|
            {
                &&& rs.len() == spec_csv_entries(content@).len()
                &&& forall|i: int|
                    0 <= i < rs.len() ==> #[trigger] parse_outcome_is(
                        rs[i],
                        spec_parse_oob_notes(spec_csv_entries(content@)[i]),
                    )
                &&& #[trigger] csv_imported(*final(state), *old(state), set_id, rs, res)
            },
{
    let chars = str_chars(content);
    let trimmed = trim_chars(&chars);
    if trimmed.len() == 0 {
        return Err(String::from_str("Please select a CSV file"));
    }
    let results = parse_csv_notes(content);
    let ghost rs = results@;
    proof {
        lemma_parsed_entries_cut_ok(rs, spec_csv_entries(content@));
    }
    import_csv_results(state, set_id, results)
}

/// The message for an ecash string that does not parse.
pub open spec fn msg_parse_failed(f: crate::models::oob_notes::OobNotesFailure) -> Seq<char> {
    "Failed to parse ecash: "@ + spec_oob_error_message(f)
}

/// Imports one pasted ecash string into a note set.
pub fn import_pasted(state: &mut AppState, set_id: u128, input: &str) -> (res: Result<(), String>)
    ensures
        spec_trim(input@).len() == 0 ==> (res matches Err(m) && m@ == "Please enter an ecash string"@
            && *final(state) == *old(state)),
        spec_trim(input@).len() > 0 ==> match spec_parse_oob_notes(input@) {
            Err(f) => res matches Err(m) && m@ == msg_parse_failed(f) && *final(state) == *old(state),
            Ok((fed, pairs)) => exists|p: ParsedNoteSet|
                #[trigger] parse_outcome_is(Ok(p), Ok((fed, pairs))) && notes_imported(
                    *final(state),
                    *old(state),
                    set_id,
                    p.notes@,
                    fed,
                    res,
                ),
        },
{
    let chars = str_chars(input);
    let trimmed = trim_chars(&chars);
    if trimmed.len() == 0 {
        return Err(String::from_str("Please enter an ecash string"));
    }
    match parse_oob_notes(input) {
        Err(e) => {
            let mut m = String::from_str("Failed to parse ecash: ");
            let text = e.message();
            m.append(text.as_str());
            Err(m)
        },
        Ok(parsed) => {
            proof {
                lemma_parsed_federation_ascii(input@);
                lemma_ascii_cut_ok(parsed.federation_id@);
            }
            let ghost p = parsed;
            let r = import_notes(state, set_id, parsed.notes, parsed.federation_id);
            assert(parse_outcome_is(Ok(p), spec_parse_oob_notes(input@)));
            r
        },
    }
}

/// Creates an empty note set with the given name (trimmed) and returns its
/// id; refused when the name is blank.
pub fn create_note_set(state: &mut AppState, name: &str) -> (res: Result<u128, String>)
    ensures
        spec_trim(name@).len() == 0 ==> (res matches Err(m) && m@ == "Please enter a name"@ && *final(state)
            == *old(state)),
        spec_trim(name@).len() > 0 ==> {
            &&& res matches Ok(id)
            &&& final(state).note_sets@.len() == old(state).note_sets@.len() + 1
            &&& final(state).note_sets@.drop_last() == old(state).note_sets@
            &&& final(state).note_sets@.last().id == res->Ok_0
            &&& final(state).note_sets@.last().name@ == spec_trim(name@)
            &&& final(state).note_sets@.last().federation_id@.len() == 0
            &&& final(state).note_sets@.last().notes@.len() == 0
            &&& final(state).note_sets@.last().last_refreshed is None
            &&& final(state).note_sets@.last().auto_refresh_interval is None
            &&& final(state).settings == old(state).settings
            &&& final(state).known_federations == old(state).known_federations
            &&& final(state).toasts@.drop_last() == old(state).toasts@
            &&& final(state).toasts@.last().message@ == "Note set created"@
            &&& final(state).toasts@.last().variant == ToastVariant::Success
        },
{
    let chars = str_chars(name);
    let trimmed = trim_chars(&chars);
    if trimmed.len() == 0 {
        return Err(String::from_str("Please enter a name"));
    }
    let set = NoteSet::new_empty(string_from_chars(&trimmed));
    let id = set.id;
    state.add_note_set(set);
    assert(state.note_sets@.drop_last() =~= old(state).note_sets@);
    state.add_toast(String::from_str("Note set created"), ToastVariant::Success);
    Ok(id)
}

/// Whether set `set_id` already holds a note with this nonce.
pub open spec fn set_has_nonce(sets: Seq<NoteSet>, set_id: u128, nonce: Seq<char>) -> bool {
    match spec_find_set(sets, set_id) {
        Some(i) => exists|k: int| 0 <= k < sets[i].notes@.len() && (#[trigger] sets[i].notes@[k]).nonce@ == nonce,
        None => false,
    }
}

/// The notes of a scan split, in order, into the new ones (with the nonces
/// scanned so far, new ones added) and a count of duplicates: notes whose
/// nonce was scanned before or is already in the set.
pub open spec fn spec_scan_split(
    notes: Seq<Note>,
    scanned: Seq<Seq<char>>,
    sets: Seq<NoteSet>,
    set_id: u128,
) -> (Seq<Note>, Seq<Seq<char>>, nat)
    decreases notes.len(),
{
    if notes.len() == 0 {
        (Seq::empty(), scanned, 0)
    } else {
        let prev = spec_scan_split(notes.drop_last(), scanned, sets, set_id);
        let n = notes.last();
        if prev.1.contains(n.nonce@) || set_has_nonce(sets, set_id, n.nonce@) {
            (prev.0, prev.1, prev.2 + 1)
        } else {
            (prev.0.push(n), prev.1.push(n.nonce@), prev.2)
        }
    }
}

/// `new` is `old` after the notes of a scan were sorted out: the new notes
/// added (with a notice naming how many and the first nonce, shortened);
/// or, with only duplicates, a notice saying so; or nothing.
pub open spec fn scan_applied(
    new: AppState,
    old: AppState,
    set_id: u128,
    new_notes: Seq<Note>,
    duplicates: nat,
    fed: Seq<char>,
) -> bool {
    if new_notes.len() > 0 {
        &&& exists|mid: AppState, r: Result<usize, String>|
            #[trigger] notes_added(mid, old, set_id, new_notes, fed, r) && new.note_sets == mid.note_sets
                && new.settings == mid.settings && new.known_federations == mid.known_federations
                && new.toasts@.drop_last() == mid.toasts@
        &&& new.toasts@.len() > 0
        &&& new.toasts@.last().variant == ToastVariant::Success
        &&& exists|t: Seq<char>|
            #[trigger] encode_utf8(t) == spec_truncate_bytes(encode_utf8(new_notes[0].nonce@), 16)
                && new.toasts@.last().message@ == "Added "@ + spec_decimal(new_notes.len()) + " notes (nonce: "@ + t
                + ")"@
    } else if duplicates > 0 {
        &&& new.note_sets == old.note_sets
        &&& new.settings == old.settings
        &&& new.known_federations == old.known_federations
        &&& new.toasts@.drop_last() == old.toasts@
        &&& new.toasts@.len() > 0
        &&& new.toasts@.last().message@ == "Notes already imported"@
        &&& new.toasts@.last().variant == ToastVariant::Info
    } else {
        new == old
    }
}

fn contains_text(v: &Vec<String>, s: &str) -> (res: bool)
    ensures
        res == texts(v@).contains(s@),
{
    let mut i: usize = 0;
    while i < v.len()
        invariant
            i <= v@.len(),
            forall|j: int| 0 <= j < i ==> v@[j]@ != s@,
        decreases v@.len() - i,
    {
        if str_eq(v[i].as_str(), s) {
            assert(texts(v@)[i as int] == s@);
            return true;
        }
        i = i + 1;
    }
    assert forall|j: int| 0 <= j < texts(v@).len() implies texts(v@)[j] != s@ by {
        assert(texts(v@)[j] == v@[j]@);
    }
    false
}

fn notes_have_nonce(notes: &Vec<Note>, s: &str) -> (res: bool)
    ensures
        res == exists|k: int| 0 <= k < notes@.len() && (#[trigger] notes@[k]).nonce@ == s@,
{
    let mut i: usize = 0;
    while i < notes.len()
        invariant
            i <= notes@.len(),
            forall|j: int| 0 <= j < i ==> (#[trigger] notes@[j]).nonce@ != s@,
        decreases notes@.len() - i,
    {
        if str_eq(notes[i].nonce.as_str(), s) {
            return true;
        }
        i = i + 1;
    }
    false
}

/// The federation id of set `set_id` can be cut after 16 bytes wherever a
/// scan of `decoded` would name it in a message: when the scan parses and
/// the set belongs to another federation.
pub open spec fn scan_messages_ok(state: AppState, set_id: u128, decoded: Seq<char>) -> bool {
    match spec_parse_oob_notes(spec_trim(decoded)) {
        Ok((fed, _)) => match spec_find_set(state.note_sets@, set_id) {
            Some(i) => (state.note_sets@[i].federation_id@.len() > 0 && state.note_sets@[i].federation_id@ != fed)
                ==> fed_prefix_cut_ok(state.note_sets@[i].federation_id@),
            None => true,
        },
        Err(_) => true,
    }
}

/// Imports the notes of a scanned QR code (an ecash string) into a note
/// set, skipping notes already scanned in this session (`scanned`, which
/// records the new ones) or already in the set.
pub fn import_scanned(state: &mut AppState, set_id: u128, scanned: &mut Vec<String>, decoded: &str)
    requires
        scan_messages_ok(*old(state), set_id, decoded@),
    ensures
        match spec_parse_oob_notes(spec_trim(decoded@)) {
            Err(f) => {
                &&& final(scanned)@ == old(scanned)@
                &&& final(state).note_sets == old(state).note_sets
                &&& final(state).settings == old(state).settings
                &&& final(state).known_federations == old(state).known_federations
                &&& final(state).toasts@.drop_last() == old(state).toasts@
                &&& final(state).toasts@.len() > 0
                &&& final(state).toasts@.last().message@ == "Invalid QR: "@ + spec_oob_error_message(f)
                &&& final(state).toasts@.last().variant == ToastVariant::Warning
            },
            Ok((fed, pairs)) => exists|p: ParsedNoteSet|
                #[trigger] parse_outcome_is(Ok(p), Ok((fed, pairs))) && {
                    let split = spec_scan_split(p.notes@, texts(old(scanned)@), old(state).note_sets@, set_id);
                    &&& texts(final(scanned)@) == split.1
                    &&& scan_applied(*final(state), *old(state), set_id, split.0, split.2, fed)
                },
        },
{
    let chars = str_chars(decoded);
    let trimmed = trim_chars(&chars);
    let input = string_from_chars(&trimmed);
    match parse_oob_notes(input.as_str()) {
        Err(e) => {
            let mut msg = String::from_str("Invalid QR: ");
            let text = e.message();
            msg.append(text.as_str());
            state.add_toast(msg, ToastVariant::Warning);
        },
        Ok(parsed) => {
            let ghost p = parsed;
            let ghost before = *state;
            let ghost start = texts(scanned@);
            let ghost sets = state.note_sets@;
            proof {
                lemma_parsed_federation_ascii(input@);
                lemma_parsed_nonces_ascii(input@);
                lemma_ascii_cut_ok(parsed.federation_id@);
                crate::state::laws::lemma_find_set_spec(sets, set_id);
            }
            let current = state.get_note_set(set_id);
            let mut new_notes: Vec<Note> = Vec::new();
            let mut duplicates: usize = 0;
            let mut k: usize = 0;
            assert(p.notes@.take(0) =~= Seq::<Note>::empty());
            while k < parsed.notes.len()
                invariant
                    k <= parsed.notes@.len(),
                    p == parsed,
                    *state == before,
                    sets == before.note_sets@,
                    match spec_find_set(sets, set_id) {
                        Some(i) => current matches Some(c) && c.notes@ == sets[i].notes@,
                        None => current is None,
                    },
                    spec_scan_split(p.notes@.take(k as int), start, sets, set_id) == (
                        new_notes@,
                        texts(scanned@),
                        duplicates as nat,
                    ),
                    duplicates <= k,
                    forall|j: int|
                        0 <= j < new_notes@.len() ==> exists|m: int|
                            0 <= m < p.notes@.len() && #[trigger] new_notes@[j] == p.notes@[m],
                decreases parsed.notes@.len() - k,
            {
                let ghost pre = p.notes@.take(k as int);
                assert(p.notes@.take(k + 1).drop_last() =~= pre);
                assert(p.notes@.take(k + 1).last() == p.notes@[k as int]);
                let nonce = parsed.notes[k].nonce.as_str();
                let dup = contains_text(scanned, nonce);
                let in_set = match &current {
                    Some(c) => notes_have_nonce(&c.notes, nonce),
                    None => false,
                };
                if dup || in_set {
                    duplicates = duplicates + 1;
                } else {
                    let ghost old_scanned = scanned@;
                    scanned.push(String::from_str(nonce));
                    assert(texts(scanned@) =~= texts(old_scanned).push(nonce@));
                    new_notes.push(parsed.notes[k].clone());
                    assert(new_notes@.last() == p.notes@[k as int]);
                }
                k = k + 1;
            }
            assert(p.notes@.take(p.notes@.len() as int) =~= p.notes@);
            if new_notes.len() > 0 {
                let count = new_notes.len();
                proof {
                    let m = choose|m: int| 0 <= m < p.notes@.len() && #[trigger] new_notes@[0] == p.notes@[m];
                    let pairs = spec_parse_oob_notes(input@)->Ok_0.1;
                    assert(ascii_nonces(pairs));
                    assert(parse_outcome_is(Ok(p), spec_parse_oob_notes(input@)));
                    assert(crate::models::note::is_fresh_note(
                        p.notes@[m],
                        pairs[m].1,
                        pairs[m].0,
                        p.notes@[0].paper_note_id,
                    ));
                    assert(vstd::utf8::is_ascii_chars(pairs[m].1));
                    lemma_ascii_truncate_ok(new_notes@[0].nonce@, 16);
                }
                let first = format_nonce(new_notes[0].nonce.as_str());
                let ghost nv = new_notes@;
                let ghost fed = parsed.federation_id@;
                let r = state.add_notes_to_set(set_id, new_notes, parsed.federation_id);
                let ghost mid = *state;
                assert(notes_added(mid, before, set_id, nv, fed, r));
                let mut msg = String::from_str("Added ");
                let n = decimal_string(count as u64);
                msg.append(n.as_str());
                msg.append(" notes (nonce: ");
                msg.append(first.as_str());
                msg.append(")");
                state.add_toast(msg, ToastVariant::Success);
                assert(encode_utf8(first@) == spec_truncate_bytes(encode_utf8(nv[0].nonce@), 16));
            } else if duplicates > 0 {
                state.add_toast(String::from_str("Notes already imported"), ToastVariant::Info);
            }
            assert(parse_outcome_is(Ok(p), spec_parse_oob_notes(input@)));
        },
    }
}

} // verus!
