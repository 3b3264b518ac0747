//! Decoding of fedimint out-of-band notes (`OOBNotes`): the consensus
//! encoding read from bytes, and the text forms (bech32m or base64) it comes in.

use vstd::prelude::*;
use crate::text::{
    decimal_string, spec_decimal, str_chars, string_from_chars, strip_whitespace,
    spec_strip_whitespace, split_newlines, spec_split_newlines, trim_chars, spec_trim,
};
use crate::external::{
    hex_encode, spec_hex_lower, secp256k1_public_key, spec_secp256k1_public_key, bech32m_decode,
    spec_bech32m_decode, base64_url_safe_no_pad, spec_base64_url_safe_no_pad, base64_url_safe,
    spec_base64_url_safe, base64_standard, spec_base64_standard, base64_standard_no_pad,
    spec_base64_standard_no_pad, random_id,
};
use crate::models::note::{Note, is_fresh_note};

verus! {

/// Why ecash could not be decoded.
#[derive(Debug)]
pub enum OobNotesError {
    /// The input is not a well-formed ecash string; the text says why.
    DecodeError(String),
    /// The ecash string holds no notes.
    NoNotes,
}

/// The content of an `OobNotesError`, for use in contracts.
pub enum OobNotesFailure {
    DecodeError(Seq<char>),
    NoNotes,
}

impl View for OobNotesError {
    type V = OobNotesFailure;

    open spec fn view(&self) -> OobNotesFailure {
        match self {
            OobNotesError::DecodeError(m) => OobNotesFailure::DecodeError(m@),
            OobNotesError::NoNotes => OobNotesFailure::NoNotes,
        }
    }
}

/// The text shown for a decoding failure.
pub open spec fn spec_oob_error_message(f: OobNotesFailure) -> Seq<char> {
    match f {
        OobNotesFailure::DecodeError(m) => "Failed to decode ecash: "@ + m,
        OobNotesFailure::NoNotes => "No notes found in ecash string"@,
    }
}

impl OobNotesError {
    /// The text shown for this error.
    pub fn message(&self) -> (res: String)
        ensures
            res@ == spec_oob_error_message(self@),
    {
        match self {
            OobNotesError::DecodeError(m) => {
                let mut s = String::from_str("Failed to decode ecash: ");
                s.append(m.as_str());
                s
            },
            OobNotesError::NoNotes => String::from_str("No notes found in ecash string"),
        }
    }
}

/// One step of the decoder: a value and the position after it, or the error
/// text and the position at which the decoder stopped.
pub type Step<T> = Result<(T, int), (Seq<char>, int)>;

/// The executable result `res`, with the position `pos` the reader was left
/// at, is the outcome `expected` of a decoding step.
pub open spec fn step_agrees<T: DeepView>(
    res: Result<T, OobNotesError>,
    pos: int,
    expected: Step<T::V>,
) -> bool {
    match expected {
        Ok((v, p)) => res matches Ok(r) && r.deep_view() == v && pos == p,
        Err((m, p)) => res matches Err(e) && e@ == OobNotesFailure::DecodeError(m) && pos == p,
    }
}

/// The unsigned integer that bytes encode, most significant byte first.
pub open spec fn be_value(s: Seq<u8>) -> nat
    decreases s.len(),
{
    if s.len() == 0 {
        0
    } else {
        be_value(s.drop_last()) * 256 + (s.last() as nat)
    }
}

/// 256 to the power `k`.
pub open spec fn pow256(k: nat) -> nat
    decreases k,
{
    if k == 0 {
        1
    } else {
        256 * pow256((k - 1) as nat)
    }
}

/// `k` big-endian bytes encode a value below `256^k`.
pub proof fn lemma_be_value_bound(s: Seq<u8>)
    ensures
        be_value(s) < pow256(s.len()),
    decreases s.len(),
{
    if s.len() > 0 {
        lemma_be_value_bound(s.drop_last());
        let a = be_value(s.drop_last());
        let p = pow256((s.len() - 1) as nat);
        let b = s.last() as nat;
        assert(a * 256 + b < 256 * p) by (nonlinear_arith)
            requires
                a < p,
                b < 256,
        ;
    }
}

/// Powers of 256 grow with the exponent.
pub proof fn lemma_pow256_mono(k: nat, m: nat)
    requires
        k <= m,
    ensures
        pow256(k) <= pow256(m),
    decreases m,
{
    if k < m {
        lemma_pow256_mono(k, (m - 1) as nat);
    }
}

/// `w` bytes holding `v` big-endian (its low `w` bytes).
pub open spec fn be_bytes(v: nat, w: nat) -> Seq<u8>
    decreases w,
{
    if w == 0 {
        Seq::empty()
    } else {
        be_bytes(v / 256, (w - 1) as nat).push((v % 256) as u8)
    }
}

/// Big-endian bytes of a value that fits read back as the value.
proof fn lemma_be_bytes_value(v: nat, w: nat)
    requires
        v < pow256(w),
    ensures
        be_bytes(v, w).len() == w,
        be_value(be_bytes(v, w)) == v,
    decreases w,
{
    if w > 0 {
        let p = pow256((w - 1) as nat);
        assert(v / 256 < p) by (nonlinear_arith)
            requires
                v < 256 * p,
        ;
        lemma_be_bytes_value(v / 256, (w - 1) as nat);
        let b = be_bytes(v, w);
        assert(b.drop_last() =~= be_bytes(v / 256, (w - 1) as nat));
    }
}

/// The shortest BigSize encoding of `v`: the byte itself up to `0xFC`,
/// else a marker (`0xFD`, `0xFE`, `0xFF`) and 2, 4 or 8 big-endian bytes.
pub open spec fn spec_bigsize_bytes(v: u64) -> Seq<u8> {
    if v <= 0xFC {
        seq![v as u8]
    } else if v <= 0xFFFF {
        seq![0xFDu8] + be_bytes(v as nat, 2)
    } else if v <= 0xFFFF_FFFF {
        seq![0xFEu8] + be_bytes(v as nat, 4)
    } else {
        seq![0xFFu8] + be_bytes(v as nat, 8)
    }
}

/// The BigSize reader reads back every value from its shortest encoding,
/// whatever follows, and stops right after it.
pub proof fn lemma_bigsize_round_trip(v: u64, rest: Seq<u8>)
    ensures
        spec_read_bigsize(spec_bigsize_bytes(v) + rest, 0) == Ok::<(u64, int), (Seq<char>, int)>(
            (v, spec_bigsize_bytes(v).len() as int),
        ),
{
    reveal_with_fuel(pow256, 9);
    let enc = spec_bigsize_bytes(v);
    let data = enc + rest;
    if v > 0xFC {
        let w: nat = if v <= 0xFFFF {
            2
        } else if v <= 0xFFFF_FFFF {
            4
        } else {
            8
        };
        assert(v < pow256(w));
        lemma_be_bytes_value(v as nat, w);
        assert(data.subrange(1, 1 + w as int) =~= be_bytes(v as nat, w));
    }
}

/// The message for a BigSize that stops at the end of the data.
pub open spec fn msg_end_of_data_bigsize() -> Seq<char> {
    "Unexpected end of data reading BigSize"@
}

/// The message for a BigSize whose multi-byte value is cut short.
pub open spec fn msg_end_of_data_int(width: nat) -> Seq<char> {
    if width == 2 {
        "Unexpected end of data reading u16"@
    } else if width == 4 {
        "Unexpected end of data reading u32"@
    } else {
        "Unexpected end of data reading u64"@
    }
}

/// The message for `count` bytes that are not all there at `pos`.
pub open spec fn msg_end_of_data_bytes(count: nat, pos: nat) -> Seq<char> {
    "Unexpected end of data reading "@ + spec_decimal(count) + " bytes at position "@ + spec_decimal(
        pos,
    )
}

/// A BigSize (Lightning-style variable-length integer) at `pos`: one byte up to
/// `0xFC` is the value itself; `0xFD`, `0xFE` and `0xFF` announce a big-endian
/// value of 2, 4 or 8 bytes that follows.
pub open spec fn spec_read_bigsize(data: Seq<u8>, pos: int) -> Step<u64> {
    if pos >= data.len() {
        Err((msg_end_of_data_bigsize(), pos))
    } else {
        let first = data[pos];
        let p = pos + 1;
        let width: nat = if first == 0xFD {
            2
        } else if first == 0xFE {
            4
        } else {
            8
        };
        if first <= 0xFC {
            Ok((first as u64, p))
        } else if p + width > data.len() {
            Err((msg_end_of_data_int(width), p))
        } else {
            Ok((be_value(data.subrange(p, p + width)) as u64, p + width))
        }
    }
}

/// `count` bytes at `pos`.
pub open spec fn spec_read_bytes(data: Seq<u8>, pos: int, count: nat) -> Step<Seq<u8>> {
    if pos + count > data.len() {
        Err((msg_end_of_data_bytes(count, pos as nat), pos))
    } else {
        Ok((data.subrange(pos, pos + count), pos + count))
    }
}

/// A byte string prefixed with its length as a BigSize.
pub open spec fn spec_read_vec_bytes(data: Seq<u8>, pos: int) -> Step<Seq<u8>> {
    match spec_read_bigsize(data, pos) {
        Err(e) => Err(e),
        Ok((len, p)) => spec_read_bytes(data, p, len as nat),
    }
}

/// Reads `width` bytes at `p` as a big-endian integer.
fn read_be(data: &[u8], p: usize, width: usize) -> (v: u64)
    requires
        p + width <= data@.len(),
        width <= 8,
    ensures
        v == be_value(data@.subrange(p as int, p + width)),
{
    let n = data.len();
    let mut v: u64 = 0;
    let mut k: usize = 0;
    while k < width
        invariant
            n == data@.len(),
            k <= width,
            width <= 8,
            p + width <= data@.len(),
            v == be_value(data@.subrange(p as int, p + k)),
        decreases width - k,
    {
        let b = data[p + k];
        proof {
            let s = data@.subrange(p as int, p + k);
            lemma_be_value_bound(s);
            lemma_pow256_mono(k as nat, 7);
            assert(pow256(7) == 0x100000000000000) by {
                reveal_with_fuel(pow256, 8);
            }
            let s1 = data@.subrange(p as int, p + k + 1);
            assert(s1.drop_last() =~= s);
            assert(s1.last() == b);
        }
        v = v * 256 + b as u64;
        k = k + 1;
    }
    v
}

/// Builds a decode error from a message.
fn decode_error(msg: String) -> (e: OobNotesError)
    ensures
        e@ == OobNotesFailure::DecodeError(msg@),
{
    OobNotesError::DecodeError(msg)
}

/// Reads a BigSize at `*pos` and moves `*pos` past it.
///
/// BigSize uses big-endian encoding for its multi-byte values.
pub fn read_bigsize(data: &[u8], pos: &mut usize) -> (res: Result<u64, OobNotesError>)
    ensures
        step_agrees(res, *final(pos) as int, spec_read_bigsize(data@, *old(pos) as int)),
{
    if *pos >= data.len() {
        return Err(decode_error(String::from_str("Unexpected end of data reading BigSize")));
    }
    let first = data[*pos];
    *pos = *pos + 1;
    if first <= 0xFC {
        Ok(first as u64)
    } else if first == 0xFD {
        if 2 > data.len() - *pos {
            return Err(decode_error(String::from_str("Unexpected end of data reading u16")));
        }
        let v = read_be(data, *pos, 2);
        *pos = *pos + 2;
        Ok(v)
    } else if first == 0xFE {
        if 4 > data.len() - *pos {
            return Err(decode_error(String::from_str("Unexpected end of data reading u32")));
        }
        let v = read_be(data, *pos, 4);
        *pos = *pos + 4;
        Ok(v)
    } else {
        if 8 > data.len() - *pos {
            return Err(decode_error(String::from_str("Unexpected end of data reading u64")));
        }
        let v = read_be(data, *pos, 8);
        *pos = *pos + 8;
        Ok(v)
    }
}

/// The message for `count` bytes missing at `pos`.
fn end_of_data_bytes(count: u64, pos: usize) -> (msg: String)
    ensures
        msg@ == msg_end_of_data_bytes(count as nat, pos as nat),
{
    let mut msg = String::from_str("Unexpected end of data reading ");
    let c = decimal_string(count);
    msg.append(c.as_str());
    msg.append(" bytes at position ");
    let p = decimal_string(pos as u64);
    msg.append(p.as_str());
    msg
}

/// Reads `count` bytes at `*pos` and moves `*pos` past them.
pub fn read_bytes(data: &[u8], pos: &mut usize, count: usize) -> (res: Result<Vec<u8>, OobNotesError>)
    ensures
        step_agrees(res, *final(pos) as int, spec_read_bytes(data@, *old(pos) as int, count as nat)),
{
    if *pos > data.len() || count > data.len() - *pos {
        return Err(decode_error(end_of_data_bytes(count as u64, *pos)));
    }
    let start = *pos;
    let mut out: Vec<u8> = Vec::new();
    let n = data.len();
    let mut k: usize = 0;
    while k < count
        invariant
            n == data@.len(),
            k <= count,
            start + count <= data@.len(),
            out@ == data@.subrange(start as int, start + k),
        decreases count - k,
    {
        out.push(data[start + k]);
        k = k + 1;
        assert(out@ =~= data@.subrange(start as int, start + k));
    }
    *pos = start + count;
    assert(out.deep_view() =~= out@);
    Ok(out)
}

/// Reads a length-prefixed byte string at `*pos` and moves `*pos` past it.
pub fn read_vec_bytes(data: &[u8], pos: &mut usize) -> (res: Result<Vec<u8>, OobNotesError>)
    ensures
        step_agrees(res, *final(pos) as int, spec_read_vec_bytes(data@, *old(pos) as int)),
{
    match read_bigsize(data, pos) {
        Err(e) => Err(e),
        Ok(len) => {
            let remaining = data.len() - *pos;
            if len > remaining as u64 {
                return Err(decode_error(end_of_data_bytes(len, *pos)));
            }
            read_bytes(data, pos, len as usize)
        },
    }
}


/// Length of the signature of a spendable note (a compressed BLS G1 point).
pub const SIGNATURE_SIZE: usize = 48;

/// Length of the spend key of a spendable note (a secp256k1 secret key).
pub const SPEND_KEY_SIZE: usize = 32;

/// A `SpendableNote`: a 48-byte signature, then a 32-byte secp256k1 secret
/// key; the note's nonce is the hex encoding of the key's public key.
pub open spec fn spec_parse_spendable_note(data: Seq<u8>, pos: int) -> Step<Seq<char>> {
    match spec_read_bytes(data, pos, 48) {
        Err(e) => Err(e),
        Ok((_, p1)) => match spec_read_bytes(data, p1, 32) {
            Err(e) => Err(e),
            Ok((key, p2)) => match spec_secp256k1_public_key(key) {
                Err(m) => Err(("Invalid spend_key: "@ + m, p2)),
                Ok(pk) => Ok((spec_hex_lower(pk), p2)),
            },
        },
    }
}

/// `count` spendable notes of one denomination `amount`, in order, each
/// paired with the amount.
pub open spec fn spec_parse_tier(data: Seq<u8>, pos: int, amount: u64, count: nat) -> Step<
    Seq<(u64, Seq<char>)>,
>
    decreases count,
{
    if count == 0 {
        Ok((Seq::empty(), pos))
    } else {
        match spec_parse_tier(data, pos, amount, (count - 1) as nat) {
            Err(e) => Err(e),
            Ok((notes, p)) => match spec_parse_spendable_note(data, p) {
                Err(e) => Err(e),
                Ok((nonce, q)) => Ok((notes.push((amount, nonce)), q)),
            },
        }
    }
}

/// `count` entries of a `TieredMulti`: each an amount (BigSize), a note
/// count (BigSize) and that many spendable notes.
pub open spec fn spec_parse_tiers(data: Seq<u8>, pos: int, count: nat) -> Step<Seq<(u64, Seq<char>)>>
    decreases count,
{
    if count == 0 {
        Ok((Seq::empty(), pos))
    } else {
        match spec_parse_tiers(data, pos, (count - 1) as nat) {
            Err(e) => Err(e),
            Ok((notes, p)) => match spec_read_bigsize(data, p) {
                Err(e) => Err(e),
                Ok((amount, p1)) => match spec_read_bigsize(data, p1) {
                    Err(e) => Err(e),
                    Ok((n, p2)) => match spec_parse_tier(data, p2, amount, n as nat) {
                        Err(e) => Err(e),
                        Ok((t, q)) => Ok((notes + t, q)),
                    },
                },
            },
        }
    }
}

/// A `TieredMulti<SpendableNote>`: a map from amounts (in msat) to lists of
/// notes, prefixed by the number of entries; the notes in encoding order,
/// each with its amount.
pub open spec fn spec_parse_tiered_multi_notes(data: Seq<u8>, pos: int) -> Step<
    Seq<(u64, Seq<char>)>,
> {
    match spec_read_bigsize(data, pos) {
        Err(e) => Err(e),
        Ok((n, p)) => spec_parse_tiers(data, p, n as nat),
    }
}

proof fn lemma_tier_err(data: Seq<u8>, pos: int, amount: u64, i: nat, j: nat)
    requires
        i <= j,
        spec_parse_tier(data, pos, amount, i) is Err,
    ensures
        spec_parse_tier(data, pos, amount, j) == spec_parse_tier(data, pos, amount, i),
    decreases j,
{
    if j > i {
        lemma_tier_err(data, pos, amount, i, (j - 1) as nat);
    }
}

proof fn lemma_tiers_err(data: Seq<u8>, pos: int, i: nat, j: nat)
    requires
        i <= j,
        spec_parse_tiers(data, pos, i) is Err,
    ensures
        spec_parse_tiers(data, pos, j) == spec_parse_tiers(data, pos, i),
    decreases j,
{
    if j > i {
        lemma_tiers_err(data, pos, i, (j - 1) as nat);
    }
}

/// The header of tier `t` of the tiers at `pos`: its amount and how many
/// notes it announces, read where the tiers before it end (when they decode).
#[verifier::opaque]
pub open spec fn tier_header(data: Seq<u8>, pos: int, t: nat) -> Option<(u64, nat)> {
    match spec_parse_tiers(data, pos, t) {
        Ok((_, p)) => match spec_read_bigsize(data, p) {
            Ok((amount, p1)) => match spec_read_bigsize(data, p1) {
                Ok((n, _)) => Some((amount, n as nat)),
                Err(_) => None,
            },
            Err(_) => None,
        },
        Err(_) => None,
    }
}

/// How many notes the first `count` tiers at `pos` announce together.
pub open spec fn announced_notes(data: Seq<u8>, pos: int, count: nat) -> nat
    decreases count,
{
    if count == 0 {
        0
    } else {
        announced_notes(data, pos, (count - 1) as nat) + match tier_header(data, pos, (count - 1) as nat) {
            Some((_, n)) => n,
            None => 0,
        }
    }
}

/// A tier of `count` notes gives exactly `count` notes, each with the tier's
/// amount, read as `count` consecutive 80-byte spendable notes: note `i`'s
/// nonce is the hex public key of the 32-byte secret key that follows its
/// 48-byte signature.
pub proof fn lemma_tier_notes(data: Seq<u8>, pos: int, amount: u64, count: nat)
    ensures
        spec_parse_tier(data, pos, amount, count) matches Ok((notes, end)) ==> {
            &&& notes.len() == count
            &&& end == pos + 80 * count
            &&& forall|i: int| 0 <= i < notes.len() ==> (#[trigger] notes[i]).0 == amount
            &&& forall|i: int|
                0 <= i < notes.len() ==> (#[trigger] notes[i]).1 == spec_hex_lower(
                    spec_secp256k1_public_key(data.subrange(pos + 80 * i + 48, pos + 80 * i + 80))->Ok_0,
                )
        },
    decreases count,
{
    if count > 0 {
        lemma_tier_notes(data, pos, amount, (count - 1) as nat);
        if let Ok((notes, p)) = spec_parse_tier(data, pos, amount, (count - 1) as nat) {
            if let Ok((nonce, q)) = spec_parse_spendable_note(data, p) {
                let all = notes.push((amount, nonce));
                assert forall|i: int| 0 <= i < all.len() implies (#[trigger] all[i]).0 == amount && all[i].1
                    == spec_hex_lower(
                    spec_secp256k1_public_key(data.subrange(pos + 80 * i + 48, pos + 80 * i + 80))->Ok_0,
                ) by {
                    if i < notes.len() {
                        assert(all[i] == notes[i]);
                    }
                }
            }
        }
    }
}

/// Notes `notes` are laid out as the first `count` tiers at `pos` announce.
pub open spec fn tiers_laid_out(data: Seq<u8>, pos: int, count: nat, notes: Seq<(u64, Seq<char>)>) -> bool {
    &&& notes.len() == announced_notes(data, pos, count)
    &&& forall|t: nat, i: int|
        t < count && #[trigger] tier_header(data, pos, t) is Some && announced_notes(data, pos, t) <= i
            < announced_notes(data, pos, t) + tier_header(data, pos, t)->Some_0.1 ==> (
        #[trigger] notes[i]).0 == tier_header(data, pos, t)->Some_0.0
}

proof fn lemma_tiers_step(
    data: Seq<u8>,
    pos: int,
    count: nat,
    notes: Seq<(u64, Seq<char>)>,
    tn: Seq<(u64, Seq<char>)>,
    amount: u64,
    n: nat,
)
    requires
        count > 0,
        tiers_laid_out(data, pos, (count - 1) as nat, notes),
        tier_header(data, pos, (count - 1) as nat) == Some((amount, n)),
        tn.len() == n,
        forall|j: int| 0 <= j < tn.len() ==> (#[trigger] tn[j]).0 == amount,
    ensures
        tiers_laid_out(data, pos, count, notes + tn),
{
    let c1 = (count - 1) as nat;
    let all = notes + tn;
    assert(announced_notes(data, pos, count) == announced_notes(data, pos, c1) + n);
    assert forall|t: nat, i: int|
        t < count && #[trigger] tier_header(data, pos, t) is Some && announced_notes(data, pos, t) <= i
            < announced_notes(data, pos, t) + tier_header(data, pos, t)->Some_0.1 implies (
        #[trigger] all[i]).0 == tier_header(data, pos, t)->Some_0.0 by {
        if t < c1 {
            assert(announced_notes(data, pos, t + 1) == announced_notes(data, pos, t) + tier_header(
                data,
                pos,
                t,
            )->Some_0.1);
            lemma_announced_mono(data, pos, t + 1, c1);
            assert(all[i] == notes[i]);
        } else {
            assert(all[i] == tn[i - notes.len()]);
        }
    }
}

/// Decoded tiers hold one note for every note each tier announces, in tier
/// order: the notes of tier `t` are those from `announced_notes(.., t)` on,
/// as many as its header announces, each with its amount.
pub proof fn lemma_tiers_notes(data: Seq<u8>, pos: int, count: nat)
    ensures
        spec_parse_tiers(data, pos, count) matches Ok((notes, _)) ==> tiers_laid_out(data, pos, count, notes),
    decreases count,
{
    if count > 0 {
        let c1 = (count - 1) as nat;
        lemma_tiers_notes(data, pos, c1);
        if let Ok((notes, p)) = spec_parse_tiers(data, pos, c1) {
            if let Ok((amount, p1)) = spec_read_bigsize(data, p) {
                if let Ok((n, p2)) = spec_read_bigsize(data, p1) {
                    lemma_tier_notes(data, p2, amount, n as nat);
                    if let Ok((tn, q)) = spec_parse_tier(data, p2, amount, n as nat) {
                        assert(tier_header(data, pos, c1) == Some((amount, n as nat))) by {
                            reveal(tier_header);
                        }
                        lemma_tiers_step(data, pos, count, notes, tn, amount, n as nat);
                    }
                }
            }
        }
    } else {
        if let Ok((notes, _)) = spec_parse_tiers(data, pos, count) {
            assert(notes.len() == 0);
        }
    }
}

proof fn lemma_announced_mono(data: Seq<u8>, pos: int, a: nat, b: nat)
    requires
        a <= b,
    ensures
        announced_notes(data, pos, a) <= announced_notes(data, pos, b),
    decreases b,
{
    if b > a {
        lemma_announced_mono(data, pos, a, (b - 1) as nat);
    }
}

/// A decoded `TieredMulti` holds exactly as many notes as its tiers
/// announce together (over all the tiers its map length announces), each
/// tier's notes carrying that tier's amount.
pub proof fn lemma_tiered_multi_notes_count(data: Seq<u8>, pos: int)
    ensures
        spec_parse_tiered_multi_notes(data, pos) matches Ok((notes, _)) ==> {
            &&& spec_read_bigsize(data, pos) matches Ok((n, p))
            &&& notes.len() == announced_notes(data, p, n as nat)
            &&& tiers_laid_out(data, p, n as nat, notes)
        },
{
    if let Ok((n, p)) = spec_read_bigsize(data, pos) {
        lemma_tiers_notes(data, p, n as nat);
    }
}

/// The message for a key that k256 rejects.
fn invalid_spend_key(err: String) -> (msg: String)
    ensures
        msg@ == "Invalid spend_key: "@ + err@,
{
    let mut msg = String::from_str("Invalid spend_key: ");
    msg.append(err.as_str());
    msg
}

/// Reads a spendable note at `*pos` and returns its nonce.
fn parse_spendable_note(data: &[u8], pos: &mut usize) -> (res: Result<String, OobNotesError>)
    ensures
        step_agrees(res, *final(pos) as int, spec_parse_spendable_note(data@, *old(pos) as int)),
{
    match read_bytes(data, pos, SIGNATURE_SIZE) {
        Err(e) => return Err(e),
        Ok(_) => {},
    }
    let spend_key_bytes = match read_bytes(data, pos, SPEND_KEY_SIZE) {
        Err(e) => return Err(e),
        Ok(b) => b,
    };
    assert(spend_key_bytes.deep_view() =~= spend_key_bytes@);
    match secp256k1_public_key(spend_key_bytes.as_slice()) {
        Err(msg) => Err(decode_error(invalid_spend_key(msg))),
        Ok(public_key_bytes) => Ok(hex_encode(public_key_bytes.as_slice())),
    }
}

/// Reads a `TieredMulti<SpendableNote>` at `*pos`: the notes with their amounts.
fn parse_tiered_multi_notes(data: &[u8], pos: &mut usize) -> (res: Result<
    Vec<(u64, String)>,
    OobNotesError,
>)
    ensures
        step_agrees(res, *final(pos) as int, spec_parse_tiered_multi_notes(data@, *old(pos) as int)),
{
    let mut notes: Vec<(u64, String)> = Vec::new();
    let ghost start = *pos as int;
    let map_len = match read_bigsize(data, pos) {
        Err(e) => return Err(e),
        Ok(v) => v,
    };
    let ghost p0 = *pos as int;
    assert(notes.deep_view() =~= Seq::<(u64, Seq<char>)>::empty());
    let mut i: u64 = 0;
    while i < map_len
        invariant
            i <= map_len,
            spec_parse_tiered_multi_notes(data@, start) == spec_parse_tiers(data@, p0, map_len as nat),
            start == *old(pos) as int,
            spec_parse_tiers(data@, p0, i as nat) == Ok::<(Seq<(u64, Seq<char>)>, int), (Seq<char>, int)>((notes.deep_view(), *pos as int)),
        decreases map_len - i,
    {
        let ghost pi = *pos as int;
        let amount_msat = match read_bigsize(data, pos) {
            Err(e) => {
                proof {
                    lemma_tiers_err(data@, p0, (i + 1) as nat, map_len as nat);
                }
                return Err(e);
            },
            Ok(v) => v,
        };
        let ghost p1 = *pos as int;
        let vec_len = match read_bigsize(data, pos) {
            Err(e) => {
                proof {
                    lemma_tiers_err(data@, p0, (i + 1) as nat, map_len as nat);
                }
                return Err(e);
            },
            Ok(v) => v,
        };
        let ghost p2 = *pos as int;
        let ghost base = notes.deep_view();
        let ghost mut t: Seq<(u64, Seq<char>)> = Seq::empty();
        let mut k: u64 = 0;
        while k < vec_len
            invariant
                k <= vec_len,
                i < map_len,
                spec_parse_tiered_multi_notes(data@, start) == spec_parse_tiers(data@, p0, map_len as nat),
                start == *old(pos) as int,
                spec_parse_tiers(data@, p0, i as nat) == Ok::<(Seq<(u64, Seq<char>)>, int), (Seq<char>, int)>((base, pi)),
                spec_read_bigsize(data@, pi) == Ok::<(u64, int), (Seq<char>, int)>((amount_msat, p1)),
                spec_read_bigsize(data@, p1) == Ok::<(u64, int), (Seq<char>, int)>((vec_len, p2)),
                spec_parse_tier(data@, p2, amount_msat, k as nat) == Ok::<(Seq<(u64, Seq<char>)>, int), (Seq<char>, int)>((t, *pos as int)),
                notes.deep_view() == base + t,
            decreases vec_len - k,
        {
            let nonce = match parse_spendable_note(data, pos) {
                Err(e) => {
                    proof {
                        lemma_tier_err(data@, p2, amount_msat, (k + 1) as nat, vec_len as nat);
                        lemma_tiers_err(data@, p0, (i + 1) as nat, map_len as nat);
                    }
                    return Err(e);
                },
                Ok(n) => n,
            };
            let ghost prev = notes.deep_view();
            proof {
                t = t.push((amount_msat, nonce@));
            }
            notes.push((amount_msat, nonce));
            assert(notes.deep_view() =~= prev.push((amount_msat, notes@.last().1@)));
            assert(notes.deep_view() =~= base + t);
            k = k + 1;
        }
        i = i + 1;
    }
    Ok(notes)
}


/// `count` peer entries of an invite, each a peer id (BigSize) and a
/// length-prefixed URL, all skipped.
pub open spec fn spec_skip_peers(data: Seq<u8>, pos: int, count: nat) -> Step<()>
    decreases count,
{
    if count == 0 {
        Ok(((), pos))
    } else {
        match spec_skip_peers(data, pos, (count - 1) as nat) {
            Err(e) => Err(e),
            Ok((_, p)) => match spec_read_bigsize(data, p) {
                Err(e) => Err(e),
                Ok((_, p1)) => match spec_read_vec_bytes(data, p1) {
                    Err(e) => Err(e),
                    Ok((_, p2)) => Ok(((), p2)),
                },
            },
        }
    }
}

/// An invite: the number of peers (BigSize), the peers, and a 32-byte
/// federation id, whose hex encoding is the result.
pub open spec fn spec_read_invite(data: Seq<u8>, pos: int) -> Step<Seq<char>> {
    match spec_read_bigsize(data, pos) {
        Err(e) => Err(e),
        Ok((n, p)) => match spec_skip_peers(data, p, n as nat) {
            Err(e) => Err(e),
            Ok((_, q)) => match spec_read_bytes(data, q, 32) {
                Err(e) => Err(e),
                Ok((b, r)) => Ok((spec_hex_lower(b), r)),
            },
        },
    }
}

/// What one part of an ecash string contributes: a federation id (or
/// prefix) if it names one, and notes with their amounts.
pub type PartContent = (Option<Seq<char>>, Seq<(u64, Seq<char>)>);

/// The body of a part with the given variant, starting at `pos` and meant to
/// end at `end`:
/// 0 holds notes; 1 a 4-byte federation id prefix; 2 an invite, whose
/// federation id counts; 3 an API secret (ignored); others are skipped.
pub open spec fn spec_part_body(data: Seq<u8>, variant: u64, pos: int, end: int) -> Step<PartContent> {
    if variant == 0 {
        match spec_parse_tiered_multi_notes(data, pos) {
            Err(e) => Err(e),
            Ok((notes, p)) => Ok(((None, notes), p)),
        }
    } else if variant == 1 {
        match spec_read_bytes(data, pos, 4) {
            Err(e) => Err(e),
            Ok((b, p)) => Ok(((Some(spec_hex_lower(b)), Seq::empty()), p)),
        }
    } else if variant == 2 {
        match spec_read_invite(data, pos) {
            Err(e) => Err(e),
            Ok((fed, p)) => Ok(((Some(fed), Seq::empty()), p)),
        }
    } else if variant == 3 {
        match spec_read_vec_bytes(data, pos) {
            Err(e) => Err(e),
            Ok((_, p)) => Ok(((None, Seq::empty()), p)),
        }
    } else {
        Ok(((None, Seq::empty()), end))
    }
}

/// The message for a part whose announced length runs past the data.
pub open spec fn msg_variant_too_long(len: nat, pos: nat) -> Seq<char> {
    "Variant data length "@ + spec_decimal(len) + " exceeds remaining data at position "@
        + spec_decimal(pos)
}

/// One `OOBNotesPart`: a variant index (BigSize), the length of its data
/// (BigSize), then the data. The body is read from those data alone, and
/// decoding resumes right after the announced length.
pub open spec fn spec_parse_oob_notes_part(data: Seq<u8>, pos: int) -> Step<PartContent> {
    match spec_read_bigsize(data, pos) {
        Err(e) => Err(e),
        Ok((variant, p1)) => match spec_read_bigsize(data, p1) {
            Err(e) => Err(e),
            Ok((len, p2)) => {
                let data_len = len as int;
                if p2 + data_len > data.len() {
                    Err((msg_variant_too_long(len as nat, p2 as nat), p2))
                } else {
                    match spec_part_body(data.take(p2 + data_len), variant, p2, p2 + data_len) {
                        Err(e) => Err(e),
                        Ok((content, _)) => Ok((content, p2 + data_len)),
                    }
                }
            },
        },
    }
}

/// `count` parts, folded: the last federation id named wins, notes accumulate.
pub open spec fn spec_parse_parts(data: Seq<u8>, pos: int, count: nat) -> Step<PartContent>
    decreases count,
{
    if count == 0 {
        Ok(((None, Seq::empty()), pos))
    } else {
        match spec_parse_parts(data, pos, (count - 1) as nat) {
            Err(e) => Err(e),
            Ok(((fed, notes), p)) => match spec_parse_oob_notes_part(data, p) {
                Err(e) => Err(e),
                Ok(((f, n), q)) => Ok(((if f is Some { f } else { fed }, notes + n), q)),
            },
        }
    }
}

/// The decoded content of `OOBNotes` bytes: a vector of parts (length as a
/// BigSize, then the parts). Fails with `NoNotes` when the parts hold no
/// notes; the federation id is `"unknown"` when no part names one.
pub open spec fn spec_decode_oob_notes(data: Seq<u8>) -> Result<
    (Seq<char>, Seq<(u64, Seq<char>)>),
    OobNotesFailure,
> {
    match spec_read_bigsize(data, 0) {
        Err((m, _)) => Err(OobNotesFailure::DecodeError(m)),
        Ok((n, p)) => match spec_parse_parts(data, p, n as nat) {
            Err((m, _)) => Err(OobNotesFailure::DecodeError(m)),
            Ok(((fed, notes), _)) => if notes.len() == 0 {
                Err(OobNotesFailure::NoNotes)
            } else {
                Ok(
                    (
                        match fed {
                            Some(f) => f,
                            None => "unknown"@,
                        },
                        notes,
                    ),
                )
            },
        },
    }
}

/// How one part reads from its bytes, for one-byte headers: a variant byte
/// and a length byte (both at most `0xFC`) at `pos`, then that many data
/// bytes, all present. A federation id prefix (variant 1) names the hex of
/// its first 4 data bytes, and fails when it has fewer; an invite (variant
/// 2) without peers names the hex of the 32 bytes after the peer count; a
/// variant from 4 on names nothing and holds no notes. Decoding goes on right
/// after the data.
pub proof fn lemma_part_layout(data: Seq<u8>, pos: int)
    requires
        0 <= pos,
        pos + 2 <= data.len(),
        data[pos] <= 0xFC,
        data[pos + 1] <= 0xFC,
        pos + 2 + data[pos + 1] <= data.len(),
    ensures
        data[pos] == 1 && data[pos + 1] >= 4 ==> spec_parse_oob_notes_part(data, pos) == Ok::<
            (PartContent, int),
            (Seq<char>, int),
        >(((Some(spec_hex_lower(data.subrange(pos + 2, pos + 6))), Seq::empty()), pos + 2 + data[pos + 1])),
        data[pos] == 1 && data[pos + 1] < 4 ==> spec_parse_oob_notes_part(data, pos) is Err,
        data[pos] == 2 && data[pos + 1] >= 33 && data[pos + 2] == 0 ==> spec_parse_oob_notes_part(data, pos)
            == Ok::<(PartContent, int), (Seq<char>, int)>(
            ((Some(spec_hex_lower(data.subrange(pos + 3, pos + 35))), Seq::empty()), pos + 2 + data[pos + 1]),
        ),
        data[pos] >= 4 ==> spec_parse_oob_notes_part(data, pos) == Ok::<(PartContent, int), (Seq<char>, int)>(
            ((None, Seq::empty()), pos + 2 + data[pos + 1]),
        ),
{
    let q = pos + 2;
    let body = data.take(q + data[pos + 1]);
    assert(spec_read_bigsize(data, pos) == Ok::<(u64, int), (Seq<char>, int)>((data[pos] as u64, pos + 1)));
    assert(spec_read_bigsize(data, pos + 1) == Ok::<(u64, int), (Seq<char>, int)>((data[pos + 1] as u64, q)));
    if data[pos] == 1 && data[pos + 1] >= 4 {
        assert(body.subrange(q, q + 4) =~= data.subrange(q, q + 4));
    }
    if data[pos] == 2 && data[pos + 1] >= 33 && data[pos + 2] == 0 {
        assert(spec_read_bigsize(body, q) == Ok::<(u64, int), (Seq<char>, int)>((0u64, q + 1)));
        assert(spec_skip_peers(body, q + 1, 0) == Ok::<((), int), (Seq<char>, int)>(((), q + 1)));
        assert(body.subrange(q + 1, q + 33) =~= data.subrange(pos + 3, pos + 35));
    }
}

/// Decoded `OOBNotes` bytes always hold notes: when their parts decode
/// without any note, decoding fails with `NoNotes`.
pub proof fn lemma_decoded_notes_not_empty(data: Seq<u8>)
    ensures
        spec_decode_oob_notes(data) matches Ok((_, notes)) ==> notes.len() > 0,
        (spec_read_bigsize(data, 0) matches Ok((n, p)) && spec_parse_parts(data, p, n as nat) matches Ok(
            ((_, notes), _),
        ) && notes.len() == 0) ==> spec_decode_oob_notes(data) == Err::<
            (Seq<char>, Seq<(u64, Seq<char>)>),
            OobNotesFailure,
        >(OobNotesFailure::NoNotes),
{
}

/// The federation id that part `i` of the parts at `pos` names, if it
/// decodes (after the parts before it) and names one.
pub open spec fn part_federation(data: Seq<u8>, pos: int, i: nat) -> Option<Seq<char>> {
    match spec_parse_parts(data, pos, i) {
        Ok((_, p)) => match spec_parse_oob_notes_part(data, p) {
            Ok(((f, _), _)) => f,
            Err(_) => None,
        },
        Err(_) => None,
    }
}

/// When several parts name a federation, the last of them wins: if part `i`
/// names `f` and no later one of the `count` parts names any, the decoded
/// parts carry `f`.
pub proof fn lemma_last_named_federation_wins(data: Seq<u8>, pos: int, count: nat, i: nat, f: Seq<char>)
    requires
        i < count,
        spec_parse_parts(data, pos, count) is Ok,
        part_federation(data, pos, i) == Some(f),
        forall|j: nat| i < j < count ==> #[trigger] part_federation(data, pos, j) is None,
    ensures
        spec_parse_parts(data, pos, count)->Ok_0.0.0 == Some(f),
    decreases count,
{
    let c1 = (count - 1) as nat;
    if spec_parse_parts(data, pos, c1) is Err {
        lemma_parts_err(data, pos, c1, count);
    }
    if c1 > i {
        lemma_last_named_federation_wins(data, pos, c1, i, f);
        assert(part_federation(data, pos, c1) is None);
    }
}

/// The federation id of decoded `OOBNotes` bytes is the one named by the
/// last part that names one: with part `i` naming `f` and no later part
/// naming any, the decoded federation id is `f`.
pub proof fn lemma_decoded_federation_is_last_named(data: Seq<u8>, i: nat, f: Seq<char>)
    requires
        spec_decode_oob_notes(data) is Ok,
        spec_read_bigsize(data, 0) matches Ok((n, p)) && i < n && part_federation(data, p, i) == Some(f)
            && forall|j: nat| i < j < n ==> #[trigger] part_federation(data, p, j) is None,
    ensures
        spec_decode_oob_notes(data)->Ok_0.0 == f,
{
    let (n, p) = spec_read_bigsize(data, 0)->Ok_0;
    lemma_last_named_federation_wins(data, p, n as nat, i, f);
}

/// The notes that part `i` of the parts at `pos` holds, if it decodes
/// (after the parts before it).
pub open spec fn part_notes(data: Seq<u8>, pos: int, i: nat) -> Seq<(u64, Seq<char>)> {
    match spec_parse_parts(data, pos, i) {
        Ok((_, p)) => match spec_parse_oob_notes_part(data, p) {
            Ok(((_, n), _)) => n,
            Err(_) => Seq::empty(),
        },
        Err(_) => Seq::empty(),
    }
}

/// The notes of parts `0 .. count`, one part after the other.
pub open spec fn notes_of_parts(data: Seq<u8>, pos: int, count: nat) -> Seq<(u64, Seq<char>)>
    decreases count,
{
    if count == 0 {
        Seq::empty()
    } else {
        notes_of_parts(data, pos, (count - 1) as nat) + part_notes(data, pos, (count - 1) as nat)
    }
}

/// Decoded parts hold the notes of every part, in part order; and when no
/// part names a federation, they name none.
pub proof fn lemma_parts_gather_all_notes(data: Seq<u8>, pos: int, count: nat)
    ensures
        spec_parse_parts(data, pos, count) matches Ok(((fed, notes), _)) ==> {
            &&& notes == notes_of_parts(data, pos, count)
            &&& (forall|j: nat| j < count ==> #[trigger] part_federation(data, pos, j) is None) ==> fed is None
        },
    decreases count,
{
    if count > 0 {
        let c1 = (count - 1) as nat;
        lemma_parts_gather_all_notes(data, pos, c1);
        if spec_parse_parts(data, pos, count) is Ok {
            if spec_parse_parts(data, pos, c1) is Err {
                lemma_parts_err(data, pos, c1, count);
            }
            if forall|j: nat| j < count ==> #[trigger] part_federation(data, pos, j) is None {
                assert(part_federation(data, pos, c1) is None);
                assert forall|j: nat| j < c1 implies #[trigger] part_federation(data, pos, j) is None by {
                    assert(part_federation(data, pos, j) is None);
                }
            }
        }
    }
}

/// Decoded `OOBNotes` bytes hold the notes of all their parts, in order,
/// and the federation id `"unknown"` when no part names a federation.
pub proof fn lemma_decoded_notes_and_default_federation(data: Seq<u8>)
    ensures
        spec_decode_oob_notes(data) matches Ok((fed, notes)) ==> {
            &&& spec_read_bigsize(data, 0) matches Ok((n, p))
            &&& notes == notes_of_parts(data, p, n as nat)
            &&& (forall|j: nat| j < n ==> #[trigger] part_federation(data, p, j) is None) ==> fed == "unknown"@
        },
{
    if let Ok((n, p)) = spec_read_bigsize(data, 0) {
        lemma_parts_gather_all_notes(data, p, n as nat);
    }
}

proof fn lemma_peers_err(data: Seq<u8>, pos: int, i: nat, j: nat)
    requires
        i <= j,
        spec_skip_peers(data, pos, i) is Err,
    ensures
        spec_skip_peers(data, pos, j) == spec_skip_peers(data, pos, i),
    decreases j,
{
    if j > i {
        lemma_peers_err(data, pos, i, (j - 1) as nat);
    }
}

proof fn lemma_parts_err(data: Seq<u8>, pos: int, i: nat, j: nat)
    requires
        i <= j,
        spec_parse_parts(data, pos, i) is Err,
    ensures
        spec_parse_parts(data, pos, j) == spec_parse_parts(data, pos, i),
    decreases j,
{
    if j > i {
        lemma_parts_err(data, pos, i, (j - 1) as nat);
    }
}

/// Reads an invite at `*pos` and returns the hex federation id.
fn read_invite(data: &[u8], pos: &mut usize) -> (res: Result<String, OobNotesError>)
    ensures
        step_agrees(res, *final(pos) as int, spec_read_invite(data@, *old(pos) as int)),
{
    let ghost start = *pos as int;
    let peer_apis_len = match read_bigsize(data, pos) {
        Err(e) => return Err(e),
        Ok(v) => v,
    };
    let ghost p0 = *pos as int;
    let mut i: u64 = 0;
    while i < peer_apis_len
        invariant
            i <= peer_apis_len,
            start == *old(pos) as int,
            spec_read_bigsize(data@, start) == Ok::<(u64, int), (Seq<char>, int)>((peer_apis_len, p0)),
            spec_skip_peers(data@, p0, i as nat) == Ok::<((), int), (Seq<char>, int)>(((), *pos as int)),
        decreases peer_apis_len - i,
    {
        match read_bigsize(data, pos) {
            Err(e) => {
                proof {
                    lemma_peers_err(data@, p0, (i + 1) as nat, peer_apis_len as nat);
                }
                return Err(e);
            },
            Ok(_) => {},
        }
        match read_vec_bytes(data, pos) {
            Err(e) => {
                proof {
                    lemma_peers_err(data@, p0, (i + 1) as nat, peer_apis_len as nat);
                }
                return Err(e);
            },
            Ok(_) => {},
        }
        i = i + 1;
    }
    let fed_id_bytes = match read_bytes(data, pos, 32) {
        Err(e) => return Err(e),
        Ok(b) => b,
    };
    assert(fed_id_bytes.deep_view() =~= fed_id_bytes@);
    Ok(hex_encode(fed_id_bytes.as_slice()))
}

/// The message for a part whose announced length runs past the data.
fn variant_too_long(len: u64, pos: usize) -> (msg: String)
    ensures
        msg@ == msg_variant_too_long(len as nat, pos as nat),
{
    let mut msg = String::from_str("Variant data length ");
    let l = decimal_string(len);
    msg.append(l.as_str());
    msg.append(" exceeds remaining data at position ");
    let p = decimal_string(pos as u64);
    msg.append(p.as_str());
    msg
}

/// Reads one `OOBNotesPart` at `*pos`, leaving `*pos` right after its
/// announced length.
fn parse_oob_notes_part(data: &[u8], pos: &mut usize) -> (res: Result<
    (Option<String>, Vec<(u64, String)>),
    OobNotesError,
>)
    ensures
        step_agrees(res, *final(pos) as int, spec_parse_oob_notes_part(data@, *old(pos) as int)),
{
    let variant = match read_bigsize(data, pos) {
        Err(e) => return Err(e),
        Ok(v) => v,
    };
    let data_len = match read_bigsize(data, pos) {
        Err(e) => return Err(e),
        Ok(v) => v,
    };
    let remaining = data.len() - *pos;
    if data_len > remaining as u64 {
        return Err(decode_error(variant_too_long(data_len, *pos)));
    }
    let data_end = *pos + data_len as usize;
    let ghost body_start = *pos as int;
    let body = vstd::slice::slice_subrange(data, 0, data_end);
    assert(body@ =~= data@.take(data_end as int));
    let content: (Option<String>, Vec<(u64, String)>) = if variant == 0 {
        match parse_tiered_multi_notes(body, pos) {
            Err(e) => return Err(e),
            Ok(notes) => (None, notes),
        }
    } else if variant == 1 {
        match read_bytes(body, pos, 4) {
            Err(e) => return Err(e),
            Ok(prefix) => {
                assert(prefix.deep_view() =~= prefix@);
                (Some(hex_encode(prefix.as_slice())), Vec::new())
            },
        }
    } else if variant == 2 {
        match read_invite(body, pos) {
            Err(e) => return Err(e),
            Ok(fed_id) => (Some(fed_id), Vec::new()),
        }
    } else if variant == 3 {
        match read_vec_bytes(body, pos) {
            Err(e) => return Err(e),
            Ok(_) => (None, Vec::new()),
        }
    } else {
        *pos = data_end;
        (None, Vec::new())
    };
    proof {
        let expected = spec_part_body(body@, variant, body_start, data_end as int);
        assert(expected is Ok);
        assert(content.deep_view() == expected->Ok_0.0) by {
            assert(content.1.deep_view() =~= expected->Ok_0.0.1);
        }
    }
    *pos = data_end;
    Ok(content)
}

/// A decoded ecash string: the federation it belongs to and its notes.
#[derive(Debug)]
pub struct ParsedNoteSet {
    pub federation_id: String,
    pub notes: Vec<Note>,
}

/// `p` holds federation id `fed` and, in order, one fresh note per pair of
/// `pairs` (amount, nonce), all on paper note `paper_note_id`.
pub open spec fn parsed_note_set_is(
    p: ParsedNoteSet,
    fed: Seq<char>,
    pairs: Seq<(u64, Seq<char>)>,
    paper_note_id: u128,
) -> bool {
    &&& p.federation_id@ == fed
    &&& p.notes@.len() == pairs.len()
    &&& forall|i: int|
        0 <= i < pairs.len() ==> #[trigger] is_fresh_note(
            p.notes@[i],
            pairs[i].1,
            pairs[i].0,
            paper_note_id,
        )
}

/// Decodes the raw bytes of `OOBNotes` (after base64 or bech32 decoding);
/// every note is put on paper note `paper_note_id`.
fn decode_oob_notes_bytes(data: &[u8], paper_note_id: u128) -> (res: Result<ParsedNoteSet, OobNotesError>)
    ensures
        match spec_decode_oob_notes(data@) {
            Ok((fed, pairs)) => res matches Ok(p) && parsed_note_set_is(p, fed, pairs, paper_note_id),
            Err(f) => res matches Err(e) && e@ == f,
        },
{
    let mut pos: usize = 0;
    let mut federation_id: Option<String> = None;
    let mut all_notes: Vec<(u64, String)> = Vec::new();
    let parts_len = match read_bigsize(data, &mut pos) {
        Err(e) => return Err(e),
        Ok(v) => v,
    };
    let ghost p0 = pos as int;
    assert(all_notes.deep_view() =~= Seq::<(u64, Seq<char>)>::empty());
    let mut i: u64 = 0;
    while i < parts_len
        invariant
            i <= parts_len,
            spec_read_bigsize(data@, 0) == Ok::<(u64, int), (Seq<char>, int)>((parts_len, p0)),
            spec_parse_parts(data@, p0, i as nat) == Ok::<(PartContent, int), (Seq<char>, int)>(((federation_id.deep_view(), all_notes.deep_view()), pos as int)),
        decreases parts_len - i,
    {
        match parse_oob_notes_part(data, &mut pos) {
            Err(e) => {
                proof {
                    lemma_parts_err(data@, p0, (i + 1) as nat, parts_len as nat);
                }
                return Err(e);
            },
            Ok((fed_id, mut notes)) => {
                if fed_id.is_some() {
                    federation_id = fed_id;
                }
                let ghost prev = all_notes.deep_view();
                let ghost added = notes.deep_view();
                all_notes.append(&mut notes);
                assert(all_notes.deep_view() =~= prev + added);
            },
        }
        i = i + 1;
    }
    if all_notes.len() == 0 {
        return Err(OobNotesError::NoNotes);
    }
    let federation_id = match federation_id {
        Some(f) => f,
        None => String::from_str("unknown"),
    };
    let ghost pairs = all_notes.deep_view();
    let mut notes: Vec<Note> = Vec::new();
    let mut k: usize = 0;
    while k < all_notes.len()
        invariant
            k <= all_notes.len(),
            pairs == all_notes.deep_view(),
            notes@.len() == k,
            forall|j: int|
                0 <= j < k ==> #[trigger] is_fresh_note(notes@[j], pairs[j].1, pairs[j].0, paper_note_id),
        decreases all_notes.len() - k,
    {
        let amount_msat = all_notes[k].0;
        let nonce = all_notes[k].1.clone();
        let mut note = Note::new(nonce, amount_msat);
        note.paper_note_id = paper_note_id;
        notes.push(note);
        k = k + 1;
    }
    Ok(ParsedNoteSet { federation_id, notes })
}


/// The result of decoding matches the expected outcome: the same error, or
/// the expected federation id and notes, all on one paper note.
pub open spec fn parse_outcome_is(
    res: Result<ParsedNoteSet, OobNotesError>,
    expected: Result<(Seq<char>, Seq<(u64, Seq<char>)>), OobNotesFailure>,
) -> bool {
    match expected {
        Ok((fed, pairs)) => res matches Ok(p) && p.notes@.len() > 0 && parsed_note_set_is(
            p,
            fed,
            pairs,
            p.notes@[0].paper_note_id,
        ),
        Err(f) => res matches Err(e) && e@ == f,
    }
}

/// What base64 decoding of `s` gives, trying in turn the URL-safe alphabet
/// without and with padding, then the standard alphabet with and without.
pub open spec fn spec_try_decode_base64(s: Seq<char>) -> Option<Seq<u8>> {
    if spec_base64_url_safe_no_pad(s) is Some {
        spec_base64_url_safe_no_pad(s)
    } else if spec_base64_url_safe(s) is Some {
        spec_base64_url_safe(s)
    } else if spec_base64_standard(s) is Some {
        spec_base64_standard(s)
    } else {
        spec_base64_standard_no_pad(s)
    }
}

/// Tries the base64 variants in turn.
fn try_decode_base64(input: &str) -> (res: Option<Vec<u8>>)
    ensures
        match res {
            Some(b) => spec_try_decode_base64(input@) == Some(b@),
            None => spec_try_decode_base64(input@) is None,
        },
{
    match base64_url_safe_no_pad(input) {
        Some(bytes) => return Some(bytes),
        None => {},
    }
    match base64_url_safe(input) {
        Some(bytes) => return Some(bytes),
        None => {},
    }
    match base64_standard(input) {
        Some(bytes) => return Some(bytes),
        None => {},
    }
    base64_standard_no_pad(input)
}

/// The prefix that marks bech32m ecash.
pub open spec fn fedimint_prefix() -> Seq<char> {
    seq!['f', 'e', 'd', 'i', 'm', 'i', 'n', 't', '1']
}

/// ASCII lowercase of a character; other characters are kept.
pub open spec fn spec_ascii_lower(c: char) -> char {
    if 65 <= (c as u32) <= 90 {
        (((c as u32) + 32) as u8) as char
    } else {
        c
    }
}

/// Whether the lowercase form of `s` starts with `"fedimint1"`. Only ASCII
/// letters lowercase into these characters without adding a character, so
/// this is an ASCII case-insensitive comparison of the first nine characters.
pub open spec fn spec_has_fedimint_prefix(s: Seq<char>) -> bool {
    &&& s.len() >= 9
    &&& forall|i: int| 0 <= i < 9 ==> spec_ascii_lower(#[trigger] s[i]) == fedimint_prefix()[i]
}

fn ascii_lower(c: char) -> (r: char)
    ensures
        r == spec_ascii_lower(c),
{
    let u = c as u32;
    if 65 <= u && u <= 90 {
        ((u + 32) as u8) as char
    } else {
        c
    }
}

fn has_fedimint_prefix(s: &Vec<char>) -> (res: bool)
    ensures
        res == spec_has_fedimint_prefix(s@),
{
    if s.len() < 9 {
        return false;
    }
    let prefix: Vec<char> = vec!['f', 'e', 'd', 'i', 'm', 'i', 'n', 't', '1'];
    assert(prefix@ =~= fedimint_prefix());
    let mut i: usize = 0;
    while i < 9
        invariant
            i <= 9,
            s@.len() >= 9,
            prefix@ == fedimint_prefix(),
            forall|j: int| 0 <= j < i ==> spec_ascii_lower(#[trigger] s@[j]) == fedimint_prefix()[j],
        decreases 9 - i,
    {
        if ascii_lower(s[i]) != prefix[i] {
            return false;
        }
        i = i + 1;
    }
    true
}

/// The bytes an ecash string carries, once whitespace is removed: bech32m
/// with human-readable part `fedimint` when it starts with `fedimint1` (in any
/// ASCII case), base64 otherwise; or the error message.
pub open spec fn spec_ecash_bytes(input: Seq<char>) -> Result<Seq<u8>, Seq<char>> {
    let s = spec_strip_whitespace(input);
    if s.len() == 0 {
        Err("Empty input"@)
    } else if spec_has_fedimint_prefix(s) {
        match spec_bech32m_decode(s) {
            Err(m) => Err("Invalid bech32: "@ + m),
            Ok((hrp, bytes)) => if hrp != "fedimint"@ {
                Err("Invalid HRP, expected 'fedimint'"@)
            } else {
                Ok(bytes)
            },
        }
    } else {
        match spec_try_decode_base64(s) {
            Some(bytes) => Ok(bytes),
            None => Err("Invalid base64 encoding"@),
        }
    }
}

/// The decoded content of an ecash string.
pub open spec fn spec_parse_oob_notes(input: Seq<char>) -> Result<
    (Seq<char>, Seq<(u64, Seq<char>)>),
    OobNotesFailure,
> {
    match spec_ecash_bytes(input) {
        Err(m) => Err(OobNotesFailure::DecodeError(m)),
        Ok(bytes) => spec_decode_oob_notes(bytes),
    }
}

/// Hex digits are ASCII, two per byte.
proof fn lemma_hex_ascii(b: Seq<u8>)
    ensures
        vstd::utf8::is_ascii_chars(spec_hex_lower(b)),
        spec_hex_lower(b).len() == 2 * b.len(),
    decreases b.len(),
{
    if b.len() > 0 {
        lemma_hex_ascii(b.drop_last());
        let prev = spec_hex_lower(b.drop_last());
        let hi = b.last() / 16;
        let lo = b.last() % 16;
        let tail = seq![crate::external::hex_digit(hi), crate::external::hex_digit(lo)];
        assert(vstd::utf8::is_ascii_chars(tail));
        vstd::utf8::is_ascii_chars_concat(prev + tail, prev, tail);
    }
}

/// A federation id named by one part is ASCII (hex).
proof fn lemma_part_federation_ascii(data: Seq<u8>, pos: int)
    ensures
        spec_parse_oob_notes_part(data, pos) matches Ok(((Some(f), _), _)) ==> vstd::utf8::is_ascii_chars(f),
{
    match spec_parse_oob_notes_part(data, pos) {
        Ok(((Some(f), _), _)) => {
            let (variant, p1) = spec_read_bigsize(data, pos)->Ok_0;
            let (len, p2) = spec_read_bigsize(data, p1)->Ok_0;
            let body = data.take(p2 + len as int);
            if variant == 1 {
                let (b, _) = spec_read_bytes(body, p2, 4)->Ok_0;
                lemma_hex_ascii(b);
                assert(f == spec_hex_lower(b));
            } else if variant == 2 {
                let (n, q0) = spec_read_bigsize(body, p2)->Ok_0;
                let (_, q) = spec_skip_peers(body, q0, n as nat)->Ok_0;
                let (b, _) = spec_read_bytes(body, q, 32)->Ok_0;
                lemma_hex_ascii(b);
                assert(f == spec_hex_lower(b));
            }
        },
        _ => {},
    }
}

/// The federation id the parts name, if any, is ASCII.
proof fn lemma_parts_federation_ascii(data: Seq<u8>, pos: int, count: nat)
    ensures
        spec_parse_parts(data, pos, count) matches Ok(((Some(f), _), _)) ==> vstd::utf8::is_ascii_chars(f),
    decreases count,
{
    if count > 0 {
        lemma_parts_federation_ascii(data, pos, (count - 1) as nat);
        if let Ok((_, p)) = spec_parse_parts(data, pos, (count - 1) as nat) {
            lemma_part_federation_ascii(data, p);
        }
    }
}

/// The federation id of a parsed ecash string is ASCII: hex, or
/// `"unknown"`.
pub proof fn lemma_parsed_federation_ascii(input: Seq<char>)
    ensures
        spec_parse_oob_notes(input) matches Ok((fed, _)) ==> vstd::utf8::is_ascii_chars(fed),
{
    if let Ok(bytes) = spec_ecash_bytes(input) {
        if let Ok((n, p)) = spec_read_bigsize(bytes, 0) {
            lemma_parts_federation_ascii(bytes, p, n as nat);
        }
        reveal_strlit("unknown");
    }
}

/// Every nonce of a list of notes is ASCII.
pub open spec fn ascii_nonces(pairs: Seq<(u64, Seq<char>)>) -> bool {
    forall|i: int| 0 <= i < pairs.len() ==> vstd::utf8::is_ascii_chars(#[trigger] pairs[i].1)
}

proof fn lemma_ascii_nonces_concat(a: Seq<(u64, Seq<char>)>, b: Seq<(u64, Seq<char>)>)
    requires
        ascii_nonces(a),
        ascii_nonces(b),
    ensures
        ascii_nonces(a + b),
{
    assert forall|i: int| 0 <= i < (a + b).len() implies vstd::utf8::is_ascii_chars(#[trigger] (a + b)[i].1) by {
        if i < a.len() {
            assert((a + b)[i] == a[i]);
        } else {
            assert((a + b)[i] == b[i - a.len()]);
        }
    }
}

proof fn lemma_tier_ascii(data: Seq<u8>, pos: int, amount: u64, count: nat)
    ensures
        spec_parse_tier(data, pos, amount, count) matches Ok((notes, _)) ==> ascii_nonces(notes),
    decreases count,
{
    if count > 0 {
        lemma_tier_ascii(data, pos, amount, (count - 1) as nat);
        if let Ok((notes, p)) = spec_parse_tier(data, pos, amount, (count - 1) as nat) {
            if let Ok((nonce, q)) = spec_parse_spendable_note(data, p) {
                let (_, p1) = spec_read_bytes(data, p, 48)->Ok_0;
                let (key, p2) = spec_read_bytes(data, p1, 32)->Ok_0;
                let pk = spec_secp256k1_public_key(key)->Ok_0;
                lemma_hex_ascii(pk);
                let all = notes.push((amount, nonce));
                assert forall|i: int| 0 <= i < all.len() implies vstd::utf8::is_ascii_chars(#[trigger] all[i].1) by {
                    if i < notes.len() {
                        assert(all[i] == notes[i]);
                    }
                }
            }
        }
    }
}

proof fn lemma_tiers_ascii(data: Seq<u8>, pos: int, count: nat)
    ensures
        spec_parse_tiers(data, pos, count) matches Ok((notes, _)) ==> ascii_nonces(notes),
    decreases count,
{
    if count > 0 {
        lemma_tiers_ascii(data, pos, (count - 1) as nat);
        if let Ok((notes, p)) = spec_parse_tiers(data, pos, (count - 1) as nat) {
            if let Ok((amount, p1)) = spec_read_bigsize(data, p) {
                if let Ok((n, p2)) = spec_read_bigsize(data, p1) {
                    lemma_tier_ascii(data, p2, amount, n as nat);
                    if let Ok((t, _)) = spec_parse_tier(data, p2, amount, n as nat) {
                        lemma_ascii_nonces_concat(notes, t);
                    }
                }
            }
        }
    }
}

proof fn lemma_parts_nonces_ascii(data: Seq<u8>, pos: int, count: nat)
    ensures
        spec_parse_parts(data, pos, count) matches Ok(((_, notes), _)) ==> ascii_nonces(notes),
    decreases count,
{
    if count > 0 {
        lemma_parts_nonces_ascii(data, pos, (count - 1) as nat);
        if let Ok(((_, notes), p)) = spec_parse_parts(data, pos, (count - 1) as nat) {
            if let Ok(((_, n), _)) = spec_parse_oob_notes_part(data, p) {
                let (variant, p1) = spec_read_bigsize(data, p)->Ok_0;
                let (len, p2) = spec_read_bigsize(data, p1)->Ok_0;
                let body = data.take(p2 + len as int);
                if variant == 0 {
                    let (k, p3) = spec_read_bigsize(body, p2)->Ok_0;
                    lemma_tiers_ascii(body, p3, k as nat);
                }
                lemma_ascii_nonces_concat(notes, n);
            }
        }
    } else {
        assert(ascii_nonces(Seq::<(u64, Seq<char>)>::empty()));
    }
}

/// The nonces of the notes of a parsed ecash string are ASCII (hex).
pub proof fn lemma_parsed_nonces_ascii(input: Seq<char>)
    ensures
        spec_parse_oob_notes(input) matches Ok((_, pairs)) ==> ascii_nonces(pairs),
{
    if let Ok(bytes) = spec_ecash_bytes(input) {
        if let Ok((n, p)) = spec_read_bigsize(bytes, 0) {
            lemma_parts_nonces_ascii(bytes, p, n as nat);
        }
    }
}

/// Whitespace does not matter: an ecash string parses exactly as it does
/// with all its whitespace taken out.
pub proof fn lemma_parse_ignores_whitespace(input: Seq<char>)
    ensures
        spec_parse_oob_notes(spec_strip_whitespace(input)) == spec_parse_oob_notes(input),
{
    crate::text::lemma_strip_whitespace_idempotent(input);
}

/// Two ecash strings that differ only in their whitespace parse alike: the
/// same content, or the same error.
pub proof fn lemma_parse_whitespace_insensitive(w: Seq<char>, e: Seq<char>)
    requires
        spec_strip_whitespace(w) == spec_strip_whitespace(e),
    ensures
        spec_parse_oob_notes(w) == spec_parse_oob_notes(e),
{
}

/// The encoding does not matter: a bech32m string (human-readable part
/// `fedimint`) and a base64 string that carry the same bytes, each with any
/// whitespace, both parse to what those bytes decode to.
pub proof fn lemma_parse_depends_only_on_bytes(bech: Seq<char>, b64: Seq<char>, bytes: Seq<u8>)
    requires
        spec_has_fedimint_prefix(spec_strip_whitespace(bech)),
        spec_bech32m_decode(spec_strip_whitespace(bech)) == Ok::<(Seq<char>, Seq<u8>), Seq<char>>(
            ("fedimint"@, bytes),
        ),
        spec_strip_whitespace(b64).len() > 0,
        !spec_has_fedimint_prefix(spec_strip_whitespace(b64)),
        spec_try_decode_base64(spec_strip_whitespace(b64)) == Some(bytes),
    ensures
        spec_parse_oob_notes(bech) == spec_decode_oob_notes(bytes),
        spec_parse_oob_notes(b64) == spec_decode_oob_notes(bytes),
        spec_parse_oob_notes(bech) == spec_parse_oob_notes(b64),
{
}

/// Parses OOBNotes from a string.
///
/// Supports the bech32m format with the `fedimint1` prefix, and base64
/// (URL-safe or standard, with or without padding). All notes of the string
/// are put on one new paper note.
pub fn parse_oob_notes(input: &str) -> (res: Result<ParsedNoteSet, OobNotesError>)
    ensures
        parse_outcome_is(res, spec_parse_oob_notes(input@)),
{
    let chars = str_chars(input);
    let stripped = strip_whitespace(&chars);
    if stripped.len() == 0 {
        return Err(decode_error(String::from_str("Empty input")));
    }
    let text = string_from_chars(&stripped);
    let bytes: Vec<u8> = if has_fedimint_prefix(&stripped) {
        match bech32m_decode(text.as_str()) {
            Err(e) => {
                let mut msg = String::from_str("Invalid bech32: ");
                msg.append(e.as_str());
                return Err(decode_error(msg));
            },
            Ok((hrp, bytes)) => {
                let expected = String::from_str("fedimint");
                if !(hrp == expected) {
                    return Err(decode_error(String::from_str("Invalid HRP, expected 'fedimint'")));
                }
                bytes
            },
        }
    } else {
        match try_decode_base64(text.as_str()) {
            Some(bytes) => bytes,
            None => return Err(decode_error(String::from_str("Invalid base64 encoding"))),
        }
    };
    let paper_note_id = random_id();
    let res = decode_oob_notes_bytes(bytes.as_slice(), paper_note_id);
    proof {
        if let Ok((fed, pairs)) = spec_decode_oob_notes(bytes@) {
            let p = res->Ok_0;
            assert(is_fresh_note(p.notes@[0], pairs[0].1, pairs[0].0, paper_note_id));
        }
    }
    res
}

/// A CSV line that holds an ecash string: not empty, not a `#` comment.
pub open spec fn is_csv_entry(line: Seq<char>) -> bool {
    line.len() > 0 && line[0] != '#'
}

/// The ecash strings of a CSV text: its lines (split at newlines), trimmed,
/// without empty lines and `#` comments.
pub open spec fn spec_csv_entries(content: Seq<char>) -> Seq<Seq<char>> {
    keep_entries(spec_split_newlines(content).map_values(|l: Seq<char>| spec_trim(l)))
}

/// The lines that hold ecash strings.
pub open spec fn keep_entries(lines: Seq<Seq<char>>) -> Seq<Seq<char>> {
    lines.filter(|l: Seq<char>| is_csv_entry(l))
}

/// Parses multiple ecash strings, one per line (as in a CSV file).
pub fn parse_csv_notes(csv_content: &str) -> (res: Vec<Result<ParsedNoteSet, OobNotesError>>)
    ensures
        res@.len() == spec_csv_entries(csv_content@).len(),
        forall|i: int|
            0 <= i < res@.len() ==> #[trigger] parse_outcome_is(
                res@[i],
                spec_parse_oob_notes(spec_csv_entries(csv_content@)[i]),
            ),
{
    let chars = str_chars(csv_content);
    let lines = split_newlines(&chars);
    let ghost trimmed = lines.deep_view().map_values(|l: Seq<char>| spec_trim(l));
    let mut results: Vec<Result<ParsedNoteSet, OobNotesError>> = Vec::new();
    let mut j: usize = 0;
    assert(keep_entries(trimmed.take(0)) =~= Seq::<Seq<char>>::empty()) by {
        reveal(Seq::filter);
    }
    while j < lines.len()
        invariant
            j <= lines.len(),
            trimmed == lines.deep_view().map_values(|l: Seq<char>| spec_trim(l)),
            results@.len() == keep_entries(trimmed.take(j as int)).len(),
            forall|i: int|
                0 <= i < results@.len() ==> #[trigger] parse_outcome_is(
                    results@[i],
                    spec_parse_oob_notes(
                        keep_entries(trimmed.take(j as int))[i],
                    ),
                ),
        decreases lines.len() - j,
    {
        let line = trim_chars(&lines[j]);
        let ghost before = keep_entries(trimmed.take(j as int));
        proof {
            reveal(Seq::filter);
            assert(trimmed.take(j + 1).drop_last() =~= trimmed.take(j as int));
            assert(lines[j as int].deep_view() =~= lines[j as int]@);
            assert(trimmed[j as int] == line@);
        }
        if line.len() > 0 && line[0] != '#' {
            let text = string_from_chars(&line);
            let parsed = parse_oob_notes(text.as_str());
            let ghost prev = results@;
            results.push(parsed);
            proof {
                let after = keep_entries(trimmed.take(j + 1));
                assert(after == before.push(line@));
                assert forall|i: int| 0 <= i < results@.len() implies #[trigger] parse_outcome_is(
                    results@[i],
                    spec_parse_oob_notes(after[i]),
                ) by {
                    if i < prev.len() {
                        assert(results@[i] == prev[i]);
                        assert(after[i] == before[i]);
                    }
                }
            }
        }
        j = j + 1;
    }
    assert(trimmed.take(lines.len() as int) =~= trimmed);
    results
}

} // verus!
