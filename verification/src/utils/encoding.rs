//! Display formatting of nonces, amounts and plain numbers.

use vstd::prelude::*;
use vstd::string::StringSliceAdditionalSpecFns;
use vstd::utf8::{encode_utf8, is_char_boundary};
use crate::text::{decimal_chars, decimal_string, lemma_filter_keeps_all, spec_decimal, string_from_chars};

verus! {

/// UTF-8 encoding distributes over concatenation.
pub proof fn lemma_encode_utf8_concat(a: Seq<char>, b: Seq<char>)
    ensures
        encode_utf8(a + b) == encode_utf8(a) + encode_utf8(b),
    decreases a.len(),
{
    if a.len() == 0 {
        assert(a + b =~= b);
        assert(encode_utf8(a) =~= Seq::<u8>::empty());
        assert(encode_utf8(a) + encode_utf8(b) =~= encode_utf8(b));
    } else {
        lemma_encode_utf8_concat(a.drop_first(), b);
        assert((a + b).drop_first() =~= a.drop_first() + b);
        assert((a + b)[0] == a[0]);
        assert(encode_utf8(a + b) =~= vstd::utf8::encode_scalar(a[0] as u32) + encode_utf8(
            a.drop_first() + b,
        ));
    }
}

/// An ASCII character is encoded as the single byte of its code.
pub proof fn lemma_encode_ascii_char(c: char)
    requires
        (c as u32) < 128,
    ensures
        vstd::utf8::encode_scalar(c as u32) == seq![(c as u32) as u8],
{
    let v = c as u32;
    assert(v < 128 ==> (v & 0x7F) == v) by (bit_vector);
}

/// The bytes that `truncate_string` keeps of a string's UTF-8 encoding `b`:
/// everything when it fits in `max_len` bytes, the first `max_len` bytes when
/// `max_len` is below five, and otherwise `(max_len - 3) / 2` bytes from each
/// end joined by `"..."`.
pub open spec fn spec_truncate_bytes(b: Seq<u8>, max_len: nat) -> Seq<u8> {
    if b.len() <= max_len {
        b
    } else if max_len < 5 {
        b.take(max_len as int)
    } else {
        let half = (max_len - 3) / 2;
        b.take(half as int) + seq![46u8, 46u8, 46u8] + b.skip(b.len() - half)
    }
}

/// The byte positions at which `truncate_string` cuts `b`, all of which must
/// fall on character boundaries (slicing a `str` elsewhere panics).
pub open spec fn truncate_cuts_on_boundaries(b: Seq<u8>, max_len: nat) -> bool {
    b.len() > max_len ==> if max_len < 5 {
        is_char_boundary(b, max_len as int)
    } else {
        let half = (max_len - 3) / 2;
        is_char_boundary(b, half as int) && is_char_boundary(b, b.len() - half)
    }
}

/// Truncates a string with an ellipsis in the middle, counting in bytes.
pub fn truncate_string(s: &str, max_len: usize) -> (res: String)
    requires
        truncate_cuts_on_boundaries(s.spec_bytes(), max_len as nat),
    ensures
        encode_utf8(res@) == spec_truncate_bytes(s.spec_bytes(), max_len as nat),
        s.spec_bytes().len() <= max_len ==> res@ == s@,
{
    let n = s.as_bytes().len();
    if n <= max_len {
        return s.to_owned();
    }
    if max_len < 5 {
        let (head, _) = s.split_at(max_len);
        return head.to_owned();
    }
    let half = (max_len - 3) / 2;
    let (start, _) = s.split_at(half);
    let (_, end) = s.split_at(n - half);
    let mut res = start.to_owned();
    res.append("...");
    res.append(end);
    proof {
        reveal_strlit("...");
        let dots = "..."@;
        assert(encode_utf8(dots) =~= seq![46u8, 46u8, 46u8]) by {
            reveal_with_fuel(encode_utf8, 4);
            assert(dots =~= seq!['.', '.', '.']);
            lemma_encode_ascii_char('.');
            assert(dots.drop_first().drop_first().drop_first() =~= Seq::<char>::empty());
        }
        lemma_encode_utf8_concat(start@ + dots, end@);
        lemma_encode_utf8_concat(start@, dots);
    }
    res
}

/// Formats a nonce for display: at most 16 bytes, shortened in the middle.
pub fn format_nonce(nonce: &str) -> (res: String)
    requires
        truncate_cuts_on_boundaries(nonce.spec_bytes(), 16),
    ensures
        encode_utf8(res@) == spec_truncate_bytes(nonce.spec_bytes(), 16),
        nonce.spec_bytes().len() <= 16 ==> res@ == nonce@,
{
    truncate_string(nonce, 16)
}

/// Digits grouped in threes from the right, separated by commas.
pub open spec fn spec_group_thousands(d: Seq<char>) -> Seq<char>
    decreases d.len(),
{
    if d.len() <= 3 {
        d
    } else {
        spec_group_thousands(d.take(d.len() - 3)) + seq![','] + d.skip(d.len() - 3)
    }
}

/// `n` written in decimal with thousands separators, as in `1,234,567`.
pub open spec fn spec_format_number(n: nat) -> Seq<char> {
    spec_group_thousands(spec_decimal(n))
}

/// Groups a sequence of digits in threes from the right.
fn group_thousands(d: &Vec<char>) -> (out: Vec<char>)
    ensures
        out@ == spec_group_thousands(d@),
{
    let mut out: Vec<char> = Vec::new();
    let mut i: usize = d.len();
    assert(d@.take(i as int) =~= d@);
    while i > 3
        invariant
            i <= d.len(),
            spec_group_thousands(d@) == spec_group_thousands(d@.take(i as int)) + out@,
        decreases i,
    {
        let ghost prev = out@;
        out.insert(0, d[i - 1]);
        out.insert(0, d[i - 2]);
        out.insert(0, d[i - 3]);
        out.insert(0, ',');
        proof {
            let t = d@.take(i as int);
            assert(t.take(t.len() - 3) =~= d@.take(i - 3));
            assert(t.skip(t.len() - 3) =~= seq![d@[i - 3], d@[i - 2], d@[i - 1]]);
            assert(out@ =~= seq![','] + t.skip(t.len() - 3) + prev);
        }
        i = i - 3;
    }
    while i > 0
        invariant
            i <= d.len(),
            i <= 3,
            spec_group_thousands(d@) == d@.take(i as int) + out@,
        decreases i,
    {
        let ghost prev = out@;
        out.insert(0, d[i - 1]);
        assert(d@.take(i as int) + prev =~= d@.take(i - 1) + out@);
        i = i - 1;
    }
    assert(out@ =~= Seq::<char>::empty() + out@);
    out
}

/// Formats a number with thousands separators.
pub fn format_number(n: u64) -> (res: String)
    ensures
        res@ == spec_format_number(n as nat),
{
    let d = decimal_chars(n);
    let g = group_thousands(&d);
    string_from_chars(&g)
}

/// Every position of an ASCII text's bytes is a character boundary.
proof fn lemma_ascii_boundary(s: Seq<char>, k: int)
    requires
        vstd::utf8::is_ascii_chars(s),
        0 <= k <= s.len(),
    ensures
        is_char_boundary(encode_utf8(s), k),
{
    let b = encode_utf8(s);
    vstd::utf8::is_ascii_chars_encode_utf8(s);
    vstd::utf8::encode_utf8_valid_utf8(s);
    if k == b.len() {
        vstd::utf8::is_char_boundary_start_end_of_seq(b);
    } else {
        assert(s[k] as u8 == b[k]);
        vstd::utf8::is_ascii_chars_nat_bound(s);
        vstd::utf8::is_char_boundary_iff_not_is_continuation_byte(b, k);
    }
}

/// An ASCII text can be truncated at any limit.
pub proof fn lemma_ascii_truncate_ok(s: Seq<char>, max_len: nat)
    requires
        vstd::utf8::is_ascii_chars(s),
    ensures
        truncate_cuts_on_boundaries(encode_utf8(s), max_len),
{
    let b = encode_utf8(s);
    vstd::utf8::is_ascii_chars_encode_utf8(s);
    if b.len() > max_len {
        if max_len < 5 {
            lemma_ascii_boundary(s, max_len as int);
        } else {
            let half = (max_len - 3) / 2;
            lemma_ascii_boundary(s, half as int);
            lemma_ascii_boundary(s, b.len() - half);
        }
    }
}

/// A truncated string fits: it is never longer, in bytes, than the limit.
pub proof fn lemma_truncate_fits(b: Seq<u8>, max_len: nat)
    ensures
        spec_truncate_bytes(b, max_len).len() <= max_len,
        b.len() > max_len && max_len >= 5 ==> spec_truncate_bytes(b, max_len).len() >= max_len - 1,
{
}

/// No decimal digit is a comma.
proof fn lemma_decimal_no_comma(n: nat)
    ensures
        forall|i: int| 0 <= i < spec_decimal(n).len() ==> #[trigger] spec_decimal(n)[i] != ',',
    decreases n,
{
    if n >= 10 {
        lemma_decimal_no_comma(n / 10);
        let d = spec_decimal(n);
        assert forall|i: int| 0 <= i < d.len() implies #[trigger] d[i] != ',' by {
            if i < d.len() - 1 {
                assert(d[i] == spec_decimal(n / 10)[i]);
            }
        }
    }
}

/// Without its commas, digits grouped in threes are the digits again.
proof fn lemma_group_thousands_digits(d: Seq<char>)
    requires
        forall|i: int| 0 <= i < d.len() ==> #[trigger] d[i] != ',',
    ensures
        spec_group_thousands(d).filter(|c: char| c != ',') == d,
    decreases d.len(),
{
    let nc = |c: char| c != ',';
    if d.len() <= 3 {
        lemma_filter_keeps_all(d, nc);
    } else {
        let front = d.take(d.len() - 3);
        let back = d.skip(d.len() - 3);
        assert forall|i: int| 0 <= i < front.len() implies #[trigger] front[i] != ',' by {
            assert(front[i] == d[i]);
        }
        assert forall|i: int| 0 <= i < back.len() implies #[trigger] back[i] != ',' by {
            assert(back[i] == d[i + d.len() - 3]);
        }
        lemma_group_thousands_digits(front);
        lemma_filter_keeps_all(back, nc);
        let g = spec_group_thousands(front);
        Seq::filter_distributes_over_add(g + seq![','], back, nc);
        Seq::filter_distributes_over_add(g, seq![','], nc);
        assert(seq![','].filter(nc) =~= Seq::<char>::empty()) by {
            Seq::<char>::empty().lemma_filter_push(',', nc);
            assert(Seq::<char>::empty().push(',') =~= seq![',']);
            assert(Seq::<char>::empty().filter(nc) =~= Seq::<char>::empty()) by {
                reveal(Seq::filter);
            }
        }
        assert(front + back =~= d);
    }
}

/// The thousands separators are all that `format_number` adds: without its
/// commas, a formatted number is its plain decimal.
pub proof fn lemma_format_number_digits(n: nat)
    ensures
        spec_format_number(n).filter(|c: char| c != ',') == spec_decimal(n),
{
    lemma_decimal_no_comma(n);
    lemma_group_thousands_digits(spec_decimal(n));
}

/// Zero-padded decimal: `d` preceded by enough `'0'` to reach `width`
/// characters (unchanged when it is already that long).
pub open spec fn spec_zero_pad(d: Seq<char>, width: nat) -> Seq<char> {
    if d.len() >= width {
        d
    } else {
        Seq::new((width - d.len()) as nat, |i: int| '0') + d
    }
}

/// `2^n`.
pub open spec fn two_pow(n: nat) -> nat
    decreases n,
{
    if n == 0 {
        1
    } else {
        2 * two_pow((n - 1) as nat)
    }
}

/// `a / d` rounded to the nearest integer, a tie going to the even one.
pub open spec fn round_half_even(a: nat, d: nat) -> nat
    recommends
        d > 0,
{
    let q = a / d;
    let r = a % d;
    if 2 * r > d || (2 * r == d && q % 2 == 1) {
        q + 1
    } else {
        q
    }
}

/// `2^53`: every integer below it is exactly an `f64`.
pub open spec fn f64_exact_limit() -> nat {
    0x20_0000_0000_0000
}

/// The exponent of the spacing of `f64` values around `x`: the least `e`,
/// from the given one up to 11, with `x < 2^e * 2^53`.
pub open spec fn f64_spacing_exp(x: nat, e: nat) -> nat
    decreases 11 - e,
{
    if e >= 11 || x < two_pow(e) * f64_exact_limit() {
        e
    } else {
        f64_spacing_exp(x, e + 1)
    }
}

/// The integer `x` (below `2^64`) converted to `f64`: itself below `2^53`,
/// otherwise the nearest multiple of the spacing there, a tie going to the
/// even significand.
pub open spec fn u64_as_f64(x: nat) -> nat {
    if x < f64_exact_limit() {
        x
    } else {
        let e = f64_spacing_exp(x, 1);
        round_half_even(x, two_pow(e)) * two_pow(e)
    }
}

/// `2^52 * 10^11`: a dividend scaled up to this size gives a quotient by
/// `10^11` with a full 53-bit significand.
pub open spec fn btc_scaled_low() -> nat {
    0x10_0000_0000_0000 * 100_000_000_000
}

/// How many doublings take the positive `v` to at least `lo`.
pub open spec fn doublings(v: nat, lo: nat) -> nat
    decreases (if v < lo { lo - v } else { 0 }),
{
    if v == 0 || v >= lo {
        0
    } else {
        1 + doublings(2 * v, lo)
    }
}

/// The `f64` quotient of the `f64` amount by `10^11` is
/// `btc_mantissa(msat) / 2^btc_scale(msat)`: the exact quotient rounded to
/// 53 significant bits, a tie going to the even significand.
pub open spec fn btc_scale(msat: nat) -> nat {
    doublings(u64_as_f64(msat), btc_scaled_low())
}

/// See `btc_scale`.
pub open spec fn btc_mantissa(msat: nat) -> nat {
    round_half_even(u64_as_f64(msat) * two_pow(btc_scale(msat)), 100_000_000_000)
}

/// What eight decimals show of that quotient, in units of `10^-8`: its exact
/// binary value times `10^8`, rounded to the nearest integer, a tie going to
/// the even one.
pub open spec fn btc_printed_units(msat: nat) -> nat {
    round_half_even(btc_mantissa(msat) * 100_000_000, two_pow(btc_scale(msat)))
}

/// Whole bitcoins and the eight shown decimals of an amount in millisatoshis,
/// as the division `msat as f64 / 1e11` printed with eight decimals gives them.
pub open spec fn spec_btc_parts(msat: nat) -> (nat, nat) {
    let n = btc_printed_units(msat);
    (n / 100_000_000, n % 100_000_000)
}

/// The amount in bitcoins with exactly eight decimals, as in `1.00000000`.
pub open spec fn spec_btc_decimal(msat: nat) -> Seq<char> {
    let (whole, sats) = spec_btc_parts(msat);
    spec_decimal(whole) + seq!['.'] + spec_zero_pad(spec_decimal(sats), 8)
}

/// How an amount in millisatoshis is shown: bitcoins with eight decimals from
/// 10^9 msat on (the amount divided by 10^11 in `f64`, see `spec_btc_parts`),
/// satoshis with thousands separators from 10^6 msat on,
/// satoshis from 1000 msat on, and millisatoshis below that.
pub open spec fn spec_format_amount_msat(msat: nat) -> Seq<char> {
    if msat >= 1_000_000_000 {
        spec_btc_decimal(msat) + " BTC"@
    } else if msat >= 1_000_000 {
        spec_format_number(msat / 1000) + " sats"@
    } else if msat >= 1000 {
        spec_decimal(msat / 1000) + " sats"@
    } else {
        spec_decimal(msat) + " msat"@
    }
}

/// Left-pads a digit sequence with zeros to `width` characters.
pub fn zero_pad(d: Vec<char>, width: usize) -> (out: Vec<char>)
    ensures
        out@ == spec_zero_pad(d@, width as nat),
{
    if d.len() >= width {
        return d;
    }
    let mut out: Vec<char> = Vec::new();
    let pad: usize = width - d.len();
    let mut i: usize = 0;
    while i < pad
        invariant
            i <= pad,
            out@ == Seq::new(i as nat, |j: int| '0'),
        decreases pad - i,
    {
        out.push('0');
        i = i + 1;
        assert(out@ =~= Seq::new(i as nat, |j: int| '0'));
    }
    let mut k: usize = 0;
    while k < d.len()
        invariant
            k <= d.len(),
            out@ == Seq::new(pad as nat, |j: int| '0') + d@.take(k as int),
        decreases d.len() - k,
    {
        out.push(d[k]);
        k = k + 1;
        assert(out@ =~= Seq::new(pad as nat, |j: int| '0') + d@.take(k as int));
    }
    assert(d@.take(d.len() as int) =~= d@);
    out
}

/// `a / d` rounded to the nearest integer, a tie going to the even one.
fn round_half_even_u128(a: u128, d: u128) -> (r: u128)
    requires
        d > 0,
        a < 0x1_0000_0000_0000_0000_0000_0000_0000,
        d < 0x1_0000_0000_0000_0000_0000_0000_0000,
    ensures
        r == round_half_even(a as nat, d as nat),
        a / d <= r <= a / d + 1,
{
    let q = a / d;
    let r = a % d;
    if 2 * r > d || (2 * r == d && q % 2 == 1) {
        q + 1
    } else {
        q
    }
}

/// The amount `msat` (at least `10^9`) divided by `10^11` in `f64`, as eight
/// decimals print it, in units of `10^-8`.
fn btc_units(msat: u64) -> (n: u128)
    requires
        msat >= 1_000_000_000,
    ensures
        n == btc_printed_units(msat as nat),
        n <= 0x20_0000_0000_0000 * 100_000_000 + 1,
{
    let x = msat as u128;
    let xf: u128 = if x < 0x20_0000_0000_0000 {
        x
    } else {
        let mut e: u32 = 1;
        let mut pe: u128 = 2;
        assert(two_pow(1) == 2) by {
            reveal_with_fuel(two_pow, 2);
        }
        while e < 11 && x >= pe * 0x20_0000_0000_0000
            invariant
                1 <= e <= 11,
                pe == two_pow(e as nat),
                2 <= pe <= x,
                x < 0x1_0000_0000_0000_0000,
                f64_spacing_exp(x as nat, 1) == f64_spacing_exp(x as nat, e as nat),
            decreases 11 - e,
        {
            e = e + 1;
            pe = pe * 2;
        }
        assert(f64_spacing_exp(x as nat, e as nat) == e);
        let r = round_half_even_u128(x, pe);
        assert(r * pe <= x + pe) by (nonlinear_arith)
            requires
                r <= x / pe + 1,
                pe > 0,
        {
            assert((x / pe) * pe <= x) by {
                vstd::arithmetic::div_mod::lemma_fundamental_div_mod(x as int, pe as int);
            }
        }
        assert(r >= 1) by (nonlinear_arith)
            requires
                r >= x / pe,
                pe <= x,
                pe > 0,
        {
            vstd::arithmetic::div_mod::lemma_div_is_ordered(pe as int, x as int, pe as int);
            vstd::arithmetic::div_mod::lemma_div_basics(pe as int);
        }
        assert(r * pe >= pe) by (nonlinear_arith)
            requires
                r >= 1,
                pe > 0,
        ;
        r * pe
    };
    assert(xf == u64_as_f64(msat as nat));
    let low: u128 = 0x10_0000_0000_0000 * 100_000_000_000;
    let mut v: u128 = xf;
    let mut pk: u128 = 1;
    let ghost mut k: nat = 0;
    assert(two_pow(0) == 1);
    while v < low
        invariant
            low == btc_scaled_low(),
            0 < xf <= 0x1_0000_0000_0000_0002_0000,
            v == xf * pk,
            pk == two_pow(k),
            1 <= pk <= v,
            0 < v < 2 * low,
            doublings(xf as nat, low as nat) == k + doublings(v as nat, low as nat),
        decreases 2 * low - v,
    {
        assert(xf * (pk * 2) == (xf * pk) * 2) by (nonlinear_arith);
        v = v * 2;
        pk = pk * 2;
        proof {
            k = k + 1;
        }
    }
    assert(k == btc_scale(msat as nat));
    let m = round_half_even_u128(v, 100_000_000_000);
    assert(m <= 0x20_0000_0000_0000);
    let t = m * 100_000_000;
    let n = round_half_even_u128(t, pk);
    assert(t / pk <= t) by (nonlinear_arith)
        requires
            pk >= 1,
    {
        vstd::arithmetic::div_mod::lemma_div_is_ordered_by_denominator(t as int, 1, pk as int);
    }
    n
}

/// Formats an amount in millisatoshis for display.
pub fn format_amount_msat(msat: u64) -> (res: String)
    ensures
        res@ == spec_format_amount_msat(msat as nat),
{
    if msat >= 1_000_000_000 {
        let n = btc_units(msat);
        let whole: u64 = (n / 100_000_000) as u64;
        let sats: u64 = (n % 100_000_000) as u64;
        let mut digits = decimal_chars(whole);
        digits.push('.');
        let frac = zero_pad(decimal_chars(sats), 8);
        let ghost before = digits@;
        let mut k: usize = 0;
        while k < frac.len()
            invariant
                k <= frac.len(),
                digits@ == before + frac@.take(k as int),
            decreases frac.len() - k,
        {
            digits.push(frac[k]);
            k = k + 1;
            assert(digits@ =~= before + frac@.take(k as int));
        }
        assert(frac@.take(frac.len() as int) =~= frac@);
        let mut res = string_from_chars(&digits);
        res.append(" BTC");
        res
    } else if msat >= 1_000_000 {
        let mut res = format_number(msat / 1000);
        res.append(" sats");
        res
    } else if msat >= 1000 {
        let mut res = decimal_string(msat / 1000);
        res.append(" sats");
        res
    } else {
        let mut res = decimal_string(msat);
        res.append(" msat");
        res
    }
}

} // verus!
