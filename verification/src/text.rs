//! Character-level building blocks: decimal rendering of integers and
//! string assembly from characters.

use vstd::prelude::*;
use vstd::string::StringSliceAdditionalSpecFns;

verus! {

/// Appends one character to a string.
///
/// Trusted: wraps std `String::push`, which the std documentation describes as
/// appending the given `char` to the end of the string.
#[verifier::external_body]
pub(crate) fn push_char(s: &mut String, c: char)
    ensures
        final(s)@ == old(s)@.push(c),
{
    s.push(c);
}

/// The ASCII digit character for a value `d` in `0..10`.
pub open spec fn digit_char(d: int) -> char {
    ((48 + d) as u8) as char
}

/// Decimal representation of a natural number, most significant digit first,
/// without leading zeros (zero is written as `"0"`).
pub open spec fn spec_decimal(n: nat) -> Seq<char>
    decreases n,
{
    if n < 10 {
        seq![digit_char(n as int)]
    } else {
        spec_decimal(n / 10).push(digit_char((n % 10) as int))
    }
}

/// The digits of `n`, or nothing when `n` is zero (helper view of the
/// part of a number that is still to be written).
pub open spec fn spec_decimal_or_empty(n: nat) -> Seq<char> {
    if n == 0 {
        Seq::empty()
    } else {
        spec_decimal(n)
    }
}

/// A decimal representation has between one and twenty digits for a `u64`.
pub proof fn lemma_decimal_len(n: nat)
    ensures
        spec_decimal(n).len() >= 1,
        n < 10 ==> spec_decimal(n).len() == 1,
    decreases n,
{
    if n >= 10 {
        lemma_decimal_len(n / 10);
    }
}

/// The character for the last decimal digit of `m`.
fn last_digit(m: u64) -> (c: char)
    ensures
        c == digit_char((m % 10) as int),
{
    let d: u8 = (m % 10) as u8;
    (48u8 + d) as char
}

/// Builds a `String` holding exactly the given characters.
pub fn string_from_chars(v: &Vec<char>) -> (s: String)
    ensures
        s@ == v@,
{
    let mut s = String::new();
    let mut i: usize = 0;
    while i < v.len()
        invariant
            i <= v.len(),
            s@ == v@.take(i as int),
        decreases v.len() - i,
    {
        push_char(&mut s, v[i]);
        i = i + 1;
        assert(s@ =~= v@.take(i as int));
    }
    assert(v@.take(v.len() as int) =~= v@);
    s
}

/// The decimal digits of `n` as characters.
pub fn decimal_chars(n: u64) -> (v: Vec<char>)
    ensures
        v@ == spec_decimal(n as nat),
{
    let mut digits: Vec<char> = Vec::new();
    digits.push(last_digit(n));
    let mut m: u64 = n / 10;
    assert(digits@ =~= seq![digit_char((n % 10) as int)]);
    while m > 0
        invariant
            spec_decimal(n as nat) == spec_decimal_or_empty(m as nat) + digits@,
        decreases m,
    {
        let c = last_digit(m);
        digits.insert(0, c);
        let ghost old_m = m;
        m = m / 10;
        assert(spec_decimal(old_m as nat) == spec_decimal_or_empty(m as nat) + seq![c]);
        assert(spec_decimal_or_empty(m as nat) + digits@ =~= spec_decimal_or_empty(m as nat)
            + seq![c] + digits@.drop_first());
    }
    assert(digits@ =~= Seq::<char>::empty() + digits@);
    digits
}

/// Decimal rendering of an unsigned integer, like `n.to_string()`.
pub fn decimal_string(n: u64) -> (s: String)
    ensures
        s@ == spec_decimal(n as nat),
{
    let v = decimal_chars(n);
    string_from_chars(&v)
}


/// The characters of a string slice, in order.
pub fn str_chars(s: &str) -> (v: Vec<char>)
    ensures
        v@ == s@,
{
    broadcast use vstd::string::group_string_axioms;
    let mut v: Vec<char> = Vec::new();
    for c in it: s.chars()
        invariant
            v@ == it.seq().take(it.index() as int),
    {
        v.push(c);
    }
    v
}


/// Unicode `White_Space`, the characters for which `char::is_whitespace` holds.
pub open spec fn spec_is_whitespace(c: char) -> bool {
    let u = c as u32;
    ||| 0x09 <= u <= 0x0D
    ||| u == 0x20
    ||| u == 0x85
    ||| u == 0xA0
    ||| u == 0x1680
    ||| 0x2000 <= u <= 0x200A
    ||| u == 0x2028
    ||| u == 0x2029
    ||| u == 0x202F
    ||| u == 0x205F
    ||| u == 0x3000
}

/// Whether `c` is a Unicode whitespace character.
pub fn is_whitespace(c: char) -> (res: bool)
    ensures
        res == spec_is_whitespace(c),
{
    let u = c as u32;
    (0x09 <= u && u <= 0x0D) || u == 0x20 || u == 0x85 || u == 0xA0 || u == 0x1680 || (0x2000 <= u
        && u <= 0x200A) || u == 0x2028 || u == 0x2029 || u == 0x202F || u == 0x205F || u == 0x3000
}

/// Whether `c` is not whitespace (as a spec closure for filtering).
pub open spec fn not_whitespace(c: char) -> bool {
    !spec_is_whitespace(c)
}

/// `s` without any whitespace character.
pub open spec fn spec_strip_whitespace(s: Seq<char>) -> Seq<char> {
    s.filter(|c: char| not_whitespace(c))
}

/// Filtering keeps a sequence whose elements all pass the filter as it is.
pub proof fn lemma_filter_keeps_all<A>(s: Seq<A>, pred: spec_fn(A) -> bool)
    requires
        forall|i: int| 0 <= i < s.len() ==> pred(#[trigger] s[i]),
    ensures
        s.filter(pred) == s,
    decreases s.len(),
{
    reveal(Seq::filter);
    if s.len() > 0 {
        assert forall|i: int| 0 <= i < s.len() - 1 implies pred(#[trigger] s.drop_last()[i]) by {
            assert(s.drop_last()[i] == s[i]);
        }
        lemma_filter_keeps_all(s.drop_last(), pred);
        assert(s.drop_last().push(s.last()) =~= s);
    }
}

/// Taking out whitespace twice is taking it out once.
pub proof fn lemma_strip_whitespace_idempotent(s: Seq<char>)
    ensures
        spec_strip_whitespace(spec_strip_whitespace(s)) == spec_strip_whitespace(s),
{
    let pred = |c: char| not_whitespace(c);
    let t = s.filter(pred);
    assert forall|i: int| 0 <= i < t.len() implies pred(#[trigger] t[i]) by {
        s.lemma_filter_pred(pred, i);
    }
    lemma_filter_keeps_all(t, pred);
}

/// Removes every whitespace character.
pub fn strip_whitespace(v: &Vec<char>) -> (out: Vec<char>)
    ensures
        out@ == spec_strip_whitespace(v@),
{
    let mut out: Vec<char> = Vec::new();
    let mut i: usize = 0;
    assert(v@.take(0).filter(|c: char| not_whitespace(c)) =~= Seq::<char>::empty()) by {
        reveal(Seq::filter);
    }
    while i < v.len()
        invariant
            i <= v.len(),
            out@ == v@.take(i as int).filter(|c: char| not_whitespace(c)),
        decreases v.len() - i,
    {
        let c = v[i];
        if !is_whitespace(c) {
            out.push(c);
        }
        proof {
            reveal(Seq::filter);
            assert(v@.take(i + 1).drop_last() =~= v@.take(i as int));
        }
        i = i + 1;
    }
    assert(v@.take(v.len() as int) =~= v@);
    out
}

/// `s` without its leading whitespace.
pub open spec fn spec_trim_start(s: Seq<char>) -> Seq<char>
    decreases s.len(),
{
    if s.len() > 0 && spec_is_whitespace(s[0]) {
        spec_trim_start(s.drop_first())
    } else {
        s
    }
}

/// `s` without its trailing whitespace.
pub open spec fn spec_trim_end(s: Seq<char>) -> Seq<char>
    decreases s.len(),
{
    if s.len() > 0 && spec_is_whitespace(s.last()) {
        spec_trim_end(s.drop_last())
    } else {
        s
    }
}

/// `s` without leading and trailing whitespace, as `str::trim` gives it.
pub open spec fn spec_trim(s: Seq<char>) -> Seq<char> {
    spec_trim_end(spec_trim_start(s))
}

/// Removes leading and trailing whitespace.
pub fn trim_chars(v: &Vec<char>) -> (out: Vec<char>)
    ensures
        out@ == spec_trim(v@),
{
    let mut a: usize = 0;
    assert(v@.skip(0) =~= v@);
    while a < v.len() && is_whitespace(v[a])
        invariant
            a <= v.len(),
            spec_trim_start(v@) == spec_trim_start(v@.skip(a as int)),
        decreases v.len() - a,
    {
        assert(v@.skip(a as int).drop_first() =~= v@.skip(a + 1));
        a = a + 1;
    }
    let ghost head = v@.skip(a as int);
    assert(spec_trim_start(v@) == head);
    let mut b: usize = v.len();
    assert(head.take(head.len() as int) =~= head);
    while b > a && is_whitespace(v[b - 1])
        invariant
            a <= b <= v.len(),
            head == v@.skip(a as int),
            spec_trim_end(head) == spec_trim_end(head.take(b - a)),
        decreases b,
    {
        assert(head.take(b - a).drop_last() =~= head.take(b - a - 1));
        b = b - 1;
    }
    assert(spec_trim_end(head.take(b - a)) == head.take(b - a));
    let mut out: Vec<char> = Vec::new();
    let mut k: usize = a;
    while k < b
        invariant
            a <= k <= b <= v.len(),
            head == v@.skip(a as int),
            out@ == head.take(k - a),
        decreases b - k,
    {
        out.push(v[k]);
        k = k + 1;
        assert(out@ =~= head.take(k - a));
    }
    out
}

/// The pieces of `s` between newline characters (a trailing newline leaves
/// an empty last piece).
pub open spec fn spec_split_newlines(s: Seq<char>) -> Seq<Seq<char>>
    decreases s.len(),
{
    if s.len() == 0 {
        seq![Seq::empty()]
    } else {
        let prev = spec_split_newlines(s.drop_last());
        if s.last() == '\n' {
            prev.push(Seq::empty())
        } else {
            prev.update(prev.len() - 1, prev.last().push(s.last()))
        }
    }
}

proof fn lemma_split_newlines_nonempty(s: Seq<char>)
    ensures
        spec_split_newlines(s).len() >= 1,
    decreases s.len(),
{
    if s.len() > 0 {
        lemma_split_newlines_nonempty(s.drop_last());
    }
}

/// Splits characters at newlines.
pub fn split_newlines(v: &Vec<char>) -> (out: Vec<Vec<char>>)
    ensures
        out.deep_view() == spec_split_newlines(v@),
{
    let mut done: Vec<Vec<char>> = Vec::new();
    let mut cur: Vec<char> = Vec::new();
    let mut i: usize = 0;
    assert(v@.take(0) =~= Seq::<char>::empty());
    assert(done.deep_view().push(cur@) =~= spec_split_newlines(v@.take(0)));
    while i < v.len()
        invariant
            i <= v.len(),
            done.deep_view().push(cur@) == spec_split_newlines(v@.take(i as int)),
        decreases v.len() - i,
    {
        let c = v[i];
        let ghost prev_done = done.deep_view();
        let ghost prev_cur = cur@;
        proof {
            assert(v@.take(i + 1).drop_last() =~= v@.take(i as int));
            assert(v@.take(i + 1).last() == c);
        }
        if c == '\n' {
            let finished = cur;
            assert(finished.deep_view() =~= prev_cur);
            cur = Vec::new();
            done.push(finished);
            assert(done.deep_view() =~= prev_done.push(prev_cur));
            assert(done.deep_view().push(cur@) =~= prev_done.push(prev_cur).push(Seq::empty()));
        } else {
            cur.push(c);
            assert(done.deep_view().push(cur@) =~= prev_done.push(prev_cur).update(
                prev_done.len() as int,
                prev_cur.push(c),
            ));
        }
        i = i + 1;
    }
    let ghost prev_done = done.deep_view();
    let ghost last = cur@;
    assert(cur.deep_view() =~= last);
    done.push(cur);
    assert(done.deep_view() =~= prev_done.push(last));
    assert(v@.take(v.len() as int) =~= v@);
    done
}


/// Whether two string slices hold the same characters.
pub fn str_eq(a: &str, b: &str) -> (res: bool)
    ensures
        res == (a@ == b@),
{
    let x = a.as_bytes();
    let y = b.as_bytes();
    proof {
        vstd::utf8::encode_utf8_decode_utf8(a@);
        vstd::utf8::encode_utf8_decode_utf8(b@);
    }
    if x.len() != y.len() {
        return false;
    }
    let mut i: usize = 0;
    while i < x.len()
        invariant
            i <= x@.len(),
            x@.len() == y@.len(),
            x@ == a.spec_bytes(),
            y@ == b.spec_bytes(),
            forall|j: int| 0 <= j < i ==> x@[j] == y@[j],
        decreases x@.len() - i,
    {
        if x[i] != y[i] {
            assert(x@ != y@);
            return false;
        }
        i = i + 1;
    }
    assert(x@ =~= y@);
    true
}

} // verus!
