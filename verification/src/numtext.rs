//! Text forms of the numbers that the state store reads and writes.
//!
//! Two kinds of token appear in a store line: unsigned decimal integers
//! (window id, grid shape, grid cell) and float literals (the window
//! geometry).  Integers are parsed to their value and printed back; float
//! tokens are only checked against the float-literal grammar and carried
//! verbatim, since the library never does arithmetic on them.

use vstd::prelude::*;
use vstd::string::StrSliceExecFns;
use vstd::string::StringExecFns;

verus! {

/// Whether `c` is an ASCII decimal digit.
pub open spec fn is_digit(c: char) -> bool {
    48 <= c as u32 <= 57
}

/// The numeric value of an ASCII decimal digit.
pub open spec fn digit_val(c: char) -> int {
    c as u32 - 48
}

/// The ASCII digit with value `d`.
pub open spec fn digit_char(d: int) -> char {
    if d == 0 {
        '0'
    } else if d == 1 {
        '1'
    } else if d == 2 {
        '2'
    } else if d == 3 {
        '3'
    } else if d == 4 {
        '4'
    } else if d == 5 {
        '5'
    } else if d == 6 {
        '6'
    } else if d == 7 {
        '7'
    } else if d == 8 {
        '8'
    } else {
        '9'
    }
}

/// Whether every character of `s` is an ASCII decimal digit.
pub open spec fn all_digits(s: Seq<char>) -> bool {
    forall|i: int| 0 <= i < s.len() ==> is_digit(#[trigger] s[i])
}

/// The value of a sequence of decimal digits, most significant first.
pub open spec fn digits_val(s: Seq<char>) -> int
    decreases s.len(),
{
    if s.len() == 0 {
        0
    } else {
        digits_val(s.drop_last()) * 10 + digit_val(s.last())
    }
}

/// The decimal text of `n`: no sign, no leading zero except for `0` itself.
pub open spec fn dec_spec(n: int) -> Seq<char>
    decreases n,
{
    if n < 10 {
        seq![digit_char(n)]
    } else {
        dec_spec(n / 10).push(digit_char(n % 10))
    }
}

/// What `u32` text parsing accepts and yields: an optional leading `+`, then
/// one or more decimal digits whose value fits in a `u32`.
pub open spec fn parse_u32_spec(s: Seq<char>) -> Option<u32> {
    let t = if s.len() > 0 && s[0] == '+' {
        s.drop_first()
    } else {
        s
    };
    if t.len() == 0 || !all_digits(t) {
        None
    } else if digits_val(t) > u32::MAX {
        None
    } else {
        Some(digits_val(t) as u32)
    }
}

pub proof fn lemma_digits_val_bounds(s: Seq<char>)
    requires
        all_digits(s),
    ensures
        digits_val(s) >= 0,
        s.len() > 0 ==> digits_val(s) >= digit_val(s.last()),
    decreases s.len(),
{
    if s.len() > 0 {
        assert(all_digits(s.drop_last())) by {
            assert(forall|i: int|
                0 <= i < s.len() - 1 ==> #[trigger] s.drop_last()[i] == s[i]);
        }
        lemma_digits_val_bounds(s.drop_last());
    }
}

/// The digits of `dec_spec(n)` and their value: printing then re-reading a
/// number gives the number back.
pub proof fn lemma_dec_spec_val(n: int)
    requires
        n >= 0,
    ensures
        dec_spec(n).len() >= 1,
        all_digits(dec_spec(n)),
        digits_val(dec_spec(n)) == n,
    decreases n,
{
    if n < 10 {
        let s = dec_spec(n);
        assert(s =~= seq![digit_char(n)]);
        assert(s.drop_last() =~= Seq::<char>::empty());
        assert(s.last() == digit_char(n));
        assert(digit_val(digit_char(n)) == n);
        assert(digits_val(s) == digits_val(Seq::<char>::empty()) * 10 + digit_val(digit_char(n)));
    } else {
        lemma_dec_spec_val(n / 10);
        let s = dec_spec(n / 10).push(digit_char(n % 10));
        assert(s.drop_last() =~= dec_spec(n / 10));
        assert(s.last() == digit_char(n % 10));
        assert(digit_val(digit_char(n % 10)) == n % 10);
        assert(digits_val(s) == (n / 10) * 10 + n % 10);
        assert((n / 10) * 10 + n % 10 == n) by {
            vstd::arithmetic::div_mod::lemma_fundamental_div_mod(n, 10);
        }
        assert(forall|i: int| 0 <= i < s.len() ==> is_digit(#[trigger] s[i]));
    }
}

/// Printing a `u32` and parsing the text back yields the same value.
pub proof fn lemma_parse_of_dec(n: u32)
    ensures
        parse_u32_spec(dec_spec(n as int)) == Some(n),
{
    lemma_dec_spec_val(n as int);
    let s = dec_spec(n as int);
    assert(is_digit(s[0]));
    assert(s[0] != '+');
}

/// Appending digits never lowers the value: used to justify giving up as soon
/// as a prefix already exceeds `u32::MAX`.
pub proof fn lemma_digits_val_prefix_le(s: Seq<char>, i: int)
    requires
        all_digits(s),
        0 <= i <= s.len(),
    ensures
        digits_val(s.take(i)) <= digits_val(s),
    decreases s.len(),
{
    if i == s.len() {
        assert(s.take(i) =~= s);
    } else {
        assert(all_digits(s.drop_last())) by {
            assert(forall|k: int|
                0 <= k < s.len() - 1 ==> #[trigger] s.drop_last()[k] == s[k]);
        }
        lemma_digits_val_prefix_le(s.drop_last(), i);
        assert(s.take(i) =~= s.drop_last().take(i));
        lemma_digits_val_bounds(s.drop_last());
        lemma_digits_val_bounds(s);
    }
}

/// Parse an unsigned decimal integer as `u32` text parsing does: an optional
/// leading `+`, then decimal digits; anything else, or a value over
/// `u32::MAX`, is rejected.
pub fn parse_u32(s: &str) -> (r: Option<u32>)
    ensures
        r == parse_u32_spec(s@),
{
    let n = s.unicode_len();
    let mut i: usize = 0;
    if n > 0 && s.get_char(0) == '+' {
        i = 1;
    }
    let ghost t = if s@.len() > 0 && s@[0] == '+' {
        s@.drop_first()
    } else {
        s@
    };
    assert(t.len() == n - i);
    assert(forall|k: int| 0 <= k < t.len() ==> t[k] == s@[k + i]);
    if i == n {
        return None;
    }
    let mut acc: u64 = 0;
    while i < n
        invariant
            s@.len() == n,
            t == (if s@.len() > 0 && s@[0] == '+' {
                s@.drop_first()
            } else {
                s@
            }),
            t.len() == n - (if s@.len() > 0 && s@[0] == '+' {
                1int
            } else {
                0int
            }),
            forall|k: int|
                0 <= k < t.len() ==> t[k] == s@[k + (n - t.len())],
            n - t.len() <= i <= n,
            all_digits(t.take(i - (n - t.len()))),
            acc == digits_val(t.take(i - (n - t.len()))),
            acc <= u32::MAX,
        decreases n - i,
    {
        let c = s.get_char(i);
        let v = c as u32;
        if !(48 <= v && v <= 57) {
            proof {
                let j = i - (n - t.len());
                assert(0 <= j < t.len());
                assert(t[j] == s@[j + (n - t.len())]);
                assert(t[j] == c);
                assert(!is_digit(t[j]));
                assert(!all_digits(t));
            }
            return None;
        }
        let d = (v - 48) as u64;
        acc = acc * 10 + d;
        proof {
            let j = i - (n - t.len());
            assert(0 <= j < t.len());
            assert(t[j] == s@[j + (n - t.len())]);
            assert(t[j] == c);
            assert(is_digit(t[j]));
            assert(digit_val(t[j]) == d);
            assert(t.take(j + 1).drop_last() =~= t.take(j));
            assert(t.take(j + 1).last() == t[j]);
            assert(digits_val(t.take(j + 1)) == digits_val(t.take(j)) * 10 + digit_val(t[j]));
            assert(acc == digits_val(t.take(j + 1)));
            assert(all_digits(t.take(j + 1)));
        }
        i = i + 1;
        if acc > u32::MAX as u64 {
            proof {
                let j = i - (n - t.len());
                assert(acc == digits_val(t.take(j)));
                if all_digits(t) {
                    lemma_digits_val_prefix_le(t, j);
                    assert(digits_val(t) >= digits_val(t.take(j)));
                    assert(digits_val(t) > u32::MAX);
                }
            }
            return None;
        }
    }
    assert(t.take(t.len() as int) =~= t);
    Some(acc as u32)
}

/// Whether `c` is an optional-sign character of a number.
pub open spec fn is_sign(c: char) -> bool {
    c == '+' || c == '-'
}

/// Whether `c` equals the lowercase letter `l`, ignoring ASCII case.
pub open spec fn lower_eq(c: char, l: char) -> bool {
    c == l || c as u32 + 32 == l as u32
}

/// The first position at or after `i` that does not hold a digit (or the end
/// of `s`).
pub open spec fn digits_end(s: Seq<char>, i: int) -> int
    decreases s.len() - i when 0 <= i <= s.len()
{
    if i < s.len() && is_digit(s[i]) {
        digits_end(s, i + 1)
    } else {
        i
    }
}

pub proof fn lemma_digits_end(s: Seq<char>, i: int)
    requires
        0 <= i <= s.len(),
    ensures
        i <= digits_end(s, i) <= s.len(),
        forall|k: int| i <= k < digits_end(s, i) ==> is_digit(#[trigger] s[k]),
        digits_end(s, i) < s.len() ==> !is_digit(s[digits_end(s, i)]),
    decreases s.len() - i,
{
    if i < s.len() && is_digit(s[i]) {
        lemma_digits_end(s, i + 1);
    }
}

/// An exponent part starting at `i`: `e` or `E`, an optional sign, then one
/// or more digits reaching the end of `s`.
pub open spec fn is_exponent_at(s: Seq<char>, i: int) -> bool {
    &&& 0 <= i < s.len()
    &&& (s[i] == 'e' || s[i] == 'E')
    &&& {
        let j = if i + 1 < s.len() && is_sign(s[i + 1]) {
            i + 2
        } else {
            i + 1
        };
        j < s.len() && digits_end(s, j) == s.len()
    }
}

/// A number starting at `i`: digits with an optional dot somewhere (at least
/// one digit overall), then an optional exponent, reaching the end of `s`.
pub open spec fn is_number_at(s: Seq<char>, i: int) -> bool {
    let i2 = digits_end(s, i);
    if i2 < s.len() && s[i2] == '.' {
        let i3 = digits_end(s, i2 + 1);
        (i2 - i) + (i3 - (i2 + 1)) >= 1 && (i3 == s.len() || is_exponent_at(s, i3))
    } else {
        i2 - i >= 1 && (i2 == s.len() || is_exponent_at(s, i2))
    }
}

/// The word `inf` (any ASCII case) filling the rest of `s` from `i` on.
pub open spec fn is_inf_at(s: Seq<char>, i: int) -> bool {
    &&& s.len() - i == 3
    &&& lower_eq(s[i], 'i')
    &&& lower_eq(s[i + 1], 'n')
    &&& lower_eq(s[i + 2], 'f')
}

/// The word `infinity` (any ASCII case) filling the rest of `s` from `i` on.
pub open spec fn is_infinity_at(s: Seq<char>, i: int) -> bool {
    &&& s.len() - i == 8
    &&& lower_eq(s[i], 'i')
    &&& lower_eq(s[i + 1], 'n')
    &&& lower_eq(s[i + 2], 'f')
    &&& lower_eq(s[i + 3], 'i')
    &&& lower_eq(s[i + 4], 'n')
    &&& lower_eq(s[i + 5], 'i')
    &&& lower_eq(s[i + 6], 't')
    &&& lower_eq(s[i + 7], 'y')
}

/// The word `nan` (any ASCII case) filling the rest of `s` from `i` on.
pub open spec fn is_nan_at(s: Seq<char>, i: int) -> bool {
    &&& s.len() - i == 3
    &&& lower_eq(s[i], 'n')
    &&& lower_eq(s[i + 1], 'a')
    &&& lower_eq(s[i + 2], 'n')
}

/// The float-literal grammar of the store's geometry fields: an optional
/// sign, then `inf`, `infinity`, `nan` (case-insensitive), or a number with
/// an optional fraction and exponent.
pub open spec fn is_float_token(s: Seq<char>) -> bool {
    let i = if s.len() > 0 && is_sign(s[0]) {
        1int
    } else {
        0int
    };
    ||| is_inf_at(s, i)
    ||| is_infinity_at(s, i)
    ||| is_nan_at(s, i)
    ||| is_number_at(s, i)
}

/// Whether `c` equals the lowercase letter `l` up to ASCII case.
fn char_eq_ci(c: char, l: char) -> (r: bool)
    ensures
        r == lower_eq(c, l),
{
    c == l || (c as u32) + 32 == (l as u32)
}

/// The first position at or after `from` that does not hold a digit.
fn scan_digits(s: &str, from: usize) -> (r: usize)
    requires
        from <= s@.len(),
    ensures
        from <= r <= s@.len(),
        r == digits_end(s@, from as int),
{
    let n = s.unicode_len();
    let mut i = from;
    loop
        invariant
            n == s@.len(),
            from <= i <= n,
            digits_end(s@, from as int) == digits_end(s@, i as int),
        ensures
            from <= i <= n,
            i == digits_end(s@, from as int),
        decreases n - i,
    {
        if i == n {
            break ;
        }
        let c = s.get_char(i);
        let v = c as u32;
        if !(48 <= v && v <= 57) {
            break ;
        }
        i = i + 1;
    }
    i
}

/// Whether `s` as a whole is a float literal of the store's grammar.
pub fn check_float_token(s: &str) -> (r: bool)
    ensures
        r == is_float_token(s@),
{
    let n = s.unicode_len();
    let mut i: usize = 0;
    if n > 0 {
        let c = s.get_char(0);
        if c == '+' || c == '-' {
            i = 1;
        }
    }
    assert(i == (if s@.len() > 0 && is_sign(s@[0]) {
        1int
    } else {
        0int
    }));
    if n - i == 3 && char_eq_ci(s.get_char(i), 'i') && char_eq_ci(s.get_char(i + 1), 'n')
        && char_eq_ci(s.get_char(i + 2), 'f') {
        return true;
    }
    if n - i == 8 && char_eq_ci(s.get_char(i), 'i') && char_eq_ci(s.get_char(i + 1), 'n')
        && char_eq_ci(s.get_char(i + 2), 'f') && char_eq_ci(s.get_char(i + 3), 'i') && char_eq_ci(
        s.get_char(i + 4),
        'n',
    ) && char_eq_ci(s.get_char(i + 5), 'i') && char_eq_ci(s.get_char(i + 6), 't') && char_eq_ci(
        s.get_char(i + 7),
        'y',
    ) {
        return true;
    }
    if n - i == 3 && char_eq_ci(s.get_char(i), 'n') && char_eq_ci(s.get_char(i + 1), 'a')
        && char_eq_ci(s.get_char(i + 2), 'n') {
        return true;
    }
    proof {
        let gi = i as int;
        assert(!is_inf_at(s@, gi) && !is_infinity_at(s@, gi) && !is_nan_at(s@, gi));
    }
    // From here on only a number can match.
    let i2 = scan_digits(s, i);
    let d1 = i2 - i;
    let mut j = i2;
    let mut digits_seen = d1;
    if j < n && s.get_char(j) == '.' {
        let j2 = scan_digits(s, j + 1);
        digits_seen = d1 + (j2 - (j + 1));
        j = j2;
    }
    if digits_seen == 0 {
        return false;
    }
    if j == n {
        return true;
    }
    // Exponent part.
    let c = s.get_char(j);
    if !(c == 'e' || c == 'E') {
        return false;
    }
    let mut k = j + 1;
    if k < n {
        let c2 = s.get_char(k);
        if c2 == '+' || c2 == '-' {
            k = k + 1;
        }
    }
    if k == n {
        return false;
    }
    let k2 = scan_digits(s, k);
    k2 == n
}

/// The one-character text of a decimal digit.
fn digit_str(d: u32) -> (r: &'static str)
    requires
        d < 10,
    ensures
        r@ == seq![digit_char(d as int)],
{
    proof {
        reveal_strlit("0");
        reveal_strlit("1");
        reveal_strlit("2");
        reveal_strlit("3");
        reveal_strlit("4");
        reveal_strlit("5");
        reveal_strlit("6");
        reveal_strlit("7");
        reveal_strlit("8");
        reveal_strlit("9");
    }
    let r = if d == 0 {
        "0"
    } else if d == 1 {
        "1"
    } else if d == 2 {
        "2"
    } else if d == 3 {
        "3"
    } else if d == 4 {
        "4"
    } else if d == 5 {
        "5"
    } else if d == 6 {
        "6"
    } else if d == 7 {
        "7"
    } else if d == 8 {
        "8"
    } else {
        "9"
    };
    assert(r@ =~= seq![digit_char(d as int)]);
    r
}

/// Print `n` in decimal, most significant digit first.
pub fn u32_to_string(n: u32) -> (r: String)
    ensures
        r@ == dec_spec(n as int),
    decreases n,
{
    if n < 10 {
        let r = String::from_str(digit_str(n));
        assert(r@ =~= dec_spec(n as int));
        r
    } else {
        assert(n / 10 < n) by (nonlinear_arith)
            requires n >= 10,
        ;
        let mut r = u32_to_string(n / 10);
        r.append(digit_str(n % 10));
        assert(r@ =~= dec_spec(n as int));
        r
    }
}

} // verus!
