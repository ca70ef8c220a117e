//! Tokens: whitespace, numeric literals, identifiers and reserved words.
use vstd::prelude::*;
use vstd::string::StringSliceAdditionalSpecFns;
use vstd::slice::{slice_subrange, slice_to_vec};

use crate::ast::{Ast, ComplexInt};

verus! {

pub const SPACE: u8 = 0x20;
pub const TAB: u8 = 0x09;
pub const CR: u8 = 0x0d;
pub const LF: u8 = 0x0a;
pub const DIGIT_ZERO: u8 = 0x30;
pub const DIGIT_NINE: u8 = 0x39;
pub const UNDERSCORE: u8 = 0x5f;
pub const APOSTROPHE: u8 = 0x27;
pub const LETTER_I: u8 = 0x69;

/// Whitespace skipped around tokens: space, tab, carriage return, line feed.
pub open spec fn is_space(b: u8) -> bool {
    b == SPACE || b == TAB || b == CR || b == LF
}

pub open spec fn has_byte(s: Seq<u8>, p: int, b: u8) -> bool {
    0 <= p < s.len() && s[p] == b
}

/// Position of the first non-whitespace byte at or after `p`.
pub open spec fn skip_ws(s: Seq<u8>, p: int) -> int
    decreases s.len() - p,
{
    if 0 <= p < s.len() && is_space(s[p]) {
        skip_ws(s, p + 1)
    } else {
        p
    }
}

fn space_byte(b: u8) -> (r: bool)
    ensures
        r == is_space(b),
{
    b == SPACE || b == TAB || b == CR || b == LF
}

pub fn skip_spaces(s: &[u8], p: usize) -> (r: usize)
    requires
        p <= s@.len(),
    ensures
        r as int == skip_ws(s@, p as int),
        p <= r <= s@.len(),
{
    let mut i: usize = p;
    while i < s.len() && space_byte(s[i])
        invariant
            p <= i <= s@.len(),
            skip_ws(s@, i as int) == skip_ws(s@, p as int),
        decreases s@.len() - i,
    {
        i = i + 1;
    }
    i
}

pub open spec fn is_digit(b: u8) -> bool {
    DIGIT_ZERO <= b <= DIGIT_NINE
}

pub open spec fn is_alpha(b: u8) -> bool {
    (0x41 <= b <= 0x5a) || (0x61 <= b <= 0x7a)
}

/// Bytes of a digit run after its first digit: digits and grouping underscores.
pub open spec fn is_digit_or_sep(b: u8) -> bool {
    is_digit(b) || b == UNDERSCORE
}

pub open spec fn is_ident_start(b: u8) -> bool {
    is_alpha(b) || b == UNDERSCORE
}

pub open spec fn is_ident_byte(b: u8) -> bool {
    is_alpha(b) || is_digit(b) || b == UNDERSCORE || b == APOSTROPHE
}

/// End of the maximal run of digits and underscores starting at `p`.
pub open spec fn digit_run_end(s: Seq<u8>, p: int) -> int
    decreases s.len() - p,
{
    if 0 <= p < s.len() && is_digit_or_sep(s[p]) {
        digit_run_end(s, p + 1)
    } else {
        p
    }
}

/// End of the maximal run of identifier bytes starting at `p`.
pub open spec fn ident_run_end(s: Seq<u8>, p: int) -> int
    decreases s.len() - p,
{
    if 0 <= p < s.len() && is_ident_byte(s[p]) {
        ident_run_end(s, p + 1)
    } else {
        p
    }
}

/// Decimal value of the digits in `s[a..e]`; grouping underscores are skipped.
pub open spec fn digits_value(s: Seq<u8>, a: int, e: int) -> int
    decreases e - a,
{
    if e <= a {
        0
    } else if s[e - 1] == UNDERSCORE {
        digits_value(s, a, e - 1)
    } else {
        digits_value(s, a, e - 1) * 10 + (s[e - 1] - DIGIT_ZERO)
    }
}

/// A digit run at `p` (a digit, then digits and underscores): its end and
/// value, when the value fits in an `i64`.
pub open spec fn digit_run(s: Seq<u8>, p: int) -> Option<(int, i64)> {
    if 0 <= p < s.len() && is_digit(s[p]) {
        let e = digit_run_end(s, p + 1);
        let v = digits_value(s, p, e);
        if v <= i64::MAX {
            Some((e, v as i64))
        } else {
            None
        }
    } else {
        None
    }
}

/// `digits i` gives `(0, n)`; a bare `i` gives `(0, 1)`.
pub open spec fn imaginary_literal(s: Seq<u8>, p: int) -> Option<(int, Ast)> {
    if 0 <= p < s.len() && is_digit(s[p]) {
        let e = digit_run_end(s, p + 1);
        if has_byte(s, e, LETTER_I) {
            match digit_run(s, p) {
                Some((e, v)) => Some((e + 1, Ast::Value(ComplexInt(0, v)))),
                None => None,
            }
        } else {
            None
        }
    } else if has_byte(s, p, LETTER_I) {
        Some((p + 1, Ast::Value(ComplexInt(0, 1))))
    } else {
        None
    }
}

/// `digits` gives `(n, 0)`.
pub open spec fn integer_literal(s: Seq<u8>, p: int) -> Option<(int, Ast)> {
    match digit_run(s, p) {
        Some((e, v)) => Some((e, Ast::Value(ComplexInt(v, 0)))),
        None => None,
    }
}

/// The imaginary form is tried first, so that `5i` is not read as `5`.
pub open spec fn numeric_literal(s: Seq<u8>, p: int) -> Option<(int, Ast)> {
    match imaginary_literal(s, p) {
        Some(r) => Some(r),
        None => integer_literal(s, p),
    }
}

pub open spec fn ascii_chars(b: Seq<u8>) -> Seq<char> {
    Seq::new(b.len(), |i: int| b[i] as char)
}

/// Words that can never name a variable.
pub open spec fn is_reserved(w: Seq<char>) -> bool {
    ||| w == seq!['i', 'f']
    ||| w == seq!['e', 'l', 's', 'e']
    ||| w == seq!['t', 'h', 'e', 'n']
    ||| w == seq!['i']
    ||| w == seq!['l', 'e', 't']
    ||| w == seq!['p', 'r', 'i', 'n', 't']
    ||| w == seq!['p', 'r', 'i', 'n', 't', 'l', 'n']
    ||| w == seq!['w', 'h', 'i', 'l', 'e']
    ||| w == seq!['f', 'n']
    ||| w == seq!['m', 'u', 't']
    ||| w == seq!['b', 'r', 'e', 'a', 'k']
    ||| w == seq!['c', 'o', 'n', 't', 'i', 'n', 'u', 'e']
    ||| w == seq!['m', 'a', 't', 'r', 'i', 'x']
    ||| w == seq!['r', 'e', 't', 'u', 'r', 'n']
    ||| w == seq!['p', 'i']
    ||| w == seq!['t', 'a', 'u']
}

/// The name spelled by the identifier bytes `s[p..e]`.
pub open spec fn name_at(s: Seq<u8>, p: int, e: int) -> Seq<char> {
    ascii_chars(s.subrange(p, e))
}

/// End of the identifier at `p`: a letter or underscore, then letters,
/// digits, underscores and primes, as many as there are. Fails when that
/// maximal name is reserved.
pub open spec fn identifier_end(s: Seq<u8>, p: int) -> Option<int> {
    if 0 <= p < s.len() && is_ident_start(s[p]) {
        let e = ident_run_end(s, p + 1);
        if is_reserved(name_at(s, p, e)) {
            None
        } else {
            Some(e)
        }
    } else {
        None
    }
}

pub proof fn lemma_digit_run_end(s: Seq<u8>, p: int)
    requires
        0 <= p <= s.len(),
    ensures
        p <= digit_run_end(s, p) <= s.len(),
        forall|k: int| p <= k < digit_run_end(s, p) ==> is_digit_or_sep(#[trigger] s[k]),
    decreases s.len() - p,
{
    if p < s.len() && is_digit_or_sep(s[p]) {
        lemma_digit_run_end(s, p + 1);
    }
}

pub proof fn lemma_ident_run_end(s: Seq<u8>, p: int)
    requires
        0 <= p <= s.len(),
    ensures
        p <= ident_run_end(s, p) <= s.len(),
        forall|k: int| p <= k < ident_run_end(s, p) ==> is_ident_byte(#[trigger] s[k]),
    decreases s.len() - p,
{
    if p < s.len() && is_ident_byte(s[p]) {
        lemma_ident_run_end(s, p + 1);
    }
}

/// A longer run of digits never has a smaller value.
pub proof fn lemma_digits_value_monotone(s: Seq<u8>, a: int, i: int, j: int)
    requires
        a <= i <= j <= s.len(),
        0 <= a,
        forall|k: int| a <= k < j ==> is_digit_or_sep(#[trigger] s[k]),
    ensures
        0 <= digits_value(s, a, i) <= digits_value(s, a, j),
    decreases j - a,
{
    if j > a {
        if i < j {
            lemma_digits_value_monotone(s, a, i, j - 1);
        } else {
            lemma_digits_value_monotone(s, a, j - 1, j - 1);
        }
    }
}

fn digit_byte(b: u8) -> (r: bool)
    ensures
        r == is_digit(b),
{
    DIGIT_ZERO <= b && b <= DIGIT_NINE
}

fn alpha_byte(b: u8) -> (r: bool)
    ensures
        r == is_alpha(b),
{
    (0x41 <= b && b <= 0x5a) || (0x61 <= b && b <= 0x7a)
}

fn ident_byte(b: u8) -> (r: bool)
    ensures
        r == is_ident_byte(b),
{
    alpha_byte(b) || digit_byte(b) || b == UNDERSCORE || b == APOSTROPHE
}

/// Parses the digit run at `p` into an `i64`, skipping grouping underscores.
pub fn scan_digit_run(s: &[u8], p: usize) -> (r: Option<(usize, i64)>)
    requires
        p <= s@.len(),
    ensures
        r matches Some((e, v)) ==> digit_run(s@, p as int) == Some((e as int, v)) && p < e <= s@.len(),
        r is None ==> digit_run(s@, p as int) is None,
{
    if p >= s.len() || !digit_byte(s[p]) {
        return None;
    }
    let mut e: usize = p + 1;
    while e < s.len() && (digit_byte(s[e]) || s[e] == UNDERSCORE)
        invariant
            p < e <= s@.len(),
            digit_run_end(s@, e as int) == digit_run_end(s@, p as int + 1),
        decreases s@.len() - e,
    {
        e = e + 1;
    }
    proof {
        lemma_digit_run_end(s@, p as int + 1);
    }
    let mut acc: i64 = 0;
    let mut i: usize = p;
    while i < e
        invariant
            p <= i <= e <= s@.len(),
            e == digit_run_end(s@, p as int + 1),
            is_digit(s@[p as int]),
            forall|k: int| p < k < e ==> is_digit_or_sep(#[trigger] s@[k]),
            acc as int == digits_value(s@, p as int, i as int),
        decreases e - i,
    {
        proof {
            assert forall|k: int| p <= k < e implies is_digit_or_sep(#[trigger] s@[k]) by {
                if k == p {
                    assert(is_digit(s@[p as int]));
                }
            }
        }
        if s[i] == UNDERSCORE {
            i = i + 1;
        } else {
            let d: i64 = (s[i] - DIGIT_ZERO) as i64;
            let next = match acc.checked_mul(10) {
                Some(m) => m.checked_add(d),
                None => None,
            };
            match next {
                Some(n) => {
                    acc = n;
                    i = i + 1;
                },
                None => {
                    proof {
                        assert forall|k: int| p <= k < e implies is_digit_or_sep(#[trigger] s@[k]) by {
                            if k == p {
                                assert(is_digit(s@[p as int]));
                            }
                        }
                        lemma_digits_value_monotone(s@, p as int, i as int + 1, e as int);
                    }
                    return None;
                },
            }
        }
    }
    Some((e, acc))
}

/// Parses the numeric literal at `p`: imaginary form first, then integer.
pub fn scan_numeric_literal(s: &[u8], p: usize) -> (r: Option<(usize, ComplexInt)>)
    requires
        p <= s@.len(),
    ensures
        r matches Some((e, v)) ==> numeric_literal(s@, p as int) == Some((e as int, Ast::Value(v)))
            && p < e <= s@.len(),
        r is None ==> numeric_literal(s@, p as int) is None,
{
    match scan_digit_run(s, p) {
        Some((e, v)) => {
            if e < s.len() && s[e] == LETTER_I {
                Some((e + 1, ComplexInt(0, v)))
            } else {
                Some((e, ComplexInt(v, 0)))
            }
        },
        None => {
            if p < s.len() && digit_byte(s[p]) {
                None
            } else if p < s.len() && s[p] == LETTER_I {
                Some((p + 1, ComplexInt(0, 1)))
            } else {
                None
            }
        },
    }
}

/// Whether the bytes `s[p..e]` spell `w`.
pub(crate) fn span_is(s: &[u8], p: usize, e: usize, w: &[char]) -> (r: bool)
    requires
        p <= e <= s@.len(),
    ensures
        r == (name_at(s@, p as int, e as int) == w@),
{
    if e - p != w.len() {
        return false;
    }
    let mut k: usize = 0;
    while k < w.len()
        invariant
            p <= e <= s@.len(),
            e - p == w@.len(),
            k <= w@.len(),
            forall|j: int| 0 <= j < k ==> name_at(s@, p as int, e as int)[j] == w@[j],
        decreases w@.len() - k,
    {
        if s[p + k] as char != w[k] {
            assert(name_at(s@, p as int, e as int)[k as int] != w@[k as int]);
            return false;
        }
        k = k + 1;
    }
    assert(name_at(s@, p as int, e as int) =~= w@);
    true
}

fn reserved_span(s: &[u8], p: usize, e: usize) -> (r: bool)
    requires
        p <= e <= s@.len(),
    ensures
        r == is_reserved(name_at(s@, p as int, e as int)),
{
    if span_is(s, p, e, &['i', 'f']) {
        return true;
    }
    if span_is(s, p, e, &['e', 'l', 's', 'e']) {
        return true;
    }
    if span_is(s, p, e, &['t', 'h', 'e', 'n']) {
        return true;
    }
    let letter_i: &[char] = &['i'];
    assert(letter_i@ == seq!['i']);
    if span_is(s, p, e, letter_i) {
        return true;
    }
    if span_is(s, p, e, &['l', 'e', 't']) {
        return true;
    }
    if span_is(s, p, e, &['p', 'r', 'i', 'n', 't']) {
        return true;
    }
    if span_is(s, p, e, &['p', 'r', 'i', 'n', 't', 'l', 'n']) {
        return true;
    }
    if span_is(s, p, e, &['w', 'h', 'i', 'l', 'e']) {
        return true;
    }
    if span_is(s, p, e, &['f', 'n']) {
        return true;
    }
    if span_is(s, p, e, &['m', 'u', 't']) {
        return true;
    }
    if span_is(s, p, e, &['b', 'r', 'e', 'a', 'k']) {
        return true;
    }
    if span_is(s, p, e, &['c', 'o', 'n', 't', 'i', 'n', 'u', 'e']) {
        return true;
    }
    if span_is(s, p, e, &['m', 'a', 't', 'r', 'i', 'x']) {
        return true;
    }
    if span_is(s, p, e, &['r', 'e', 't', 'u', 'r', 'n']) {
        return true;
    }
    if span_is(s, p, e, &['p', 'i']) {
        return true;
    }
    if span_is(s, p, e, &['t', 'a', 'u']) {
        return true;
    }
    false
}

/// End of the identifier at `p`, if one stands there.
pub fn scan_identifier(s: &[u8], p: usize) -> (r: Option<usize>)
    requires
        p <= s@.len(),
    ensures
        r matches Some(e) ==> identifier_end(s@, p as int) == Some(e as int) && p < e <= s@.len(),
        r matches Some(e) ==> forall|k: int| p <= k < e ==> is_ident_byte(#[trigger] s@[k]),
        r is None ==> identifier_end(s@, p as int) is None,
{
    if p >= s.len() || !(alpha_byte(s[p]) || s[p] == UNDERSCORE) {
        return None;
    }
    let mut e: usize = p + 1;
    while e < s.len() && ident_byte(s[e])
        invariant
            p < e <= s@.len(),
            ident_run_end(s@, e as int) == ident_run_end(s@, p as int + 1),
        decreases s@.len() - e,
    {
        e = e + 1;
    }
    proof {
        lemma_ident_run_end(s@, p as int + 1);
    }
    if reserved_span(s, p, e) {
        None
    } else {
        Some(e)
    }
}

/// Relies on String::from_utf8: ASCII bytes are valid UTF-8 and each one
/// decodes to the character of the same code.
#[verifier::external_body]
fn string_of_ascii(b: Vec<u8>) -> (r: String)
    requires
        forall|k: int| 0 <= k < b@.len() ==> b@[k] < 0x80,
    ensures
        r@ == ascii_chars(b@),
{
    match String::from_utf8(b) {
        Ok(text) => text,
        Err(_) => String::new(),
    }
}

/// The name spelled by the identifier bytes `s[p..e]`, as a `String`.
pub fn name_string(s: &[u8], p: usize, e: usize) -> (r: String)
    requires
        p <= e <= s@.len(),
        forall|k: int| p <= k < e ==> is_ident_byte(#[trigger] s@[k]),
    ensures
        r@ == name_at(s@, p as int, e as int),
{
    let bytes = slice_to_vec(slice_subrange(s, p, e));
    assert forall|k: int| 0 <= k < bytes@.len() implies bytes@[k] < 0x80 by {
        assert(is_ident_byte(s@[p + k]));
    }
    string_of_ascii(bytes)
}

/// Reads the identifier at the start of `input`: a letter or underscore,
/// then letters, digits, underscores and primes, as many as there are.
/// Returns the byte offset just past it and its name; fails when no
/// identifier starts there or when the name is a reserved word.
pub fn identifier(input: &str) -> (r: Option<(usize, String)>)
    ensures
        r matches Some((e, name)) ==> identifier_end(input.spec_bytes(), 0) == Some(e as int)
            && name@ == name_at(input.spec_bytes(), 0, e as int),
        r is None ==> identifier_end(input.spec_bytes(), 0) is None,
{
    let s = input.as_bytes();
    match scan_identifier(s, 0) {
        Some(e) => Some((e, name_string(s, 0, e))),
        None => None,
    }
}

} // verus!
