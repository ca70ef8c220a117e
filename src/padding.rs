//! Whitespace after an expression does not change how it parses.
use vstd::prelude::*;

use crate::ast::{Ast, UnOp};
use crate::grammar::{
    additive_at, additive_op, additive_rest, atom_at, basic_factor_at, bin, conditional_at,
    conj_fold, equality_at, equality_op, equality_rest, expr_at, factor_at, has_word, modulus_at,
    multiplicative_op, negation_at, parens_at, term_at, term_rest, un, within, BAR, CARET, MINUS,
    OPEN_PAREN,
};
use crate::lexer::{
    digit_run_end, digits_value, has_byte, ident_run_end, identifier_end, is_space, name_at,
    numeric_literal, skip_ws, LETTER_I,
};

verus! {

/// `t` is `s` followed by whitespace only.
pub open spec fn padded(s: Seq<u8>, t: Seq<u8>) -> bool {
    &&& s.len() <= t.len()
    &&& forall|k: int| 0 <= k < s.len() ==> #[trigger] t[k] == s[k]
    &&& forall|k: int| s.len() <= k < t.len() ==> is_space(#[trigger] t[k])
}

/// A result on `s` from position `lo` and the result at the same position on its padded form
/// `t` agree: the same tree, and the same end, except that an end at the end
/// of `s` may move into the padding.
pub open spec fn agree(
    s: Seq<u8>,
    t: Seq<u8>,
    lo: int,
    r: Option<(int, Ast)>,
    r2: Option<(int, Ast)>,
) -> bool {
    match r {
        None => r2 is None,
        Some((q, a)) => lo <= q <= s.len() && if q < s.len() {
            r2 == Some((q, a))
        } else {
            r2 matches Some((q2, a2)) && a2 == a && s.len() <= q2 <= t.len()
        },
    }
}

proof fn lemma_skip_padded(s: Seq<u8>, t: Seq<u8>, q: int)
    requires
        padded(s, t),
        0 <= q <= t.len(),
    ensures
        q <= s.len() && skip_ws(s, q) < s.len() ==> skip_ws(t, q) == skip_ws(s, q),
        q <= s.len() ==> q <= skip_ws(s, q) <= s.len(),
        q <= s.len() && skip_ws(s, q) == s.len() ==> skip_ws(t, q) == t.len(),
        q >= s.len() ==> skip_ws(t, q) == t.len(),
    decreases t.len() - q,
{
    if q < t.len() {
        lemma_skip_padded(s, t, q + 1);
    }
}

proof fn lemma_ident_run_padded(s: Seq<u8>, t: Seq<u8>, q: int)
    requires
        padded(s, t),
        0 <= q <= s.len(),
    ensures
        ident_run_end(t, q) == ident_run_end(s, q),
        q <= ident_run_end(s, q) <= s.len(),
    decreases s.len() - q,
{
    if q < s.len() {
        lemma_ident_run_padded(s, t, q + 1);
    }
}

proof fn lemma_digit_run_padded(s: Seq<u8>, t: Seq<u8>, q: int)
    requires
        padded(s, t),
        0 <= q <= s.len(),
    ensures
        digit_run_end(t, q) == digit_run_end(s, q),
        q <= digit_run_end(s, q) <= s.len(),
    decreases s.len() - q,
{
    if q < s.len() {
        lemma_digit_run_padded(s, t, q + 1);
    }
}

proof fn lemma_digits_value_padded(s: Seq<u8>, t: Seq<u8>, a: int, e: int)
    requires
        padded(s, t),
        0 <= a <= e <= s.len(),
    ensures
        digits_value(t, a, e) == digits_value(s, a, e),
    decreases e - a,
{
    if a < e {
        lemma_digits_value_padded(s, t, a, e - 1);
    }
}

proof fn lemma_name_padded(s: Seq<u8>, t: Seq<u8>, a: int, e: int)
    requires
        padded(s, t),
        0 <= a <= e <= s.len(),
    ensures
        name_at(t, a, e) == name_at(s, a, e),
{
    assert(name_at(t, a, e) =~= name_at(s, a, e));
}

/// Keywords hold no whitespace, so they are read alike on both.
proof fn lemma_word_padded(s: Seq<u8>, t: Seq<u8>, q: int, w: Seq<char>)
    requires
        padded(s, t),
        0 <= q,
        w.len() > 0,
        forall|k: int| 0 <= k < w.len() ==> is_letter_char(#[trigger] w[k]),
    ensures
        q + w.len() <= s.len() ==> has_word(t, q, w) == has_word(s, q, w),
        q + w.len() > s.len() ==> !has_word(t, q, w) && !has_word(s, q, w),
{
    if q + w.len() <= s.len() {
        lemma_name_padded(s, t, q, q + w.len());
    } else if has_word(t, q, w) {
        let k = if q >= s.len() { 0 } else { s.len() - q };
        assert(name_at(t, q, q + w.len())[k] == w[k]);
        assert(is_space(t[q + k]));
        assert(is_letter_char(w[k]));
    }
}

pub open spec fn is_letter_char(c: char) -> bool {
    'a' <= c <= 'z'
}

proof fn lemma_numeric_padded(s: Seq<u8>, t: Seq<u8>, q: int)
    requires
        padded(s, t),
        0 <= q <= s.len(),
    ensures
        numeric_literal(t, q) == numeric_literal(s, q),
        numeric_literal(s, q) matches Some((e, _)) ==> q < e <= s.len(),
{
    if q < s.len() {
        lemma_digit_run_padded(s, t, q + 1);
        let e = digit_run_end(s, q + 1);
        lemma_digits_value_padded(s, t, q, e);
        assert(has_byte(t, e, LETTER_I) == has_byte(s, e, LETTER_I));
    }
}

proof fn lemma_identifier_padded(s: Seq<u8>, t: Seq<u8>, q: int)
    requires
        padded(s, t),
        0 <= q <= s.len(),
    ensures
        identifier_end(t, q) == identifier_end(s, q),
        identifier_end(s, q) matches Some(e) ==> q < e <= s.len() && name_at(t, q, e) == name_at(
            s,
            q,
            e,
        ),
{
    if q < s.len() {
        lemma_ident_run_padded(s, t, q + 1);
        lemma_name_padded(s, t, q, ident_run_end(s, q + 1));
    }
}

/// Nothing starts at whitespace or at the end of the input.
proof fn lemma_atom_blank(u: Seq<u8>, q: int)
    requires
        0 <= q,
        q < u.len() ==> is_space(u[q]),
    ensures
        atom_at(u, q) is None,
{
    if has_word(u, q, seq!['i', 'f']) {
        assert(name_at(u, q, q + 2)[0] == seq!['i', 'f'][0]);
    }
}

/// Padding after the end of `s` brings no further operator.
proof fn lemma_rest_blank(t: Seq<u8>, q: int, acc: Ast)
    requires
        0 <= q,
        q < t.len() ==> is_space(t[q]),
    ensures
        equality_rest(t, q, acc) == Some((q, acc)),
        additive_rest(t, q, acc) == Some((q, acc)),
        term_rest(t, q, acc) == Some((q, acc)),
        conj_fold(t, q, acc) == (q, acc),
{
}

/// Nothing parses at the end of `s`.
proof fn lemma_nothing_at_end(s: Seq<u8>)
    ensures
        equality_at(s, s.len() as int) is None,
{
    let n = s.len() as int;
    lemma_atom_blank(s, n);
    assert(basic_factor_at(s, n) is None);
    assert(factor_at(s, n) is None);
    assert(term_at(s, n) is None);
    assert(additive_at(s, n) is None);
}

/// Nothing parses in the padding.
proof fn lemma_nothing_in_padding(s: Seq<u8>, t: Seq<u8>, q: int)
    requires
        padded(s, t),
        s.len() <= q <= t.len(),
    ensures
        equality_at(t, q) is None,
{
    lemma_skip_padded(s, t, q);
    lemma_atom_blank(t, t.len() as int);
    assert(basic_factor_at(t, q) is None);
    assert(factor_at(t, q) is None);
    assert(term_at(t, q) is None);
    assert(additive_at(t, q) is None);
}

proof fn lemma_expr_padded(s: Seq<u8>, t: Seq<u8>, p: int)
    requires
        padded(s, t),
        0 <= p <= s.len(),
    ensures
        agree(s, t, p, expr_at(s, p), expr_at(t, p)),
    decreases s.len() - p, 10nat,
{
    lemma_skip_padded(s, t, p);
    let q = skip_ws(s, p);
    if q < s.len() {
        assert(skip_ws(t, p) == q);
        lemma_equality_padded(s, t, q);
        if let Some((r, e)) = equality_at(s, q) {
            let r2 = equality_at(t, q).unwrap().0;
            lemma_skip_padded(s, t, r);
            lemma_skip_padded(s, t, r2);
            assert(expr_at(s, p) == Some((skip_ws(s, r), e)));
            assert(expr_at(t, p) == Some((skip_ws(t, r2), e)));
        } else {
            assert(expr_at(s, p) is None);
            assert(expr_at(t, p) is None);
        }
    } else {
        lemma_nothing_at_end(s);
        lemma_nothing_in_padding(s, t, skip_ws(t, p));
        assert(expr_at(s, p) is None);
        assert(expr_at(t, p) is None);
    }
}

proof fn lemma_equality_padded(s: Seq<u8>, t: Seq<u8>, p: int)
    requires
        padded(s, t),
        0 <= p <= s.len(),
    ensures
        agree(s, t, p, equality_at(s, p), equality_at(t, p)),
    decreases s.len() - p, 9nat,
{
    lemma_additive_padded(s, t, p);
    if let Some((q, e)) = additive_at(s, p) {
        if within(s, p, q) {
            if q < s.len() {
                lemma_equality_rest_padded(s, t, q, e);
            } else {
                let q2 = additive_at(t, p).unwrap().0;
                lemma_rest_blank(s, q, e);
                lemma_rest_blank(t, q2, e);
            }
        }
    }
}

proof fn lemma_equality_rest_padded(s: Seq<u8>, t: Seq<u8>, p: int, acc: Ast)
    requires
        padded(s, t),
        0 <= p < s.len(),
    ensures
        agree(s, t, p, equality_rest(s, p, acc), equality_rest(t, p, acc)),
    decreases s.len() - p, 8nat,
{
    assert(equality_op(t, p) == equality_op(s, p));
    if let Some(op) = equality_op(s, p) {
        lemma_additive_padded(s, t, p + 2);
        if let Some((q, v)) = additive_at(s, p + 2) {
            if within(s, p + 2, q) {
                if q < s.len() {
                    lemma_equality_rest_padded(s, t, q, bin(op, acc, v));
                } else {
                    let q2 = additive_at(t, p + 2).unwrap().0;
                    lemma_rest_blank(s, q, bin(op, acc, v));
                    lemma_rest_blank(t, q2, bin(op, acc, v));
                }
            }
        }
    }
}

proof fn lemma_additive_padded(s: Seq<u8>, t: Seq<u8>, p: int)
    requires
        padded(s, t),
        0 <= p <= s.len(),
    ensures
        agree(s, t, p, additive_at(s, p), additive_at(t, p)),
    decreases s.len() - p, 7nat,
{
    lemma_term_padded(s, t, p);
    if let Some((q, e)) = term_at(s, p) {
        if within(s, p, q) {
            if q < s.len() {
                lemma_additive_rest_padded(s, t, q, e);
            } else {
                let q2 = term_at(t, p).unwrap().0;
                lemma_rest_blank(s, q, e);
                lemma_rest_blank(t, q2, e);
            }
        }
    }
}

proof fn lemma_additive_rest_padded(s: Seq<u8>, t: Seq<u8>, p: int, acc: Ast)
    requires
        padded(s, t),
        0 <= p < s.len(),
    ensures
        agree(s, t, p, additive_rest(s, p, acc), additive_rest(t, p, acc)),
    decreases s.len() - p, 6nat,
{
    assert(additive_op(t, p) == additive_op(s, p));
    if let Some(op) = additive_op(s, p) {
        lemma_term_padded(s, t, p + 1);
        if let Some((q, v)) = term_at(s, p + 1) {
            if within(s, p + 1, q) {
                if q < s.len() {
                    lemma_additive_rest_padded(s, t, q, bin(op, acc, v));
                } else {
                    let q2 = term_at(t, p + 1).unwrap().0;
                    lemma_rest_blank(s, q, bin(op, acc, v));
                    lemma_rest_blank(t, q2, bin(op, acc, v));
                }
            }
        }
    }
}

proof fn lemma_term_padded(s: Seq<u8>, t: Seq<u8>, p: int)
    requires
        padded(s, t),
        0 <= p <= s.len(),
    ensures
        agree(s, t, p, term_at(s, p), term_at(t, p)),
    decreases s.len() - p, 5nat,
{
    lemma_factor_padded(s, t, p);
    if let Some((q, e)) = factor_at(s, p) {
        if within(s, p, q) {
            if q < s.len() {
                lemma_term_rest_padded(s, t, q, e);
            } else {
                let q2 = factor_at(t, p).unwrap().0;
                lemma_rest_blank(s, q, e);
                lemma_rest_blank(t, q2, e);
            }
        }
    }
}

proof fn lemma_term_rest_padded(s: Seq<u8>, t: Seq<u8>, p: int, acc: Ast)
    requires
        padded(s, t),
        0 <= p < s.len(),
    ensures
        agree(s, t, p, term_rest(s, p, acc), term_rest(t, p, acc)),
    decreases s.len() - p, 4nat,
{
    assert(multiplicative_op(t, p) == multiplicative_op(s, p));
    if let Some(op) = multiplicative_op(s, p) {
        lemma_factor_padded(s, t, p + 1);
        if let Some((q, v)) = factor_at(s, p + 1) {
            if within(s, p + 1, q) {
                if q < s.len() {
                    lemma_term_rest_padded(s, t, q, bin(op, acc, v));
                } else {
                    let q2 = factor_at(t, p + 1).unwrap().0;
                    lemma_rest_blank(s, q, bin(op, acc, v));
                    lemma_rest_blank(t, q2, bin(op, acc, v));
                }
            }
        }
    }
}

proof fn lemma_conj_fold_padded(s: Seq<u8>, t: Seq<u8>, q: int, e: Ast)
    requires
        padded(s, t),
        0 <= q <= s.len(),
    ensures
        conj_fold(t, q, e) == conj_fold(s, q, e),
        q <= conj_fold(s, q, e).0 <= s.len(),
    decreases s.len() - q,
{
    if has_byte(s, q, CARET) {
        lemma_conj_fold_padded(s, t, q + 1, un(UnOp::Conjugate, e));
    }
}

proof fn lemma_factor_padded(s: Seq<u8>, t: Seq<u8>, p: int)
    requires
        padded(s, t),
        0 <= p <= s.len(),
    ensures
        agree(s, t, p, factor_at(s, p), factor_at(t, p)),
    decreases s.len() - p, 3nat,
{
    lemma_basic_factor_padded(s, t, p);
    if let Some((q, e)) = basic_factor_at(s, p) {
        if q < s.len() {
            lemma_conj_fold_padded(s, t, q, e);
            let r = conj_fold(s, q, e).0;
            lemma_skip_padded(s, t, r);
        } else {
            let q2 = basic_factor_at(t, p).unwrap().0;
            lemma_rest_blank(s, q, e);
            lemma_rest_blank(t, q2, e);
            lemma_skip_padded(s, t, q);
            lemma_skip_padded(s, t, q2);
        }
    }
}

proof fn lemma_basic_factor_padded(s: Seq<u8>, t: Seq<u8>, p: int)
    requires
        padded(s, t),
        0 <= p <= s.len(),
    ensures
        agree(s, t, p, basic_factor_at(s, p), basic_factor_at(t, p)),
    decreases s.len() - p, 2nat,
{
    lemma_skip_padded(s, t, p);
    let q = skip_ws(s, p);
    if q < s.len() {
        lemma_atom_padded(s, t, q);
        if let Some((r, e)) = atom_at(s, q) {
            if r < s.len() {
                lemma_skip_padded(s, t, r);
            } else {
                let r2 = atom_at(t, q).unwrap().0;
                lemma_skip_padded(s, t, r);
                lemma_skip_padded(s, t, r2);
            }
        }
    } else {
        lemma_atom_blank(s, q);
        lemma_atom_blank(t, skip_ws(t, p));
    }
}

proof fn lemma_atom_padded(s: Seq<u8>, t: Seq<u8>, p: int)
    requires
        padded(s, t),
        0 <= p <= s.len(),
    ensures
        agree(s, t, p, atom_at(s, p), atom_at(t, p)),
    decreases s.len() - p, 1nat,
{
    lemma_identifier_padded(s, t, p);
    lemma_numeric_padded(s, t, p);
    lemma_conditional_padded(s, t, p);
    lemma_modulus_padded(s, t, p);
    lemma_negation_padded(s, t, p);
    lemma_parens_padded(s, t, p);
}

#[verifier::rlimit(100)]
proof fn lemma_conditional_padded(s: Seq<u8>, t: Seq<u8>, p: int)
    requires
        padded(s, t),
        0 <= p <= s.len(),
    ensures
        agree(s, t, p, conditional_at(s, p), conditional_at(t, p)),
    decreases s.len() - p, 0nat,
{
    let kw_if = seq!['i', 'f'];
    let kw_then = seq!['t', 'h', 'e', 'n'];
    let kw_else = seq!['e', 'l', 's', 'e'];
    lemma_word_padded(s, t, p, kw_if);
    if has_word(s, p, kw_if) {
        lemma_expr_padded(s, t, p + 2);
        if let Some((a, c)) = expr_at(s, p + 2) {
            let a2 = expr_at(t, p + 2).unwrap().0;
            lemma_word_padded(s, t, a, kw_then);
            lemma_word_padded(s, t, a2, kw_then);
            if within(s, p + 2, a) && has_word(s, a, kw_then) {
                lemma_expr_padded(s, t, a + 4);
                if let Some((b, th)) = expr_at(s, a + 4) {
                    let b2 = expr_at(t, a + 4).unwrap().0;
                    lemma_word_padded(s, t, b, kw_else);
                    lemma_word_padded(s, t, b2, kw_else);
                    if within(s, a + 4, b) && has_word(s, b, kw_else) {
                        lemma_expr_padded(s, t, b + 4);
                        if let Some((d, f)) = expr_at(s, b + 4) {
                            let d2 = expr_at(t, b + 4).unwrap().0;
                            let a_if = Ast::IfElse(Box::new(c), Box::new(th), Box::new(f));
                            assert(conditional_at(s, p) == Some((d, a_if)));
                            assert(conditional_at(t, p) == Some((d2, a_if)));
                        }
                    }
                }
            }
        }
    }
}

proof fn lemma_modulus_padded(s: Seq<u8>, t: Seq<u8>, p: int)
    requires
        padded(s, t),
        0 <= p <= s.len(),
    ensures
        agree(s, t, p, modulus_at(s, p), modulus_at(t, p)),
    decreases s.len() - p, 0nat,
{
    if has_byte(s, p, BAR) {
        lemma_expr_padded(s, t, p + 1);
    }
}

proof fn lemma_negation_padded(s: Seq<u8>, t: Seq<u8>, p: int)
    requires
        padded(s, t),
        0 <= p <= s.len(),
    ensures
        agree(s, t, p, negation_at(s, p), negation_at(t, p)),
    decreases s.len() - p, 0nat,
{
    if has_byte(s, p, MINUS) {
        lemma_factor_padded(s, t, p + 1);
    }
}

proof fn lemma_parens_padded(s: Seq<u8>, t: Seq<u8>, p: int)
    requires
        padded(s, t),
        0 <= p <= s.len(),
    ensures
        agree(s, t, p, parens_at(s, p), parens_at(t, p)),
    decreases s.len() - p, 0nat,
{
    if has_byte(s, p, OPEN_PAREN) {
        lemma_expr_padded(s, t, p + 1);
    }
}

/// Whitespace after an expression does not change its tree: where all of
/// `s` parses as one expression, `s` followed by any whitespace parses as
/// the same tree, and all of it is consumed.
pub proof fn lemma_trailing_whitespace(s: Seq<u8>, w: Seq<u8>)
    requires
        forall|k: int| 0 <= k < w.len() ==> is_space(#[trigger] w[k]),
        expr_at(s, 0) matches Some((q, _)) && q == s.len(),
    ensures
        expr_at(s + w, 0) == Some(((s + w).len() as int, expr_at(s, 0).unwrap().1)),
{
    let t = s + w;
    assert(padded(s, t)) by {
        assert forall|k: int| s.len() <= k < t.len() implies is_space(#[trigger] t[k]) by {
            assert(t[k] == w[k - s.len()]);
        }
    }
    lemma_expr_padded(s, t, 0);
    lemma_skip_padded(s, t, 0);
    let q = skip_ws(s, 0);
    if let Some((r, e)) = equality_at(s, q) {
        lemma_equality_padded(s, t, q);
        let r2 = equality_at(t, q).unwrap().0;
        lemma_skip_padded(s, t, r);
        lemma_skip_padded(s, t, r2);
    }
}

} // verus!
