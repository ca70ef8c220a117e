//! Properties of the grammar: literals, reserved words, leading whitespace.
use vstd::prelude::*;

use crate::ast::{Ast, ComplexInt, UnOp};
use crate::grammar::{
    additive_at, additive_op, additive_rest, atom_at, basic_factor_at, bin, conditional_at,
    conj_fold, equality_at, equality_op, equality_rest, expr_at, factor_at, has_word,
    modulus_at, multiplicative_op, negation_at, parens_at, term_at, term_rest, un, within, BAR, CARET, MINUS, OPEN_PAREN,
};
use crate::lexer::{
    digit_run_end, digits_value, has_byte, identifier_end, ident_run_end, is_digit, is_digit_or_sep,
    is_ident_start, is_reserved, is_space, name_at, skip_ws, LETTER_I,
};

verus! {

/// A non-empty run of plain decimal digits, with no grouping underscores.
pub open spec fn plain_digits(n: Seq<u8>) -> bool {
    n.len() > 0 && forall|k: int| 0 <= k < n.len() ==> is_digit(#[trigger] n[k])
}

proof fn lemma_skip_ws_bounds(s: Seq<u8>, p: int)
    requires
        0 <= p <= s.len(),
    ensures
        p <= skip_ws(s, p) <= s.len(),
    decreases s.len() - p,
{
    if p < s.len() && is_space(s[p]) {
        lemma_skip_ws_bounds(s, p + 1);
    }
}

proof fn lemma_skip_ws_idempotent(s: Seq<u8>, p: int)
    requires
        0 <= p <= s.len(),
    ensures
        skip_ws(s, skip_ws(s, p)) == skip_ws(s, p),
    decreases s.len() - p,
{
    if p < s.len() && is_space(s[p]) {
        lemma_skip_ws_idempotent(s, p + 1);
    }
}

proof fn lemma_digit_run_reaches(s: Seq<u8>, p: int, e: int)
    requires
        0 <= p <= e <= s.len(),
        forall|k: int| p <= k < e ==> is_digit_or_sep(#[trigger] s[k]),
        e == s.len() || !is_digit_or_sep(s[e]),
    ensures
        digit_run_end(s, p) == e,
    decreases e - p,
{
    if p < e {
        lemma_digit_run_reaches(s, p + 1, e);
    }
}

proof fn lemma_digits_value_prefix(s: Seq<u8>, t: Seq<u8>, a: int, e: int)
    requires
        0 <= a <= e <= s.len(),
        e <= t.len(),
        forall|k: int| a <= k < e ==> s[k] == t[k],
    ensures
        digits_value(s, a, e) == digits_value(t, a, e),
    decreases e - a,
{
    if a < e {
        lemma_digits_value_prefix(s, t, a, e - 1);
    }
}

/// Once an operand ends at the end of the input, every level above it
/// passes it through unchanged.
proof fn lemma_operand_at_end(s: Seq<u8>, e: Ast)
    ensures
        term_rest(s, s.len() as int, e) == Some((s.len() as int, e)),
        additive_rest(s, s.len() as int, e) == Some((s.len() as int, e)),
        equality_rest(s, s.len() as int, e) == Some((s.len() as int, e)),
        skip_ws(s, s.len() as int) == s.len(),
{
}

/// No keyword `if` starts at a digit.
proof fn lemma_digit_not_if(s: Seq<u8>, p: int)
    requires
        0 <= p < s.len(),
        is_digit(s[p]),
    ensures
        conditional_at(s, p) is None,
{
    if has_word(s, p, seq!['i', 'f']) {
        assert(name_at(s, p, p + 2)[0] == seq!['i', 'f'][0]);
        assert(s[p] as char == 'i');
    }
}

/// A run of plain digits parses as the integer it spells, `(n, 0)`.
pub proof fn lemma_integer_literal(n: Seq<u8>)
    requires
        plain_digits(n),
        digits_value(n, 0, n.len() as int) <= i64::MAX,
    ensures
        expr_at(n, 0) == Some(
            (n.len() as int, Ast::Value(ComplexInt(digits_value(n, 0, n.len() as int) as i64, 0))),
        ),
{
    let len = n.len() as int;
    let v = Ast::Value(ComplexInt(digits_value(n, 0, len) as i64, 0));
    assert(is_digit(n[0]));
    lemma_digit_run_reaches(n, 1, len);
    lemma_digit_not_if(n, 0);
    assert(skip_ws(n, 0) == 0);
    assert(atom_at(n, 0) == Some((len, v)));
    lemma_operand_at_end(n, v);
    assert(basic_factor_at(n, 0) == Some((len, v)));
    assert(factor_at(n, 0) == Some((len, v)));
    assert(term_at(n, 0) == Some((len, v)));
    assert(additive_at(n, 0) == Some((len, v)));
    assert(equality_at(n, 0) == Some((len, v)));
}

/// A run of plain digits followed by `i` parses as the imaginary number
/// `(0, n)`.
pub proof fn lemma_imaginary_literal(n: Seq<u8>)
    requires
        plain_digits(n),
        digits_value(n, 0, n.len() as int) <= i64::MAX,
    ensures
        expr_at(n.push(LETTER_I), 0) == Some(
            (
                n.len() + 1int,
                Ast::Value(ComplexInt(0, digits_value(n, 0, n.len() as int) as i64)),
            ),
        ),
{
    let s = n.push(LETTER_I);
    let len = n.len() as int;
    let v = Ast::Value(ComplexInt(0, digits_value(n, 0, len) as i64));
    assert(is_digit(s[0]));
    assert forall|k: int| 1 <= k < len implies is_digit_or_sep(#[trigger] s[k]) by {
        assert(is_digit(n[k]));
    }
    lemma_digit_run_reaches(s, 1, len);
    lemma_digits_value_prefix(s, n, 0, len);
    lemma_digit_not_if(s, 0);
    assert(skip_ws(s, 0) == 0);
    assert(atom_at(s, 0) == Some((len + 1, v)));
    lemma_operand_at_end(s, v);
    assert(basic_factor_at(s, 0) == Some((len + 1, v)));
    assert(factor_at(s, 0) == Some((len + 1, v)));
    assert(term_at(s, 0) == Some((len + 1, v)));
    assert(additive_at(s, 0) == Some((len + 1, v)));
    assert(equality_at(s, 0) == Some((len + 1, v)));
}

/// A bare `i` parses as the imaginary unit `(0, 1)`.
pub proof fn lemma_imaginary_unit()
    ensures
        expr_at(seq![LETTER_I], 0) == Some((1int, Ast::Value(ComplexInt(0, 1)))),
{
    let s = seq![LETTER_I];
    let v = Ast::Value(ComplexInt(0, 1));
    assert(ident_run_end(s, 1) == 1);
    assert(name_at(s, 0, 1) =~= seq!['i']);
    assert(identifier_end(s, 0) is None);
    assert(!has_word(s, 0, seq!['i', 'f']));
    assert(atom_at(s, 0) == Some((1int, v)));
    lemma_operand_at_end(s, v);
    assert(basic_factor_at(s, 0) == Some((1int, v)));
    assert(factor_at(s, 0) == Some((1int, v)));
    assert(term_at(s, 0) == Some((1int, v)));
    assert(additive_at(s, 0) == Some((1int, v)));
    assert(equality_at(s, 0) == Some((1int, v)));
}

/// Where the longest identifier-shaped word at `p` is reserved, no
/// identifier is read there, and the atom at `p` is no identifier.
pub proof fn lemma_reserved_word_not_identifier(s: Seq<u8>, p: int)
    requires
        0 <= p < s.len(),
        is_ident_start(s[p]),
        is_reserved(name_at(s, p, ident_run_end(s, p + 1))),
    ensures
        identifier_end(s, p) is None,
        atom_at(s, p) matches Some((_, a)) ==> !(a is Id),
{
    assert(modulus_at(s, p) is None);
    assert(negation_at(s, p) is None);
    assert(parens_at(s, p) is None);
}

/// Whitespace before an expression does not change what is parsed.
pub proof fn lemma_leading_whitespace(s: Seq<u8>, p: int)
    requires
        0 <= p <= s.len(),
    ensures
        expr_at(s, p) == expr_at(s, skip_ws(s, p)),
{
    lemma_skip_ws_bounds(s, p);
    lemma_skip_ws_idempotent(s, p);
    let q = skip_ws(s, p);
    assert(within(s, p, q) && within(s, q, skip_ws(s, q)));
}

/// No identifier anywhere in the tree is a reserved word.
pub open spec fn ids_unreserved(a: Ast) -> bool
    decreases a,
{
    match a {
        Ast::Value(_) => true,
        Ast::Id(w) => !is_reserved(w),
        Ast::BinOp(_, l, r) => ids_unreserved(*l) && ids_unreserved(*r),
        Ast::UnOp(_, e) => ids_unreserved(*e),
        Ast::IfElse(c, t, e) => ids_unreserved(*c) && ids_unreserved(*t) && ids_unreserved(*e),
    }
}

pub open spec fn yields_unreserved(r: Option<(int, Ast)>) -> bool {
    r matches Some((_, a)) ==> ids_unreserved(a)
}

/// Every tree that the parser yields, from any input and position, is free
/// of reserved words in identifier position.
pub proof fn lemma_no_reserved_identifiers(s: Seq<u8>, p: int)
    ensures
        yields_unreserved(expr_at(s, p)),
    decreases s.len() - p, 10nat,
{
    let q = skip_ws(s, p);
    if within(s, p, q) {
        lemma_equality_unreserved(s, q);
    }
}

proof fn lemma_equality_unreserved(s: Seq<u8>, p: int)
    ensures
        yields_unreserved(equality_at(s, p)),
    decreases s.len() - p, 9nat,
{
    lemma_additive_unreserved(s, p);
    if let Some((q, e)) = additive_at(s, p) {
        if within(s, p, q) {
            lemma_equality_rest_unreserved(s, q, e);
        }
    }
}

proof fn lemma_equality_rest_unreserved(s: Seq<u8>, p: int, acc: Ast)
    requires
        ids_unreserved(acc),
    ensures
        yields_unreserved(equality_rest(s, p, acc)),
    decreases s.len() - p, 8nat,
{
    if let Some(op) = equality_op(s, p) {
        lemma_additive_unreserved(s, p + 2);
        if let Some((q, v)) = additive_at(s, p + 2) {
            if within(s, p + 2, q) {
                lemma_equality_rest_unreserved(s, q, bin(op, acc, v));
            }
        }
    }
}

proof fn lemma_additive_unreserved(s: Seq<u8>, p: int)
    ensures
        yields_unreserved(additive_at(s, p)),
    decreases s.len() - p, 7nat,
{
    lemma_term_unreserved(s, p);
    if let Some((q, e)) = term_at(s, p) {
        if within(s, p, q) {
            lemma_additive_rest_unreserved(s, q, e);
        }
    }
}

proof fn lemma_additive_rest_unreserved(s: Seq<u8>, p: int, acc: Ast)
    requires
        ids_unreserved(acc),
    ensures
        yields_unreserved(additive_rest(s, p, acc)),
    decreases s.len() - p, 6nat,
{
    if let Some(op) = additive_op(s, p) {
        lemma_term_unreserved(s, p + 1);
        if let Some((q, v)) = term_at(s, p + 1) {
            if within(s, p + 1, q) {
                lemma_additive_rest_unreserved(s, q, bin(op, acc, v));
            }
        }
    }
}

proof fn lemma_term_unreserved(s: Seq<u8>, p: int)
    ensures
        yields_unreserved(term_at(s, p)),
    decreases s.len() - p, 5nat,
{
    lemma_factor_unreserved(s, p);
    if let Some((q, e)) = factor_at(s, p) {
        if within(s, p, q) {
            lemma_term_rest_unreserved(s, q, e);
        }
    }
}

proof fn lemma_term_rest_unreserved(s: Seq<u8>, p: int, acc: Ast)
    requires
        ids_unreserved(acc),
    ensures
        yields_unreserved(term_rest(s, p, acc)),
    decreases s.len() - p, 4nat,
{
    if let Some(op) = multiplicative_op(s, p) {
        lemma_factor_unreserved(s, p + 1);
        if let Some((q, v)) = factor_at(s, p + 1) {
            if within(s, p + 1, q) {
                lemma_term_rest_unreserved(s, q, bin(op, acc, v));
            }
        }
    }
}

proof fn lemma_conj_fold_unreserved(s: Seq<u8>, p: int, e: Ast)
    requires
        ids_unreserved(e),
    ensures
        ids_unreserved(conj_fold(s, p, e).1),
    decreases s.len() - p,
{
    if has_byte(s, p, CARET) {
        lemma_conj_fold_unreserved(s, p + 1, un(UnOp::Conjugate, e));
    }
}

proof fn lemma_factor_unreserved(s: Seq<u8>, p: int)
    ensures
        yields_unreserved(factor_at(s, p)),
    decreases s.len() - p, 3nat,
{
    lemma_basic_factor_unreserved(s, p);
    if let Some((q, e)) = basic_factor_at(s, p) {
        lemma_conj_fold_unreserved(s, q, e);
    }
}

proof fn lemma_basic_factor_unreserved(s: Seq<u8>, p: int)
    ensures
        yields_unreserved(basic_factor_at(s, p)),
    decreases s.len() - p, 2nat,
{
    let q = skip_ws(s, p);
    if within(s, p, q) {
        lemma_atom_unreserved(s, q);
    }
}

proof fn lemma_atom_unreserved(s: Seq<u8>, p: int)
    ensures
        yields_unreserved(atom_at(s, p)),
    decreases s.len() - p, 1nat,
{
    lemma_conditional_unreserved(s, p);
    lemma_modulus_unreserved(s, p);
    lemma_negation_unreserved(s, p);
    lemma_parens_unreserved(s, p);
}

proof fn lemma_conditional_unreserved(s: Seq<u8>, p: int)
    ensures
        yields_unreserved(conditional_at(s, p)),
    decreases s.len() - p, 0nat,
{
    if has_word(s, p, seq!['i', 'f']) {
        lemma_no_reserved_identifiers(s, p + 2);
        if let Some((a, c)) = expr_at(s, p + 2) {
            if within(s, p + 2, a) && has_word(s, a, seq!['t', 'h', 'e', 'n']) {
                lemma_no_reserved_identifiers(s, a + 4);
                if let Some((b, t)) = expr_at(s, a + 4) {
                    if within(s, a + 4, b) && has_word(s, b, seq!['e', 'l', 's', 'e']) {
                        lemma_no_reserved_identifiers(s, b + 4);
                        if let Some((d, f)) = expr_at(s, b + 4) {
                            let a = Ast::IfElse(Box::new(c), Box::new(t), Box::new(f));
                            assert(ids_unreserved(a));
                            assert(conditional_at(s, p) == Some((d, a)));
                        }
                    }
                }
            }
        }
    }
}

proof fn lemma_modulus_unreserved(s: Seq<u8>, p: int)
    ensures
        yields_unreserved(modulus_at(s, p)),
    decreases s.len() - p, 0nat,
{
    if has_byte(s, p, BAR) {
        lemma_no_reserved_identifiers(s, p + 1);
    }
}

proof fn lemma_negation_unreserved(s: Seq<u8>, p: int)
    ensures
        yields_unreserved(negation_at(s, p)),
    decreases s.len() - p, 0nat,
{
    if has_byte(s, p, MINUS) {
        lemma_factor_unreserved(s, p + 1);
    }
}

proof fn lemma_parens_unreserved(s: Seq<u8>, p: int)
    ensures
        yields_unreserved(parens_at(s, p)),
    decreases s.len() - p, 0nat,
{
    if has_byte(s, p, OPEN_PAREN) {
        lemma_no_reserved_identifiers(s, p + 1);
    }
}

} // verus!
