//! The grammar as spec functions, and the parser proved to compute them.
use vstd::prelude::*;
use vstd::string::StringSliceAdditionalSpecFns;

use crate::ast::{Ast, BinOp, Expr, UnOp};
use crate::lexer::{
    has_byte, identifier_end, name_at, name_string, numeric_literal, scan_identifier,
    scan_numeric_literal, skip_spaces, skip_ws, span_is,
};

verus! {

pub const PLUS: u8 = 0x2b;
pub const MINUS: u8 = 0x2d;
pub const STAR: u8 = 0x2a;
pub const SLASH: u8 = 0x2f;
pub const PERCENT: u8 = 0x25;
pub const EQUALS_SIGN: u8 = 0x3d;
pub const BANG: u8 = 0x21;
pub const CARET: u8 = 0x5e;
pub const BAR: u8 = 0x7c;
pub const OPEN_PAREN: u8 = 0x28;
pub const CLOSE_PAREN: u8 = 0x29;

pub open spec fn within(s: Seq<u8>, lo: int, x: int) -> bool {
    lo <= x <= s.len()
}

/// The bytes at `p` spell the keyword `w`.
pub open spec fn has_word(s: Seq<u8>, p: int, w: Seq<char>) -> bool {
    0 <= p && p + w.len() <= s.len() && name_at(s, p, p + w.len()) == w
}

pub open spec fn bin(op: BinOp, l: Ast, r: Ast) -> Ast {
    Ast::BinOp(op, Box::new(l), Box::new(r))
}

pub open spec fn un(op: UnOp, e: Ast) -> Ast {
    Ast::UnOp(op, Box::new(e))
}

/// `==` or `!=` at `p` (two bytes).
pub open spec fn equality_op(s: Seq<u8>, p: int) -> Option<BinOp> {
    if has_byte(s, p, EQUALS_SIGN) && has_byte(s, p + 1, EQUALS_SIGN) {
        Some(BinOp::Equals)
    } else if has_byte(s, p, BANG) && has_byte(s, p + 1, EQUALS_SIGN) {
        Some(BinOp::NotEquals)
    } else {
        None
    }
}

/// `+` or `-` at `p`.
pub open spec fn additive_op(s: Seq<u8>, p: int) -> Option<BinOp> {
    if has_byte(s, p, PLUS) {
        Some(BinOp::Plus)
    } else if has_byte(s, p, MINUS) {
        Some(BinOp::Minus)
    } else {
        None
    }
}

/// `*`, `/` or `%` at `p`.
pub open spec fn multiplicative_op(s: Seq<u8>, p: int) -> Option<BinOp> {
    if has_byte(s, p, STAR) {
        Some(BinOp::Times)
    } else if has_byte(s, p, SLASH) {
        Some(BinOp::Divide)
    } else if has_byte(s, p, PERCENT) {
        Some(BinOp::Remainder)
    } else {
        None
    }
}

/// Wraps `e` in one conjugate node for each `^` directly at `p`.
pub open spec fn conj_fold(s: Seq<u8>, p: int, e: Ast) -> (int, Ast)
    decreases s.len() - p,
{
    if has_byte(s, p, CARET) {
        conj_fold(s, p + 1, un(UnOp::Conjugate, e))
    } else {
        (p, e)
    }
}

/// A full expression at `p`, with the whitespace around it: the position
/// after it and its tree.
pub open spec fn expr_at(s: Seq<u8>, p: int) -> Option<(int, Ast)>
    decreases s.len() - p, 10nat,
{
    let q = skip_ws(s, p);
    if within(s, p, q) {
        match equality_at(s, q) {
            Some((r, e)) => Some((skip_ws(s, r), e)),
            None => None,
        }
    } else {
        None
    }
}

/// Additive operands joined by `==` and `!=`, folded to the left.
pub open spec fn equality_at(s: Seq<u8>, p: int) -> Option<(int, Ast)>
    decreases s.len() - p, 9nat,
{
    match additive_at(s, p) {
        Some((q, e)) => if within(s, p, q) {
            equality_rest(s, q, e)
        } else {
            None
        },
        None => None,
    }
}

pub open spec fn equality_rest(s: Seq<u8>, p: int, acc: Ast) -> Option<(int, Ast)>
    decreases s.len() - p, 8nat,
{
    match equality_op(s, p) {
        Some(op) => match additive_at(s, p + 2) {
            Some((q, v)) => if within(s, p + 2, q) {
                equality_rest(s, q, bin(op, acc, v))
            } else {
                None
            },
            None => Some((p, acc)),
        },
        None => Some((p, acc)),
    }
}

/// Multiplicative operands joined by `+` and `-`, folded to the left.
pub open spec fn additive_at(s: Seq<u8>, p: int) -> Option<(int, Ast)>
    decreases s.len() - p, 7nat,
{
    match term_at(s, p) {
        Some((q, e)) => if within(s, p, q) {
            additive_rest(s, q, e)
        } else {
            None
        },
        None => None,
    }
}

pub open spec fn additive_rest(s: Seq<u8>, p: int, acc: Ast) -> Option<(int, Ast)>
    decreases s.len() - p, 6nat,
{
    match additive_op(s, p) {
        Some(op) => match term_at(s, p + 1) {
            Some((q, v)) => if within(s, p + 1, q) {
                additive_rest(s, q, bin(op, acc, v))
            } else {
                None
            },
            None => Some((p, acc)),
        },
        None => Some((p, acc)),
    }
}

/// Factors joined by `*`, `/` and `%`, folded to the left.
pub open spec fn term_at(s: Seq<u8>, p: int) -> Option<(int, Ast)>
    decreases s.len() - p, 5nat,
{
    match factor_at(s, p) {
        Some((q, e)) => if within(s, p, q) {
            term_rest(s, q, e)
        } else {
            None
        },
        None => None,
    }
}

pub open spec fn term_rest(s: Seq<u8>, p: int, acc: Ast) -> Option<(int, Ast)>
    decreases s.len() - p, 4nat,
{
    match multiplicative_op(s, p) {
        Some(op) => match factor_at(s, p + 1) {
            Some((q, v)) => if within(s, p + 1, q) {
                term_rest(s, q, bin(op, acc, v))
            } else {
                None
            },
            None => Some((p, acc)),
        },
        None => Some((p, acc)),
    }
}

/// A basic factor followed by any number of `^` marks, each of which wraps
/// the tree in a conjugate node, then whitespace.
pub open spec fn factor_at(s: Seq<u8>, p: int) -> Option<(int, Ast)>
    decreases s.len() - p, 3nat,
{
    match basic_factor_at(s, p) {
        Some((q, e)) => {
            let (r, c) = conj_fold(s, q, e);
            Some((skip_ws(s, r), c))
        },
        None => None,
    }
}

/// An atom with the whitespace around it.
pub open spec fn basic_factor_at(s: Seq<u8>, p: int) -> Option<(int, Ast)>
    decreases s.len() - p, 2nat,
{
    let q = skip_ws(s, p);
    if within(s, p, q) {
        match atom_at(s, q) {
            Some((r, e)) => Some((skip_ws(s, r), e)),
            None => None,
        }
    } else {
        None
    }
}

/// The first of these that matches at `p`: identifier, conditional,
/// numeric literal, modulus, negation, parenthesised expression.
pub open spec fn atom_at(s: Seq<u8>, p: int) -> Option<(int, Ast)>
    decreases s.len() - p, 1nat,
{
    match identifier_end(s, p) {
        Some(e) => Some((e, Ast::Id(name_at(s, p, e)))),
        None => match conditional_at(s, p) {
            Some(r) => Some(r),
            None => match numeric_literal(s, p) {
                Some(r) => Some(r),
                None => match modulus_at(s, p) {
                    Some(r) => Some(r),
                    None => match negation_at(s, p) {
                        Some(r) => Some(r),
                        None => parens_at(s, p),
                    },
                },
            },
        },
    }
}

/// `if <expr> then <expr> else <expr>`.
pub open spec fn conditional_at(s: Seq<u8>, p: int) -> Option<(int, Ast)>
    decreases s.len() - p, 0nat,
{
    if has_word(s, p, seq!['i', 'f']) {
        match expr_at(s, p + 2) {
            Some((a, c)) => if within(s, p + 2, a) && has_word(s, a, seq!['t', 'h', 'e', 'n']) {
                match expr_at(s, a + 4) {
                    Some((b, t)) => if within(s, a + 4, b) && has_word(
                        s,
                        b,
                        seq!['e', 'l', 's', 'e'],
                    ) {
                        match expr_at(s, b + 4) {
                            Some((d, f)) => Some(
                                (d, Ast::IfElse(Box::new(c), Box::new(t), Box::new(f))),
                            ),
                            None => None,
                        }
                    } else {
                        None
                    },
                    None => None,
                }
            } else {
                None
            },
            None => None,
        }
    } else {
        None
    }
}

/// `| <expr> |`.
pub open spec fn modulus_at(s: Seq<u8>, p: int) -> Option<(int, Ast)>
    decreases s.len() - p, 0nat,
{
    if has_byte(s, p, BAR) {
        match expr_at(s, p + 1) {
            Some((a, e)) => if has_byte(s, a, BAR) {
                Some((a + 1, un(UnOp::Modulus, e)))
            } else {
                None
            },
            None => None,
        }
    } else {
        None
    }
}

/// `-` followed by a factor.
pub open spec fn negation_at(s: Seq<u8>, p: int) -> Option<(int, Ast)>
    decreases s.len() - p, 0nat,
{
    if has_byte(s, p, MINUS) {
        match factor_at(s, p + 1) {
            Some((a, e)) => Some((a, un(UnOp::Negate, e))),
            None => None,
        }
    } else {
        None
    }
}

/// `( <expr> )`; the parentheses add no node.
pub open spec fn parens_at(s: Seq<u8>, p: int) -> Option<(int, Ast)>
    decreases s.len() - p, 0nat,
{
    if has_byte(s, p, OPEN_PAREN) {
        match expr_at(s, p + 1) {
            Some((a, e)) => if has_byte(s, a, CLOSE_PAREN) {
                Some((a + 1, e))
            } else {
                None
            },
            None => None,
        }
    } else {
        None
    }
}

/// What a parsing function returned, read as the model's result.
pub open spec fn outcome(r: Option<(usize, Expr)>) -> Option<(int, Ast)> {
    match r {
        Some((q, e)) => Some((q as int, e@)),
        None => None,
    }
}

pub open spec fn ends_within(s: Seq<u8>, p: usize, r: Option<(usize, Expr)>) -> bool {
    r matches Some((q, _)) ==> p <= q <= s.len()
}

fn byte_at(s: &[u8], p: usize, b: u8) -> (r: bool)
    ensures
        r == has_byte(s@, p as int, b),
        s@.len() <= usize::MAX,
{
    p < s.len() && s[p] == b
}

fn word_at(s: &[u8], p: usize, w: &[char]) -> (r: bool)
    requires
        p <= s@.len(),
    ensures
        r == has_word(s@, p as int, w@),
        s@.len() <= usize::MAX,
{
    w.len() <= s.len() - p && span_is(s, p, p + w.len(), w)
}

fn parse_expr(s: &[u8], p: usize) -> (r: Option<(usize, Expr)>)
    requires
        p <= s@.len(),
    ensures
        outcome(r) == expr_at(s@, p as int),
        ends_within(s@, p, r),
    decreases s@.len() - p, 10nat,
{
    let q = skip_spaces(s, p);
    match parse_equality(s, q) {
        Some((r, e)) => Some((skip_spaces(s, r), e)),
        None => None,
    }
}

fn parse_equality(s: &[u8], p: usize) -> (r: Option<(usize, Expr)>)
    requires
        p <= s@.len(),
    ensures
        outcome(r) == equality_at(s@, p as int),
        ends_within(s@, p, r),
    decreases s@.len() - p, 9nat,
{
    let (q, first) = match parse_additive(s, p) {
        Some(x) => x,
        None => return None,
    };
    let mut pos = q;
    let mut acc = first;
    loop
        invariant
            p <= pos <= s@.len(),
            equality_rest(s@, pos as int, acc@) == equality_at(s@, p as int),
        decreases s@.len() - pos,
    {
        let op = if byte_at(s, pos, EQUALS_SIGN) && byte_at(s, pos + 1, EQUALS_SIGN) {
            BinOp::Equals
        } else if byte_at(s, pos, BANG) && byte_at(s, pos + 1, EQUALS_SIGN) {
            BinOp::NotEquals
        } else {
            return Some((pos, acc));
        };
        match parse_additive(s, pos + 2) {
            Some((next, v)) => {
                acc = Expr::BinOp(op, Box::new((acc, v)));
                pos = next;
            },
            None => return Some((pos, acc)),
        }
    }
}

fn parse_additive(s: &[u8], p: usize) -> (r: Option<(usize, Expr)>)
    requires
        p <= s@.len(),
    ensures
        outcome(r) == additive_at(s@, p as int),
        ends_within(s@, p, r),
    decreases s@.len() - p, 7nat,
{
    let (q, first) = match parse_term(s, p) {
        Some(x) => x,
        None => return None,
    };
    let mut pos = q;
    let mut acc = first;
    loop
        invariant
            p <= pos <= s@.len(),
            additive_rest(s@, pos as int, acc@) == additive_at(s@, p as int),
        decreases s@.len() - pos,
    {
        let op = if byte_at(s, pos, PLUS) {
            BinOp::Plus
        } else if byte_at(s, pos, MINUS) {
            BinOp::Minus
        } else {
            return Some((pos, acc));
        };
        match parse_term(s, pos + 1) {
            Some((next, v)) => {
                acc = Expr::BinOp(op, Box::new((acc, v)));
                pos = next;
            },
            None => return Some((pos, acc)),
        }
    }
}

fn parse_term(s: &[u8], p: usize) -> (r: Option<(usize, Expr)>)
    requires
        p <= s@.len(),
    ensures
        outcome(r) == term_at(s@, p as int),
        ends_within(s@, p, r),
    decreases s@.len() - p, 5nat,
{
    let (q, first) = match parse_factor(s, p) {
        Some(x) => x,
        None => return None,
    };
    let mut pos = q;
    let mut acc = first;
    loop
        invariant
            p <= pos <= s@.len(),
            term_rest(s@, pos as int, acc@) == term_at(s@, p as int),
        decreases s@.len() - pos,
    {
        let op = if byte_at(s, pos, STAR) {
            BinOp::Times
        } else if byte_at(s, pos, SLASH) {
            BinOp::Divide
        } else if byte_at(s, pos, PERCENT) {
            BinOp::Remainder
        } else {
            return Some((pos, acc));
        };
        match parse_factor(s, pos + 1) {
            Some((next, v)) => {
                acc = Expr::BinOp(op, Box::new((acc, v)));
                pos = next;
            },
            None => return Some((pos, acc)),
        }
    }
}

fn parse_factor(s: &[u8], p: usize) -> (r: Option<(usize, Expr)>)
    requires
        p <= s@.len(),
    ensures
        outcome(r) == factor_at(s@, p as int),
        ends_within(s@, p, r),
    decreases s@.len() - p, 3nat,
{
    let (q, base) = match parse_basic_factor(s, p) {
        Some(x) => x,
        None => return None,
    };
    let ghost base_ast = base@;
    let mut pos = q;
    let mut acc = base;
    while pos < s.len() && s[pos] == CARET
        invariant
            q <= pos <= s@.len(),
            conj_fold(s@, pos as int, acc@) == conj_fold(s@, q as int, base_ast),
        decreases s@.len() - pos,
    {
        acc = Expr::UnOp(UnOp::Conjugate, Box::new(acc));
        pos = pos + 1;
    }
    Some((skip_spaces(s, pos), acc))
}

fn parse_basic_factor(s: &[u8], p: usize) -> (r: Option<(usize, Expr)>)
    requires
        p <= s@.len(),
    ensures
        outcome(r) == basic_factor_at(s@, p as int),
        ends_within(s@, p, r),
    decreases s@.len() - p, 2nat,
{
    let q = skip_spaces(s, p);
    match parse_atom(s, q) {
        Some((r, e)) => Some((skip_spaces(s, r), e)),
        None => None,
    }
}

fn parse_atom(s: &[u8], p: usize) -> (r: Option<(usize, Expr)>)
    requires
        p <= s@.len(),
    ensures
        outcome(r) == atom_at(s@, p as int),
        ends_within(s@, p, r),
    decreases s@.len() - p, 1nat,
{
    if let Some(e) = scan_identifier(s, p) {
        return Some((e, Expr::Id(name_string(s, p, e))));
    }
    if let Some(r) = parse_conditional(s, p) {
        return Some(r);
    }
    if let Some((e, v)) = scan_numeric_literal(s, p) {
        return Some((e, Expr::Value(v)));
    }
    if let Some(r) = parse_modulus(s, p) {
        return Some(r);
    }
    if let Some(r) = parse_negation(s, p) {
        return Some(r);
    }
    parse_parens(s, p)
}

fn parse_conditional(s: &[u8], p: usize) -> (r: Option<(usize, Expr)>)
    requires
        p <= s@.len(),
    ensures
        outcome(r) == conditional_at(s@, p as int),
        ends_within(s@, p, r),
    decreases s@.len() - p, 0nat,
{
    let kw_if: &[char] = &['i', 'f'];
    let kw_then: &[char] = &['t', 'h', 'e', 'n'];
    let kw_else: &[char] = &['e', 'l', 's', 'e'];
    assert(kw_if@ == seq!['i', 'f']);
    assert(kw_then@ == seq!['t', 'h', 'e', 'n']);
    assert(kw_else@ == seq!['e', 'l', 's', 'e']);
    if !word_at(s, p, kw_if) {
        return None;
    }
    let (a, cond) = match parse_expr(s, p + 2) {
        Some(x) => x,
        None => return None,
    };
    if !word_at(s, a, kw_then) {
        return None;
    }
    let (b, then_branch) = match parse_expr(s, a + 4) {
        Some(x) => x,
        None => return None,
    };
    if !word_at(s, b, kw_else) {
        return None;
    }
    let (d, else_branch) = match parse_expr(s, b + 4) {
        Some(x) => x,
        None => return None,
    };
    Some((d, Expr::IfElse(Box::new((cond, then_branch, else_branch)))))
}

fn parse_modulus(s: &[u8], p: usize) -> (r: Option<(usize, Expr)>)
    requires
        p <= s@.len(),
    ensures
        outcome(r) == modulus_at(s@, p as int),
        ends_within(s@, p, r),
    decreases s@.len() - p, 0nat,
{
    if !byte_at(s, p, BAR) {
        return None;
    }
    match parse_expr(s, p + 1) {
        Some((a, e)) => if byte_at(s, a, BAR) {
            Some((a + 1, Expr::UnOp(UnOp::Modulus, Box::new(e))))
        } else {
            None
        },
        None => None,
    }
}

fn parse_negation(s: &[u8], p: usize) -> (r: Option<(usize, Expr)>)
    requires
        p <= s@.len(),
    ensures
        outcome(r) == negation_at(s@, p as int),
        ends_within(s@, p, r),
    decreases s@.len() - p, 0nat,
{
    if !byte_at(s, p, MINUS) {
        return None;
    }
    match parse_factor(s, p + 1) {
        Some((a, e)) => Some((a, Expr::UnOp(UnOp::Negate, Box::new(e)))),
        None => None,
    }
}

fn parse_parens(s: &[u8], p: usize) -> (r: Option<(usize, Expr)>)
    requires
        p <= s@.len(),
    ensures
        outcome(r) == parens_at(s@, p as int),
        ends_within(s@, p, r),
    decreases s@.len() - p, 0nat,
{
    if !byte_at(s, p, OPEN_PAREN) {
        return None;
    }
    match parse_expr(s, p + 1) {
        Some((a, e)) => if byte_at(s, a, CLOSE_PAREN) {
            Some((a + 1, e))
        } else {
            None
        },
        None => None,
    }
}

/// Parses one expression at the start of `input`, skipping the whitespace
/// before and after it. On success returns the byte offset at which the
/// unconsumed rest of `input` begins, and the tree; the rest need not be
/// empty. Fails when no expression starts there.
pub fn expression(input: &str) -> (r: Option<(usize, Expr)>)
    ensures
        outcome(r) == expr_at(input.spec_bytes(), 0),
        r matches Some((q, _)) ==> q <= input.spec_bytes().len(),
{
    parse_expr(input.as_bytes(), 0)
}

} // verus!
