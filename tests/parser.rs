use gauss_expr::{expression, identifier, BinOp, ComplexInt, Expr, UnOp};

fn v(re: i64, im: i64) -> Expr {
    Expr::Value(ComplexInt(re, im))
}

fn id(name: &str) -> Expr {
    Expr::Id(name.to_string())
}

fn bin(op: BinOp, l: Expr, r: Expr) -> Expr {
    Expr::BinOp(op, Box::new((l, r)))
}

fn un(op: UnOp, e: Expr) -> Expr {
    Expr::UnOp(op, Box::new(e))
}

fn if_else(c: Expr, t: Expr, e: Expr) -> Expr {
    Expr::IfElse(Box::new((c, t, e)))
}

fn show(e: &Expr) -> String {
    format!("{:?}", e)
}

/// Parses `input` and checks that all of it was consumed.
fn parse_all(input: &str) -> Expr {
    let (rest, e) = expression(input).expect("expression expected");
    assert_eq!(rest, input.len(), "unconsumed input in {:?}", input);
    e
}

fn assert_parses(input: &str, expected: Expr) {
    assert_eq!(show(&parse_all(input)), show(&expected));
}

#[test]
fn integer_literal() {
    assert_parses("42", v(42, 0));
    assert_parses("0", v(0, 0));
}

#[test]
fn imaginary_literal() {
    assert_parses("42i", v(0, 42));
}

#[test]
fn bare_imaginary_unit() {
    assert_parses("i", v(0, 1));
}

#[test]
fn largest_literal() {
    assert_parses("9223372036854775807", v(i64::MAX, 0));
    assert_parses("9223372036854775807i", v(0, i64::MAX));
}

#[test]
fn overflowing_literal_fails() {
    assert!(expression("9223372036854775808").is_none());
    assert!(expression("9223372036854775808i").is_none());
}

#[test]
fn grouping_underscores_are_stripped() {
    assert_parses("1_000", v(1000, 0));
    assert_parses("1__2_", v(12, 0));
    assert_parses("1_000i", v(0, 1000));
}

#[test]
fn left_associative_minus() {
    assert_parses(
        "1-2-3",
        bin(BinOp::Minus, bin(BinOp::Minus, v(1, 0), v(2, 0)), v(3, 0)),
    );
}

#[test]
fn times_binds_tighter_than_plus() {
    assert_parses(
        "1+2*3",
        bin(BinOp::Plus, v(1, 0), bin(BinOp::Times, v(2, 0), v(3, 0))),
    );
}

#[test]
fn multiplicative_operators() {
    assert_parses(
        "6/3%2",
        bin(BinOp::Remainder, bin(BinOp::Divide, v(6, 0), v(3, 0)), v(2, 0)),
    );
}

#[test]
fn equality_binds_loosest() {
    assert_parses(
        "1+1!=2*1",
        bin(
            BinOp::NotEquals,
            bin(BinOp::Plus, v(1, 0), v(1, 0)),
            bin(BinOp::Times, v(2, 0), v(1, 0)),
        ),
    );
}

#[test]
fn conditional() {
    assert_parses(
        "if 1==1 then 2 else 3",
        if_else(bin(BinOp::Equals, v(1, 0), v(1, 0)), v(2, 0), v(3, 0)),
    );
}

#[test]
fn nested_conditional() {
    assert_parses(
        "if x then if y then 1 else 2 else 3",
        if_else(id("x"), if_else(id("y"), v(1, 0), v(2, 0)), v(3, 0)),
    );
}

#[test]
fn double_negation() {
    assert_parses("--5", un(UnOp::Negate, un(UnOp::Negate, v(5, 0))));
}

#[test]
fn negation_binds_tighter_than_times() {
    assert_parses(
        "-2*3",
        bin(BinOp::Times, un(UnOp::Negate, v(2, 0)), v(3, 0)),
    );
}

#[test]
fn modulus() {
    assert_parses("|3|", un(UnOp::Modulus, v(3, 0)));
}

#[test]
fn parentheses_add_no_node() {
    assert_parses("(1+2)", bin(BinOp::Plus, v(1, 0), v(2, 0)));
    assert_parses(
        "(1+2)*3",
        bin(BinOp::Times, bin(BinOp::Plus, v(1, 0), v(2, 0)), v(3, 0)),
    );
}

#[test]
fn conjugate_marks_fold() {
    assert_parses("3^", un(UnOp::Conjugate, v(3, 0)));
    assert_parses("x^^", un(UnOp::Conjugate, un(UnOp::Conjugate, id("x"))));
}

#[test]
fn identifiers_in_expressions() {
    assert_parses("x' + _y2", bin(BinOp::Plus, id("x'"), id("_y2")));
    assert_parses("iffy", id("iffy"));
    assert_parses("i5", id("i5"));
}

#[test]
fn whitespace_insensitive() {
    let expected = show(&bin(BinOp::Plus, v(1, 0), v(2, 0)));
    assert_eq!(show(&parse_all("1 + 2")), expected);
    assert_eq!(show(&parse_all("1+2")), expected);
    assert_eq!(show(&parse_all(" 1+2 ")), expected);
    assert_eq!(show(&parse_all("\t1\n+\r2")), expected);
}

#[test]
fn rest_is_left_unconsumed() {
    let (rest, e) = expression("1 )").unwrap();
    assert_eq!(rest, 2);
    assert_eq!(show(&e), show(&v(1, 0)));
    let (rest, e) = expression("1+").unwrap();
    assert_eq!(rest, 1);
    assert_eq!(show(&e), show(&v(1, 0)));
}

#[test]
fn no_expression_fails() {
    assert!(expression("").is_none());
    assert!(expression("   ").is_none());
    assert!(expression(")").is_none());
    assert!(expression("(1").is_none());
    assert!(expression("|1").is_none());
}

#[test]
fn failed_conditional_falls_back_to_unit() {
    // Without `else` the conditional fails and `i` is read as a literal.
    let (rest, e) = expression("if 1 then 2").unwrap();
    assert_eq!(rest, 1);
    assert_eq!(show(&e), show(&v(0, 1)));
}

#[test]
fn identifier_reads_name() {
    assert_eq!(identifier("foo_1' bar"), Some((6, "foo_1'".to_string())));
    assert_eq!(identifier("_"), Some((1, "_".to_string())));
    assert_eq!(identifier("letter"), Some((6, "letter".to_string())));
}

#[test]
fn identifier_rejects_non_names() {
    assert_eq!(identifier("1abc"), None);
    assert_eq!(identifier(" abc"), None);
    assert_eq!(identifier(""), None);
}

#[test]
fn reserved_words_are_not_identifiers() {
    for w in [
        "if", "else", "then", "i", "let", "print", "println", "while", "fn", "mut", "break",
        "continue", "matrix", "return", "pi", "tau",
    ] {
        assert_eq!(identifier(w), None, "{}", w);
        assert_eq!(identifier(&format!("{} x", w)), None, "{}", w);
    }
}

#[test]
fn reserved_word_is_not_a_variable() {
    assert!(expression("let").is_none());
    assert!(expression("mut + 1").is_none());
}
