use arith_eval::eval::eval;
use arith_eval::token::Fault;

#[test]
fn twelve_factorial() {
    assert_eq!(eval("2 * 3 * 4 * 5 * 6 * 7 * 8 * 9 * 10 * 11 * 12"), Ok(479001600));
}

#[test]
fn precedence_respected() {
    assert_eq!(eval("1 + 2 * 3"), Ok(7));
}

#[test]
fn parentheses_override_precedence() {
    assert_eq!(eval("(1 + 2) * 3"), Ok(9));
}

#[test]
fn single_literal() {
    assert_eq!(eval("42"), Ok(42));
}

#[test]
fn empty_expression_is_zero() {
    assert_eq!(eval(""), Ok(0));
    assert_eq!(eval("   "), Ok(0));
}

#[test]
fn multi_digit_literals() {
    assert_eq!(eval("10"), Ok(10));
    assert_eq!(eval("10 + 200 * 3"), Ok(610));
    assert_eq!(eval("1234567890"), Ok(1234567890));
}

#[test]
fn whitespace_between_tokens_changes_nothing() {
    assert_eq!(eval("1+2*3"), Ok(7));
    assert_eq!(eval("  1  +  2  *  3  "), Ok(7));
    assert_eq!(eval("(1+2)*3"), Ok(9));
    assert_eq!(eval(" ( 1 + 2 ) * 3 "), Ok(9));
}

#[test]
fn unrecognized_characters_are_skipped_like_whitespace() {
    // the idle scanner consumes any character that starts no token
    assert_eq!(eval("#42#"), Ok(42));
    assert_eq!(eval("1 # 2"), Err(Fault::Malformed));
}

#[test]
fn whitespace_inside_a_literal_splits_it() {
    // "1 2" is two digit tokens, which the grammar refuses
    assert_eq!(eval("1 2"), Err(Fault::Malformed));
}

#[test]
fn nested_parentheses() {
    assert_eq!(eval("((4))"), Ok(4));
    assert_eq!(eval("2 * (3 + 4 * (5 + 6))"), Ok(94));
}

#[test]
fn letters_fault() {
    assert_eq!(eval("a"), Err(Fault::Malformed));
    assert_eq!(eval("1 + b"), Err(Fault::Malformed));
    assert_eq!(eval("x1 * 3"), Err(Fault::Malformed));
    assert_eq!(eval("1a"), Err(Fault::Malformed));
}

#[test]
fn adjacent_operators_fault() {
    assert_eq!(eval("1 + * 2"), Err(Fault::Malformed));
    assert_eq!(eval("1 * + 2"), Err(Fault::Malformed));
    assert_eq!(eval("1 + + 2"), Err(Fault::Malformed));
}

#[test]
fn unbalanced_parentheses_fault() {
    assert_eq!(eval("(1 + 2"), Err(Fault::Malformed));
    assert_eq!(eval("1 + 2)"), Err(Fault::Malformed));
    assert_eq!(eval(")"), Err(Fault::Malformed));
    assert_eq!(eval("("), Err(Fault::Malformed));
    assert_eq!(eval("()"), Err(Fault::Malformed));
}

#[test]
fn dangling_operator_faults() {
    assert_eq!(eval("1 +"), Err(Fault::Malformed));
    assert_eq!(eval("* 2"), Err(Fault::Malformed));
}

#[test]
fn literal_at_i32_boundary() {
    assert_eq!(eval("2147483647"), Ok(2147483647));
    assert_eq!(eval("2147483648"), Err(Fault::Overflow));
    assert_eq!(eval("99999999999999999999"), Err(Fault::Overflow));
}

#[test]
fn arithmetic_overflow_faults() {
    assert_eq!(eval("2000000000 + 2000000000"), Err(Fault::Overflow));
    assert_eq!(eval("100000 * 100000"), Err(Fault::Overflow));
    assert_eq!(eval("2147483646 + 1"), Ok(2147483647));
}
