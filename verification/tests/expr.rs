use symengine::expr::{is_free_of_nul, EVALUATION_PRECISION, EVALUATION_ROUNDING};
use symengine::{
    Atomic, BinaryOperator, Comparison, Expression, Literal, Request, Symbol, UnaryOp,
    UnaryOperator,
};

fn is_parse(expr: &Expression, text: &str) -> bool {
    matches!(expr.request(), Request::Parse(held) if held == text)
}

fn is_literal(expr: &Expression, literal: Literal) -> bool {
    matches!(expr.request(), Request::Literal(held) if *held == literal)
}

fn is_binary_of_a_and_three(expr: &Expression, op: BinaryOperator) -> bool {
    match expr.request() {
        Request::Binary(held, lhs, rhs) => {
            *held == op && is_parse(lhs, "a") && is_literal(rhs, Literal::Signed(3))
        }
        _ => false,
    }
}

#[test]
fn simple_canonical() {
    let expr = Expression::new("a + b + 3");
    assert!(is_parse(&expr, "a + b + 3"));
    assert!(!is_parse(&expr, "3 + a + b"));
}

#[test]
fn new_keeps_an_owned_text_as_it_is() {
    let text = "a ** 2 - 9".to_string();
    let expr = Expression::new(&text);
    assert!(is_parse(&expr, "a ** 2 - 9"));
}

#[test]
fn each_literal_kind_has_its_own_constructor() {
    assert!(is_literal(&Expression::from(-4i64), Literal::Signed(-4)));
    assert!(is_literal(&Expression::from(3u64), Literal::Unsigned(3)));
    assert!(is_literal(
        &Expression::from_real_bits(2.5f64.to_bits()),
        Literal::Real(0x4004_0000_0000_0000)
    ));
    assert!(!is_literal(&Expression::from(3u64), Literal::Signed(3)));
    assert!(!is_literal(&Expression::from(3i64), Literal::Unsigned(3)));
}

#[test]
fn extreme_literals_are_kept_exactly() {
    assert!(is_literal(&Expression::from(i64::MIN), Literal::Signed(i64::MIN)));
    assert!(is_literal(&Expression::from(u64::MAX), Literal::Unsigned(u64::MAX)));
    assert!(is_literal(
        &Expression::from_real_bits((-1.0f64).to_bits()),
        Literal::Real((-1.0f64).to_bits())
    ));
}

#[test]
fn a_real_literal_gives_its_double_back() {
    let expr = Expression::from_real_bits((-4.0f64).to_bits());
    match expr.request() {
        Request::Literal(Literal::Real(bits)) => assert_eq!(f64::from_bits(*bits), -4.0),
        other => panic!("unexpected request {:?}", other),
    }
}

#[test]
fn symbols_name_their_literal() {
    assert_eq!(7i64.to_literal(), Literal::Signed(7));
    assert_eq!(7u64.to_literal(), Literal::Unsigned(7));
}

#[test]
fn lifting_a_literal_makes_an_expression_of_it() {
    assert!(is_literal(&5i64.lift(), Literal::Signed(5)));
    assert!(is_literal(&5u64.lift(), Literal::Unsigned(5)));
}

#[test]
fn lifting_an_expression_leaves_it_alone() {
    let lifted = Expression::new("x").lift();
    assert!(is_parse(&lifted, "x"));
}

#[test]
fn plus_asks_for_an_addition() {
    let out = Expression::new("a") + 3i64;
    assert!(is_binary_of_a_and_three(&out, BinaryOperator::Addition));
}

#[test]
fn minus_asks_for_a_subtraction() {
    let out = Expression::new("a") - 3i64;
    assert!(is_binary_of_a_and_three(&out, BinaryOperator::Subtraction));
}

#[test]
fn times_asks_for_a_multiplication() {
    let out = Expression::new("a") * 3i64;
    assert!(is_binary_of_a_and_three(&out, BinaryOperator::Multiplication));
}

#[test]
fn over_asks_for_a_division() {
    let out = Expression::new("a") / 3i64;
    assert!(is_binary_of_a_and_three(&out, BinaryOperator::Division));
}

#[test]
fn operators_take_expressions_on_the_right() {
    let out = Expression::new("a") - Expression::new("b");
    match out.request() {
        Request::Binary(op, lhs, rhs) => {
            assert_eq!(*op, BinaryOperator::Subtraction);
            assert!(is_parse(lhs, "a"));
            assert!(is_parse(rhs, "b"));
        }
        other => panic!("unexpected request {:?}", other),
    }
}

#[test]
fn operators_keep_the_order_of_their_operands() {
    let out = (Expression::new("a") + 1u64) * Expression::new("b");
    match out.request() {
        Request::Binary(BinaryOperator::Multiplication, lhs, rhs) => {
            assert!(is_parse(rhs, "b"));
            match lhs.request() {
                Request::Binary(BinaryOperator::Addition, inner_lhs, inner_rhs) => {
                    assert!(is_parse(inner_lhs, "a"));
                    assert!(is_literal(inner_rhs, Literal::Unsigned(1)));
                }
                other => panic!("unexpected request {:?}", other),
            }
        }
        other => panic!("unexpected request {:?}", other),
    }
}

#[test]
fn exp_asks_for_the_exponential() {
    let out = Expression::new("x").exp();
    match out.request() {
        Request::Unary(op, operand) => {
            assert_eq!(*op, UnaryOperator::Exponential);
            assert!(is_parse(operand, "x"));
        }
        other => panic!("unexpected request {:?}", other),
    }
}

#[test]
fn unary_op_applies_the_named_transform() {
    let out = Expression::from(2i64).unary_op(UnaryOperator::Exponential);
    match out.request() {
        Request::Unary(UnaryOperator::Exponential, operand) => {
            assert!(is_literal(operand, Literal::Signed(2)));
        }
        other => panic!("unexpected request {:?}", other),
    }
}

#[test]
fn diff_asks_for_the_derivative_by_the_symbol() {
    let x = Expression::new("x");
    let out = Expression::new("x").exp().diff(&x);
    match out.request() {
        Request::Differentiate(operand, symbol) => {
            assert!(matches!(
                operand.request(),
                Request::Unary(UnaryOperator::Exponential, inner) if is_parse(inner, "x")
            ));
            assert!(is_parse(symbol, "x"));
        }
        other => panic!("unexpected request {:?}", other),
    }
    assert!(is_parse(&x, "x"));
}

#[test]
fn evalf_asks_for_double_precision() {
    assert_eq!(EVALUATION_PRECISION, 53);
    assert_eq!(EVALUATION_ROUNDING, 0);
    let out = Expression::new("a / 3").evalf();
    match out.request() {
        Request::Evaluate(operand, bits, rounding) => {
            assert!(is_parse(operand, "a / 3"));
            assert_eq!(*bits, 53);
            assert_eq!(*rounding, 0);
        }
        other => panic!("unexpected request {:?}", other),
    }
}

#[test]
fn clone_is_a_value_of_its_own_with_the_same_request() {
    let first = Expression::new("a") + 3i64;
    let copy = first.clone();
    let grown = first + 1i64;
    assert!(is_binary_of_a_and_three(&copy, BinaryOperator::Addition));
    assert!(matches!(
        grown.request(),
        Request::Binary(BinaryOperator::Addition, lhs, _)
            if is_binary_of_a_and_three(lhs, BinaryOperator::Addition)
    ));
}

#[test]
fn equal() {
    let expr1 = Expression::new("(a + 3) * (a - 3)");
    let expr2 = Expression::new(&"a ** 2 - 9".to_string());
    let asked = expr1.comparison(&expr2);
    assert!(matches!(
        asked.lhs.request(),
        Request::Expand(inner) if is_parse(inner, "(a + 3) * (a - 3)")
    ));
    assert!(matches!(
        asked.rhs.request(),
        Request::Expand(inner) if is_parse(inner, "a ** 2 - 9")
    ));
}

#[test]
fn comparison_with_a_literal_lifts_it_first() {
    let asked = Expression::new("a * b + 10").comparison_with(-2i64);
    assert!(matches!(
        asked.lhs.request(),
        Request::Expand(inner) if is_parse(inner, "a * b + 10")
    ));
    assert!(matches!(
        asked.rhs.request(),
        Request::Expand(inner) if is_literal(inner, Literal::Signed(-2))
    ));
}

#[test]
fn a_nul_is_found_wherever_it_stands() {
    assert!(is_free_of_nul("a + b + 3"));
    assert!(is_free_of_nul(""));
    assert!(is_free_of_nul("\u{3b1} + 1"));
    assert!(!is_free_of_nul("a\0b"));
    assert!(!is_free_of_nul("\0"));
    assert!(!is_free_of_nul("ab\0"));
    assert!(!is_free_of_nul("\u{3b1}\0"));
}

#[test]
fn only_the_status_zero_means_read() {
    assert!(Expression::was_read(0));
    assert!(!Expression::was_read(1));
    assert!(!Expression::was_read(-1));
    assert!(!Expression::was_read(3));
}

#[test]
fn only_the_answer_one_means_equal() {
    assert!(Comparison::holds(1));
    assert!(!Comparison::holds(0));
    assert!(!Comparison::holds(-1));
    assert!(!Comparison::holds(2));
}
