use expr_eval::{
    evaluate, evaluate_addition, evaluate_minusition, render, Double, Environment, EvalError,
    Expression, Piece, Term,
};

fn double(value: f64) -> Double {
    Double::from_bits(value.to_bits())
}

fn num(value: f64) -> Expression {
    Expression::Number(double(value))
}

fn var(name: &str) -> Expression {
    Expression::Variable(String::from(name))
}

fn value(term: &Term) -> f64 {
    match term {
        Term::Literal(v) => f64::from_bits(v.to_bits()),
        Term::Zero => 0.0,
        Term::MinusOne => -1.0,
        Term::Sum(a, b) => value(a) + value(b),
        Term::TimesMinusTwo(a) => -2.0 * value(a),
    }
}

fn eval_f64(e: &Expression, env: &Environment) -> Result<f64, EvalError> {
    evaluate(e, env).map(|t| value(&t))
}

fn text(pieces: &[Piece]) -> String {
    let mut s = String::new();
    for p in pieces {
        match p {
            Piece::Open(op) => {
                s.push('(');
                s.push(op.symbol());
            }
            Piece::Close => s.push(')'),
            Piece::Space => s.push(' '),
            Piece::Literal(v) => s.push_str(&format!("{}", f64::from_bits(v.to_bits()))),
        }
    }
    s
}

fn env_with(name: &str, e: Expression) -> Environment {
    let mut env = Environment::empty();
    env.insert(String::from(name), e);
    env
}

#[test]
fn test_bootstrap() {
    assert_eq!(0, 0);
}

#[test]
fn test_evaluate_number() {
    let number = num(42.0);
    let value = eval_f64(&number, &Environment::new()).unwrap();
    assert_eq!(value, 42.0);
}

#[test]
fn test_environment_contains_variable() {
    let environment = env_with("foo", num(5.0));
    let bound = environment.value_for_key(&String::from("foo")).unwrap();
    let value = eval_f64(bound, &environment).unwrap();
    assert_eq!(value, 5.0);
}

#[test]
fn test_empty_environment() {
    let environment = Environment::new();
    let bound = environment.value_for_key(&String::new()).unwrap();
    let value = eval_f64(bound, &environment).unwrap();
    assert_eq!(value, 0.0);
}

#[test]
fn test_environment_holds_value() {
    let environment = env_with("foo", num(42.0));
    let expression = environment.value_for_key(&String::from("foo")).unwrap();
    let value = eval_f64(expression, &environment).unwrap();
    assert_eq!(value, 42.0);
}

#[test]
fn test_addition() {
    let addition = Expression::Add(vec![num(2.0), num(2.0)]);
    let environment = env_with("foo", num(42.0));
    let value = value(&evaluate_addition(&addition, &environment).unwrap());
    assert_eq!(value, 4.0);
}

#[test]
fn test_minusition() {
    let addition = Expression::Minus(vec![num(2.0), num(2.0)]);
    let environment = env_with("foo", num(42.0));
    let value = value(&evaluate_minusition(&addition, &environment).unwrap());
    assert_eq!(value, 0.0);
}

#[test]
fn test_variable() {
    let variable = var("foo");
    let environment = env_with("foo", num(42.0));
    let result = eval_f64(&variable, &environment);
    assert_eq!(result, Ok(42.0));
}

#[test]
fn test_dict() {
    let variable = var("Square2");
    let environment = env_with("Square2", Expression::Multiply(vec![num(2.0), num(2.0)]));
    assert!(environment.value_for_key(&String::from("Square2")).is_ok());
    assert_eq!(eval_f64(&variable, &environment), Ok(-1.0));
}

#[test]
fn number_ignores_environment() {
    assert_eq!(eval_f64(&num(-3.5), &Environment::empty()), Ok(-3.5));
    assert_eq!(eval_f64(&num(-3.5), &env_with("x", num(1.0))), Ok(-3.5));
    assert_eq!(evaluate(&num(7.0), &Environment::new()), Ok(Term::Literal(double(7.0))));
}

#[test]
fn empty_sum_is_zero() {
    let empty = Expression::Add(vec![]);
    assert_eq!(evaluate(&empty, &Environment::empty()), Ok(Term::Zero));
}

#[test]
fn sum_adds_children_left_to_right() {
    let sum = Expression::Add(vec![num(1.5), var("x"), num(4.0)]);
    let env = env_with("x", num(2.0));
    assert_eq!(eval_f64(&sum, &env), Ok(7.5));
    let t = evaluate(&sum, &env).unwrap();
    let expected = Term::Sum(
        Box::new(Term::Sum(
            Box::new(Term::Sum(Box::new(Term::Zero), Box::new(Term::Literal(double(1.5))))),
            Box::new(Term::Literal(double(2.0))),
        )),
        Box::new(Term::Literal(double(4.0))),
    );
    assert_eq!(t, expected);
}

#[test]
fn variable_evaluates_its_binding() {
    let env = env_with("k", Expression::Add(vec![num(1.0), num(2.0)]));
    let bound = env.value_for_key(&String::from("k")).unwrap();
    assert_eq!(eval_f64(&var("k"), &env), eval_f64(bound, &env));
    assert_eq!(eval_f64(&var("k"), &env), Ok(3.0));
}

#[test]
fn variables_chain_through_the_same_environment() {
    let mut env = env_with("a", var("b"));
    env.insert(String::from("b"), num(9.0));
    assert_eq!(eval_f64(&var("a"), &env), Ok(9.0));
}

#[test]
fn default_environment_binds_empty_name_to_zero() {
    let env = Environment::new();
    assert_eq!(eval_f64(&var(""), &env), Ok(0.0));
}

#[test]
fn minus_of_one_child_mixes_environments() {
    let env = env_with("", num(5.0));
    let minus = Expression::Minus(vec![var("")]);
    // minus two times the value in the default environment (zero), plus five
    assert_eq!(eval_f64(&minus, &env), Ok(5.0));
    let minus = Expression::Minus(vec![num(3.0)]);
    assert_eq!(eval_f64(&minus, &env), Ok(-3.0));
}

#[test]
fn minus_first_child_ignores_caller_bindings() {
    let env = env_with("x", num(1.0));
    let minus = Expression::Minus(vec![var("x"), num(2.0)]);
    assert_eq!(evaluate(&minus, &env), Err(EvalError::UnboundVariable));
}

#[test]
fn product_is_minus_one() {
    let product = Expression::Multiply(vec![num(2.0), num(3.0)]);
    assert_eq!(eval_f64(&product, &Environment::new()), Ok(-1.0));
    let product = Expression::Multiply(vec![var("missing"), num(3.0)]);
    assert_eq!(eval_f64(&product, &Environment::empty()), Ok(-1.0));
}

#[test]
fn two_plus_two_is_four() {
    let sum = Expression::Add(vec![num(2.0), num(2.0)]);
    assert_eq!(eval_f64(&sum, &env_with("y", num(8.0))), Ok(4.0));
}

#[test]
fn two_minus_two_is_zero() {
    let minus = Expression::Minus(vec![num(2.0), num(2.0)]);
    assert_eq!(eval_f64(&minus, &env_with("y", num(8.0))), Ok(0.0));
}

#[test]
fn sample_tree_renders_in_prefix_notation() {
    let tree = Expression::Add(vec![
        num(2.0),
        Expression::Multiply(vec![
            num(2.0),
            Expression::Minus(vec![num(4.0), num(2.0)]),
        ]),
    ]);
    assert_eq!(text(&render(&tree)), "(+ 2 (* 2 (- 4  2 )))");
}

#[test]
fn variables_render_as_nothing() {
    let tree = Expression::Add(vec![var("x"), num(1.0)]);
    assert_eq!(text(&render(&tree)), "(+ 1 )");
    assert_eq!(render(&var("x")), vec![]);
}

#[test]
fn absent_key_is_unbound() {
    let env = Environment::new();
    assert!(matches!(
        env.value_for_key(&String::from("nope")),
        Err(EvalError::UnboundVariable)
    ));
    assert_eq!(evaluate(&var("nope"), &env), Err(EvalError::UnboundVariable));
}

#[test]
fn empty_minus_is_an_error() {
    let minus = Expression::Minus(vec![]);
    assert_eq!(evaluate(&minus, &Environment::new()), Err(EvalError::EmptyOperandList));
    let nested = Expression::Add(vec![num(1.0), Expression::Minus(vec![])]);
    assert_eq!(evaluate(&nested, &Environment::new()), Err(EvalError::EmptyOperandList));
}

#[test]
fn self_binding_is_cyclic() {
    let env = env_with("x", Expression::Add(vec![num(1.0), var("x")]));
    assert_eq!(evaluate(&var("x"), &env), Err(EvalError::CyclicBinding));
    let mut env = env_with("a", var("b"));
    env.insert(String::from("b"), var("a"));
    assert_eq!(evaluate(&var("a"), &env), Err(EvalError::CyclicBinding));
}

#[test]
fn repeated_variable_is_not_a_cycle() {
    let mut env = env_with("x", num(2.0));
    env.insert(String::from("y"), Expression::Add(vec![var("x"), var("x")]));
    assert_eq!(eval_f64(&var("y"), &env), Ok(4.0));
}

#[test]
fn insert_replaces_a_binding() {
    let mut env = env_with("x", num(1.0));
    env.insert(String::from("x"), num(6.0));
    assert_eq!(eval_f64(&var("x"), &env), Ok(6.0));
}

#[test]
fn first_error_wins() {
    let sum = Expression::Add(vec![var("missing"), Expression::Minus(vec![])]);
    assert_eq!(evaluate(&sum, &Environment::new()), Err(EvalError::UnboundVariable));
}

#[test]
fn default_environment_holds_the_zero_literal() {
    let env = Environment::new();
    let sentinel = env.value_for_key(&String::new()).unwrap();
    assert_eq!(sentinel, &Expression::Number(Double::zero()));
    assert_eq!(sentinel, &num(0.0));
    assert_eq!(text(&render(sentinel)), " 0 ");
    assert_eq!(evaluate(&var(""), &env), Ok(Term::Literal(double(0.0))));
}
