use lisper::error::LispError;
use lisper::eval::{eval, Func, Operator, OperatorTable};
use lisper::lispies::{Lisper, Lispies, Real, Value};
use lisper::parser::Parser;

fn table() -> OperatorTable {
    let mut hm = OperatorTable::new();
    lisper::eval::env(&mut hm);
    hm
}

fn run(program: &str) -> Result<Lispies, LispError> {
    let tree = program.tokenize().expect("parses").expect("has a list");
    eval(&tree.list, &table())
}

#[test]
fn test_simple_add() {
    let program = "(+ 2 1)";
    let tokens = program.tokenize();
    assert!(matches!(tokens, Ok(Some(_))));
    if let Ok(Some(tokens)) = tokens {
        let mut hm = OperatorTable::new();
        lisper::eval::env(&mut hm);
        let res = eval(&tokens.list, &hm);
        assert_eq!(res, Ok(Lispies::Int(3)));
    }
}

#[test]
fn test_simple_nested_add() {
    let program = "(+ (+ 1 1) (- 2 1))";
    let tokens = program.tokenize();
    assert!(matches!(tokens, Ok(Some(_))));
    if let Ok(Some(tokens)) = tokens {
        let mut hm = OperatorTable::new();
        lisper::eval::env(&mut hm);
        let res = eval(&tokens.list, &hm);
        assert_eq!(res, Ok(Lispies::Int(3)));
    }
}

#[test]
fn simple_add_parses_to_three_elements() {
    assert_eq!(
        "(+ 2 1)".tokenize(),
        Ok(Some(Lisper {
            list: vec![Lispies::Symbol("+".to_string()), Lispies::Int(2), Lispies::Int(1)]
        }))
    );
}

#[test]
fn env_registers_plus_and_minus() {
    let hm = table();
    assert_eq!(hm.len(), 2);
    assert_eq!(hm.get("+"), Some(&Func::Add));
    assert_eq!(hm.get("-"), Some(&Func::Sub));
    assert_eq!(hm.get("*"), None);
}

#[test]
fn env_overwrites_what_was_there() {
    let mut hm = OperatorTable::new();
    hm.insert("+".to_string(), Func::Sub);
    hm.insert("plus".to_string(), Func::Add);
    lisper::eval::env(&mut hm);
    assert_eq!(hm.len(), 3);
    assert_eq!(hm.get("+"), Some(&Func::Add));
    assert_eq!(hm.get("plus"), Some(&Func::Add));
}

#[test]
fn func_apply_adds_and_subtracts() {
    assert_eq!(Func::Add.apply(Lispies::Int(7), Lispies::Int(5)), Ok(Lispies::Int(12)));
    assert_eq!(Func::Sub.apply(Lispies::Int(7), Lispies::Int(5)), Ok(Lispies::Int(2)));
    assert_eq!(
        Func::Sub.apply(Lispies::Int(7), Lispies::Float(Real::Literal("5.0".to_string()))),
        Err(LispError::UnsupportedOperand)
    );
}

enum Custom {
    Times,
    First,
    Arithmetic(Func),
}

impl Operator for Custom {
    fn applied(&self, _: Value, _: Value) -> Result<Value, LispError> {
        unreachable!("a statement about the operator, never run")
    }

    fn apply(&self, left: Lispies, right: Lispies) -> Result<Lispies, LispError> {
        match (self, left, right) {
            (Custom::Times, Lispies::Int(a), Lispies::Int(b)) => {
                a.checked_mul(b).map(Lispies::Int).ok_or(LispError::Overflow)
            }
            (Custom::Times, _, _) => Err(LispError::UnsupportedOperand),
            (Custom::First, left, _) => Ok(left),
            (Custom::Arithmetic(func), left, right) => func.apply(left, right),
        }
    }
}

#[test]
fn eval_applies_operators_of_the_caller() {
    let mut hm: OperatorTable<Custom> = OperatorTable::new();
    hm.insert("*".to_string(), Custom::Times);
    hm.insert("first".to_string(), Custom::First);
    hm.insert("plus".to_string(), Custom::Arithmetic(Func::Add));
    let run = |program: &str| eval(&program.tokenize().unwrap().unwrap().list, &hm);
    assert_eq!(run("(* 6 7)"), Ok(Lispies::Int(42)));
    assert_eq!(run("(* (plus 1 2) (first 4 5) 1)"), Ok(Lispies::Int(13)));
    assert_eq!(run("(* 65536 65536)"), Err(LispError::Overflow));
    assert_eq!(run("(+ 1 2)"), Err(LispError::UnknownOperator));
}

#[test]
fn eval_empty_list_is_zero() {
    assert_eq!(eval(&[], &table()), Ok(Lispies::Int(0)));
    assert_eq!(run("()"), Ok(Lispies::Int(0)));
}

#[test]
fn eval_sums_every_top_level_form() {
    assert_eq!(run("(1 2 3)"), Ok(Lispies::Int(6)));
    assert_eq!(run("(+ 1 2 + 3 4)"), Ok(Lispies::Int(10)));
    assert_eq!(run("(1 2 + 3 4 - 10 (+ 1 1))"), Ok(Lispies::Int(18)));
}

#[test]
fn eval_whole_is_sum_of_forms_alone() {
    let forms = ["5", "+ 3 4", "- 10 (+ 1 1)", "- 0 7", "+ (- 1 2) (1 2 3)"];
    let mut sum = 0;
    for form in forms {
        match run(&format!("({})", form)) {
            Ok(Lispies::Int(worth)) => sum += worth,
            other => panic!("{} gave {:?}", form, other),
        }
    }
    assert_eq!(sum, 5 + 7 + 8 - 7 + 5);
    assert_eq!(run(&format!("({})", forms.join(" "))), Ok(Lispies::Int(sum)));
}

#[test]
fn eval_nested_list_is_a_sum_too() {
    assert_eq!(run("(+ (1 2 3) (- 1 (4 5)))"), Ok(Lispies::Int(6 + (1 - 9))));
    assert_eq!(run("(+ () ())"), Ok(Lispies::Int(0)));
}

#[test]
fn eval_unknown_operator() {
    assert_eq!(run("(define r 10)"), Err(LispError::UnknownOperator));
    assert_eq!(run("(* 1 2)"), Err(LispError::UnknownOperator));
    assert_eq!(run("(+ 1 (* 2 3))"), Err(LispError::UnknownOperator));
    let tree = "(+ 2 1)".tokenize().unwrap().unwrap();
    let empty: OperatorTable = OperatorTable::new();
    assert_eq!(eval(&tree.list, &empty), Err(LispError::UnknownOperator));
}

#[test]
fn eval_looks_the_operator_up_before_its_operands() {
    assert_eq!(run("(foo bar baz)"), Err(LispError::UnknownOperator));
    assert_eq!(run("(foo)"), Err(LispError::UnknownOperator));
}

#[test]
fn eval_mixed_int_and_float_fails() {
    assert_eq!(run("(+ 1 2.5)"), Err(LispError::UnsupportedOperand));
    assert_eq!(run("(+ 2.5 1)"), Err(LispError::UnsupportedOperand));
    assert_eq!(run("(- 1 2.5)"), Err(LispError::UnsupportedOperand));
    assert_eq!(run("(7 + 1 2.5)"), Err(LispError::UnsupportedOperand));
}

#[test]
fn eval_unsupported_shapes() {
    assert_eq!(run("(1.5)"), Err(LispError::UnsupportedOperand));
    assert_eq!(run("((+ 1 2))"), Err(LispError::UnsupportedOperand));
    assert_eq!(run("(+ 1 x)"), Err(LispError::UnsupportedOperand));
    assert_eq!(run("(+ x 1)"), Err(LispError::UnsupportedOperand));
    assert_eq!(run("(+ 1.5 2.5)"), Err(LispError::UnsupportedOperand));
    assert_eq!(eval(&[Lispies::Nil], &table()), Err(LispError::UnsupportedOperand));
    assert_eq!(
        eval(&[Lispies::Symbol("+".to_string()), Lispies::Int(1), Lispies::Nil], &table()),
        Err(LispError::UnsupportedOperand)
    );
}

#[test]
fn eval_operator_short_of_operands() {
    assert_eq!(run("(+)"), Err(LispError::UnsupportedOperand));
    assert_eq!(run("(+ 1)"), Err(LispError::UnsupportedOperand));
    assert_eq!(run("(1 2 + 3)"), Err(LispError::UnsupportedOperand));
}

#[test]
fn eval_first_error_wins() {
    assert_eq!(run("(+ x (* 1 2))"), Err(LispError::UnsupportedOperand));
    assert_eq!(run("(+ (* 1 2) x)"), Err(LispError::UnknownOperator));
    assert_eq!(run("(1.5 * 1 2)"), Err(LispError::UnsupportedOperand));
}

#[test]
fn eval_reports_overflow() {
    assert_eq!(run("(+ 2147483647 1)"), Err(LispError::Overflow));
    assert_eq!(run("(- (- 0 2147483647) 2)"), Err(LispError::Overflow));
    assert_eq!(run("(- (- 0 2147483647) 1)"), Ok(Lispies::Int(i32::MIN)));
    assert_eq!(run("(2147483647 1)"), Err(LispError::Overflow));
    assert_eq!(run("(2147483647 1 - 0 2)"), Err(LispError::Overflow));
    assert_eq!(run("(2147483647 - 0 2 1)"), Ok(Lispies::Int(i32::MAX - 1)));
    assert_eq!(run("(+ 2147483647 0)"), Ok(Lispies::Int(i32::MAX)));
}

#[test]
fn eval_signed_token_is_no_number() {
    assert_eq!(run("(-7)"), Err(LispError::UnknownOperator));
    assert_eq!(run("(+ 1 -7)"), Err(LispError::UnsupportedOperand));
}

#[test]
fn eval_leaves_the_list_as_it_was() {
    let tree = "(+ (+ 1 1) (- 2 1))".tokenize().unwrap().unwrap();
    let before = tree.clone();
    let _ = eval(&tree.list, &table());
    assert_eq!(tree, before);
}
