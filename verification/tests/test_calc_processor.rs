use rusty_dumb_tools::calc::{CalcTerm, DumbCalcProcessor, Op};

/// What an operand comes to in `f64` arithmetic.
fn value(term: &CalcTerm) -> f64 {
    match term {
        CalcTerm::Number(text) => text.parse::<f64>().unwrap(),
        CalcTerm::Pi => std::f64::consts::PI,
        CalcTerm::E => std::f64::consts::E,
        CalcTerm::Zero => 0.0,
        CalcTerm::Unary(op, a) => {
            let a = value(a);
            match op {
                Op::NEGATE => -a,
                Op::SIN => a.sin(),
                Op::COS => a.cos(),
                Op::TAN => a.tan(),
                Op::ASIN => a.asin(),
                Op::ACOS => a.acos(),
                Op::ATAN => a.atan(),
                Op::LOG => a.log10(),
                Op::LN => a.ln(),
                Op::SQRT => a.sqrt(),
                Op::SQUARE => a * a,
                Op::INVERSE => 1.0 / a,
                Op::EXP => a.exp(),
                Op::MOD => a % 1.0,
                Op::ABS => a.abs(),
                Op::PERCENT => a / 100.0,
                Op::POW10 => 10_f64.powf(a),
                _ => panic!("{:?} is not unary", op),
            }
        }
        CalcTerm::Binary(op, a, b) => {
            let (a, b) = (value(a), value(b));
            match op {
                Op::ADD => a + b,
                Op::SUBTRACT => a - b,
                Op::MULTIPLY => a * b,
                Op::DIVIDE => a / b,
                Op::POW => a.powf(b),
                _ => panic!("{:?} is not binary", op),
            }
        }
    }
}

#[derive(Debug, PartialEq)]
enum Outcome {
    Final(f64),
    Intermediate(f64),
    Error,
}

/// The calculation result so far: an error where the result is not a number
/// or infinite; the operand scanned last, if any; else the result.
fn outcome(calc: &DumbCalcProcessor) -> Outcome {
    let result = value(calc.get_result_term());
    if result.is_nan() || result.is_infinite() {
        Outcome::Error
    } else if let Some(t) = calc.get_intermediate_term() {
        Outcome::Intermediate(value(t))
    } else {
        Outcome::Final(result)
    }
}

fn unwrap(o: Outcome) -> f64 {
    match o {
        Outcome::Final(r) | Outcome::Intermediate(r) => r,
        Outcome::Error => panic!("error result"),
    }
}

fn eval(calc: &mut DumbCalcProcessor) {
    assert!(calc.can_push("="));
    calc.eval();
}

fn calc_push(units: Vec<&str>, res: f64) {
    let mut calc = DumbCalcProcessor::new();
    for unit in units {
        calc.push(unit).unwrap();
    }
    eval(&mut calc);
    assert_eq!(outcome(&calc), Outcome::Final(res));
}

fn parse_and_push(units: &str, res: f64) {
    let mut calc = DumbCalcProcessor::new();
    calc.parse_and_push(units).unwrap();
    eval(&mut calc);
    assert_eq!(outcome(&calc), Outcome::Final(res));
}

fn parse_and_push_near(units: &str, res: f64) {
    let mut calc = DumbCalcProcessor::new();
    calc.parse_and_push(units).unwrap();
    eval(&mut calc);
    match outcome(&calc) {
        Outcome::Final(r) => assert!((r - res).abs() <= 0.000000001, "{} != {}", r, res),
        other => panic!("{:?} for {}", other, units),
    }
}

fn calc_push_near(units: Vec<&str>, res: f64) {
    let mut calc = DumbCalcProcessor::new();
    for unit in units {
        calc.push(unit).unwrap();
    }
    eval(&mut calc);
    match outcome(&calc) {
        Outcome::Final(r) => assert!((r - res).abs() <= 0.000000001, "{} != {}", r, res),
        other => panic!("{:?}", other),
    }
}

fn parse_and_push_error(units: &str) {
    let mut calc = DumbCalcProcessor::new();
    calc.parse_and_push(units).unwrap();
    eval(&mut calc);
    assert_eq!(outcome(&calc), Outcome::Error);
}

#[test]
fn test_calc_empty() {
    let mut calc = DumbCalcProcessor::new();
    assert_eq!(outcome(&calc), Outcome::Final(0.0));
    calc.parse_and_push("123").unwrap();
    eval(&mut calc);
    assert_eq!(123.0, value(calc.get_result_term()));
    eval(&mut calc);
    assert_eq!(123.0, value(calc.get_result_term()));
    calc.reset();
    assert_eq!(0.0, value(calc.get_result_term()));
}

#[test]
fn calc_test_calc_general() {
    let mut calc = DumbCalcProcessor::new();
    calc.parse_and_push("1.5").unwrap();
    eval(&mut calc);
    assert_eq!(1.5, unwrap(outcome(&calc)));
    calc.parse_and_push("+ 2.5 * 3 - 4").unwrap();
    eval(&mut calc);
    assert_eq!(5.0, unwrap(outcome(&calc)));
}

#[test]
fn calc_test_calc_parse() {
    parse_and_push(" 2 + 2 * ( 1 + 1 ) - ( 2 + 2 ) / (1 + 1) ", 4.0);
    parse_and_push("2+3*(4+5-6)-(2+3)/(1+1)", 8.5);
    parse_and_push(" 2 + 3 * (4 + 5 - 6)", 11.0);
    parse_and_push(" (2 + 4) ", 6.0);
    parse_and_push(" 1 + 2 * 3 - 4 / 2", 5.0);
    parse_and_push(" 1 + 2 * 3 - 4", 3.0);
    parse_and_push(" 123.0 + 100 + 0.1 - 23", 200.1);
    parse_and_push(" 123.0 + 100", 223.0);
    parse_and_push(" 123.0 ", 123.0);
    parse_and_push(" -2 ", -2.0);
    parse_and_push(" +2 ", 2.0);
    parse_and_push(" *2 ", 0.0);
    parse_and_push(" /2 ", 0.0);
}

#[test]
fn calc_test_calc_non_standard() {
    parse_and_push(" ( ) ", 0.0);
    parse_and_push(" ( ", 0.0);
    parse_and_push(" ) ", 0.0);
    parse_and_push(" 2 + ( ) ", 2.0);
    parse_and_push(" 2 + (  ", 2.0);
    parse_and_push(" 2 + ) ", 2.0);
    parse_and_push(" 10 + 2 + ) ", 12.0);
    parse_and_push(" 2 * () ", 0.0);
    parse_and_push(" 10 + 2 * () ", 10.0);
    parse_and_push(" 2 () ", 0.0);
    parse_and_push(" 10 + 2 () ", 10.0);
    parse_and_push(" 2 + ( * 5) ", 2.0);
    parse_and_push(" 3 * + 4 ", 7.0);
}

#[test]
fn calc_test_calc_error() {
    parse_and_push_error(" 0 / 0 ");
    parse_and_push_error(" / () ");
}

#[test]
fn calc_test_calc_unary() {
    calc_push(vec!["1"], 1.0);
    calc_push(vec!["1", "+", "2.5"], 3.5);

    calc_push(vec!["1.5", "neg"], -1.5);
    calc_push(vec!["1.5", "neg", "+", "1.5"], 0.0);
    calc_push(vec!["1.5", "neg", "neg"], 1.5);
    calc_push(vec!["1.5", "neg", "neg", "neg"], -1.5);
    calc_push(vec!["1.5", "neg", "neg", "-", "1.5"], 0.0);
    calc_push(vec!["1.5", "neg", "-", "1.5", "neg"], 0.0);
    calc_push(vec!["50", "%"], 0.5);

    calc_push(vec!["0", "cos"], 1.0);
    calc_push(vec!["0", "sin"], 0.0);
    calc_push(vec!["0", "tan"], 0.0);
    calc_push(vec!["0", "cos", "neg"], -1.0);

    parse_and_push(" --2.5 ", -2.5);
    parse_and_push("0 cos", 1.0);
    parse_and_push("0 sin", 0.0);
    parse_and_push("0 tan", 0.0);
    parse_and_push("1 acos", 0.0);
    parse_and_push("0 asin", 0.0);
    parse_and_push("0 atan", 0.0);
    parse_and_push("1 log", 0.0);
    parse_and_push("1 ln", 0.0);
    parse_and_push("4 sqrt", 2.0);
    parse_and_push("4 square", 16.0);
    parse_and_push("2 inv", 0.5);
    parse_and_push("0 exp", 1.0);
    parse_and_push("1 exp", 1.0_f64.exp());
    parse_and_push("50%", 0.5);

    parse_and_push(" 0 cos ", 1.0);
    parse_and_push(" ( 1 - 1 ) cos * ( 2 + 1)", 3.0);
    parse_and_push(" 50% + 50 %", 1.0);
    parse_and_push(" 2 * PI ", 2.0 * std::f64::consts::PI);
    parse_and_push(" 3 * E ", 3.0 * std::f64::consts::E);
}

#[test]
fn test_calc_test_calc_general() {
    let mut calc = DumbCalcProcessor::new();
    calc.parse_and_push("1.5").unwrap();
    eval(&mut calc);
    assert_eq!(1.5, unwrap(outcome(&calc)));
    calc.parse_and_push("+ 2.5 * 3 - 4").unwrap();
    eval(&mut calc);
    assert_eq!(5.0, unwrap(outcome(&calc)));
    calc.parse_and_push("12 neg").unwrap();
    eval(&mut calc);
    assert_eq!(-12.0, unwrap(outcome(&calc)));
    calc.parse_and_push("15%").unwrap();
    eval(&mut calc);
    assert_eq!(0.15, unwrap(outcome(&calc)));
}

#[test]
fn test_calc_result_2() {
    let mut calc = DumbCalcProcessor::new();
    calc.push("(").unwrap();
    assert_eq!(0.0, unwrap(outcome(&calc)));
    calc.push("1").unwrap();
    assert_eq!(1.0, unwrap(outcome(&calc)));
    calc.push(")").unwrap();
    assert_eq!(1.0, unwrap(outcome(&calc)));

    let mut calc = DumbCalcProcessor::new();
    calc.push("(").unwrap();
    calc.push("(").unwrap();
    assert_eq!(0.0, unwrap(outcome(&calc)));
    calc.push("1").unwrap();
    assert_eq!(1.0, unwrap(outcome(&calc)));
    calc.push(")").unwrap();
    calc.push(")").unwrap();
    assert_eq!(1.0, unwrap(outcome(&calc)));
}

#[test]
fn test_calc_test_calc_parse() {
    parse_and_push_near(" 2 + 2 * ( 1 + 1 ) - ( 2 + 2 ) / (1 + 1) ", 4.0);
    parse_and_push_near("2+3*(4+5-6)-(2+3)/(1+1)", 8.5);
    parse_and_push_near(" 2 + 3 * (4 + 5 - 6)", 11.0);
    parse_and_push_near(" (2 + 4) ", 6.0);
    parse_and_push_near(" 1 + 2 * 3 - 4 / 2", 5.0);
    parse_and_push_near(" 1 + 2 * 3 - 4", 3.0);
    parse_and_push_near(" 123.0 + 100 + 0.1 - 23", 200.1);
    parse_and_push_near(" 123.0 + 100", 223.0);
    parse_and_push_near(" 123.0 ", 123.0);
    parse_and_push_near(" -2 ", -2.0);
    parse_and_push_near(" +2 ", 2.0);
    parse_and_push_near(" *2 ", 0.0);
    parse_and_push_near(" /2 ", 0.0);
}

#[test]
fn test_calc_test_calc_non_standard() {
    parse_and_push_near(" ( ) ", 0.0);
    parse_and_push_near(" ( ", 0.0);
    parse_and_push_near(" ) ", 0.0);
    parse_and_push_near(" 2 + ( ) ", 2.0);
    parse_and_push_near(" 2 + (  ", 2.0);
    parse_and_push_near(" 2 + ) ", 2.0);
    parse_and_push_near(" 10 + 2 + ) ", 12.0);
    parse_and_push_near(" 2 * () ", 0.0);
    parse_and_push_near(" 10 + 2 * () ", 10.0);
    parse_and_push_near(" 2 () ", 0.0);
    parse_and_push_near(" 10 + 2 () ", 10.0);
    parse_and_push_near(" 2 + ( * 5) ", 2.0);
    parse_and_push_near(" 3 * + 4 ", 7.0);
}

#[test]
fn test_calc_test_calc_error() {
    parse_and_push_error(" 0 / 0 ");
    parse_and_push_error(" / () ");
}

#[test]
fn test_calc_test_calc_unary() {
    calc_push_near(vec!["1"], 1.0);
    calc_push_near(vec!["1", "+", "2.5"], 3.5);

    calc_push_near(vec!["1.5", "neg"], -1.5);
    calc_push_near(vec!["1.5", "neg", "+", "1.5"], 0.0);
    calc_push_near(vec!["1.5", "neg", "neg"], 1.5);
    calc_push_near(vec!["1.5", "neg", "neg", "neg"], -1.5);
    calc_push_near(vec!["1.5", "neg", "neg", "-", "1.5"], 0.0);
    calc_push_near(vec!["1.5", "neg", "-", "1.5", "neg"], 0.0);
    calc_push_near(vec!["50", "%"], 0.5);

    calc_push_near(vec!["0", "cos"], 1.0);
    calc_push_near(vec!["0", "sin"], 0.0);
    calc_push_near(vec!["0", "tan"], 0.0);
    calc_push_near(vec!["0", "cos", "neg"], -1.0);

    parse_and_push_near(" --2.5 ", -2.5);
    parse_and_push_near("0 cos * 3", 3.0);
    parse_and_push_near("50% + 5", 5.5);
}

#[test]
fn test_calc_const() {
    parse_and_push_near(" 0 cos ", 1.0);
    parse_and_push_near(" ( 1 - 1 ) cos * ( 2 + 1)", 3.0);
    parse_and_push_near(" 50% + 50 %", 1.0);
    parse_and_push_near(" 2 * PI ", 2.0 * std::f64::consts::PI);
    parse_and_push_near(" 3 * E ", 3.0 * std::f64::consts::E);
}

#[test]
fn test_calc_backup_and_restore() {
    let mut calc = DumbCalcProcessor::new();
    assert_eq!(outcome(&calc), Outcome::Final(0.0));
    calc.push("123.4").unwrap();
    assert_eq!(123.4, unwrap(outcome(&calc)));
    let backup = calc.backup();
    calc.push("*").unwrap();
    calc.push("2").unwrap();
    eval(&mut calc);
    assert_eq!(246.8, unwrap(outcome(&calc)));
    calc.restore(backup);
    assert_eq!(123.4, unwrap(outcome(&calc)));
    calc.push("*").unwrap();
    calc.push("20").unwrap();
    eval(&mut calc);
    assert_eq!(2468.0, unwrap(outcome(&calc)));
}

#[test]
fn test_processor_builds_operands() {
    let mut calc = DumbCalcProcessor::new();
    calc.parse_and_push("1 + 2 * 3").unwrap();
    eval(&mut calc);
    match calc.get_result_term() {
        CalcTerm::Binary(Op::ADD, a, b) => {
            assert!(matches!(&**a, CalcTerm::Number(t) if t == "1"));
            assert!(matches!(&**b, CalcTerm::Binary(Op::MULTIPLY, _, _)));
        }
        other => panic!("{:?}", other),
    }
    calc.parse_and_push("- 4").unwrap();
    eval(&mut calc);
    assert!(matches!(calc.get_result_term(), CalcTerm::Binary(Op::SUBTRACT, _, _)));
    assert_eq!(value(calc.get_result_term()), 3.0);
}

#[test]
fn test_processor_errors_and_checks() {
    let mut calc = DumbCalcProcessor::new();
    assert_eq!(calc.push(" abc ").unwrap_err(), "'abc' is not a valid unit");
    assert_eq!(calc.parse_and_push("1 + x + 2").unwrap_err(), "'x' is not a valid unit");
    assert_eq!(calc.get_last_operator(), Some("+".to_string()));
    assert_eq!(unwrap(outcome(&calc)), 1.0);

    let mut calc = DumbCalcProcessor::new();
    assert!(calc.can_push("sin"));
    calc.push("sin").unwrap();
    assert!(matches!(calc.get_intermediate_term(), Some(CalcTerm::Unary(Op::SIN, t)) if matches!(**t, CalcTerm::Zero)));
    assert!(calc.can_push("="));
    assert!(calc.can_parse_and_push("+ 1"));

    // an operand right after a close bracket multiplies
    let mut calc = DumbCalcProcessor::new();
    calc.parse_and_push("1 ) 2").unwrap();
    assert!(calc.can_push("="));
    eval(&mut calc);
    assert_eq!(outcome(&calc), Outcome::Final(2.0));
}

#[test]
fn test_calc_push() {
    let mut calc = DumbCalcProcessor::new();
    assert_eq!(outcome(&calc), Outcome::Final(0.0));
    calc.push("123").unwrap();
    eval(&mut calc);
    assert_eq!(123.0, unwrap(outcome(&calc)));
    eval(&mut calc);
    assert_eq!(123.0, unwrap(outcome(&calc)));
    calc.reset();
    assert_eq!(0.0, unwrap(outcome(&calc)));
    calc.push("777").unwrap();
    eval(&mut calc);
    assert_eq!(777.0, unwrap(outcome(&calc)));
    calc.push("neg").unwrap();
    eval(&mut calc);
    assert_eq!(-777.0, unwrap(outcome(&calc)));
    calc.reset();
    calc.push("15").unwrap();
    calc.push("%").unwrap();
    assert_eq!(0.15, unwrap(outcome(&calc)));
}

#[test]
fn test_calc_result() {
    let mut calc = DumbCalcProcessor::new();
    calc.push("1").unwrap();
    assert_eq!(1.0, unwrap(outcome(&calc)));
    calc.push("+").unwrap();
    assert_eq!(1.0, unwrap(outcome(&calc)));
    calc.push("2").unwrap();
    assert_eq!(2.0, unwrap(outcome(&calc)));
    calc.push("*").unwrap();
    assert_eq!(2.0, unwrap(outcome(&calc)));
    calc.push("3").unwrap();
    assert_eq!(3.0, unwrap(outcome(&calc)));
    calc.push("-").unwrap();
    assert_eq!(7.0, unwrap(outcome(&calc)));
    calc.push("1").unwrap();
    assert_eq!(1.0, unwrap(outcome(&calc)));
    calc.push("+").unwrap();
    assert_eq!(6.0, unwrap(outcome(&calc)));
    calc.push("2").unwrap();
    assert_eq!(2.0, unwrap(outcome(&calc)));
    calc.push("square").unwrap();
    assert_eq!(4.0, unwrap(outcome(&calc)));
    eval(&mut calc);
    assert_eq!(outcome(&calc), Outcome::Final(10.0));
}

#[test]
fn test_processor_brackets_and_operators() {
    let mut calc = DumbCalcProcessor::new();
    calc.parse_and_push("( ( 1 + (").unwrap();
    assert_eq!(calc.count_opened_brackets(), 3);
    assert_eq!(calc.get_last_operator(), None);
    calc.push(")").unwrap();
    assert_eq!(calc.count_opened_brackets(), 2);
    calc.push("*").unwrap();
    assert_eq!(calc.get_last_operator(), Some("*".to_string()));
    calc.push("sqrt").unwrap();
    assert_eq!(calc.get_last_operator(), Some("sqrt".to_string()));
    assert!(DumbCalcProcessor::is_unary_operator("neg"));
    assert!(!DumbCalcProcessor::is_unary_operator("*"));
}

#[test]
fn test_calc_op() {
    parse_and_push("1 neg", -1.0);
    parse_and_push("1 neg abs", 1.0);
    parse_and_push("0 cos", 1.0);
    parse_and_push("0 sin", 0.0);
    parse_and_push("0 tan", 0.0);
    parse_and_push("1 acos", 0.0);
    parse_and_push("0 asin", 0.0);
    parse_and_push("0 atan", 0.0);
    parse_and_push("1 log", 0.0);
    parse_and_push("1 ln", 0.0);
    parse_and_push("4 sqrt", 2.0);
    parse_and_push("4 square", 16.0);
    parse_and_push("2 pow10", 100.0);
    parse_and_push("2 inv", 0.5);
    parse_and_push("0 exp", 1.0);
    parse_and_push("1 exp", 1.0_f64.exp());
    parse_and_push("50%", 0.5);

    parse_and_push("10 ^ 2", 100.0);
}

#[test]
fn test_power_binds_tighter() {
    parse_and_push("2 * 3 ^ 2", 18.0);
    parse_and_push("3 ^ 2 + 1", 10.0);
    assert!(DumbCalcProcessor::is_unary_operator("pow10"));
    assert!(!DumbCalcProcessor::is_unary_operator("^"));
    assert_eq!(Op::POW.get_priority(), rusty_dumb_tools::calc::OpPriority::BINARY_POW);
}

#[test]
fn test_calc_implicit_op() {
    parse_and_push("2(3)4", 24.0);
    parse_and_push("2(1+1)", 4.0);
    parse_and_push("(1+1)2", 4.0);
    parse_and_push("8/2(1+3)", 1.0);
    parse_and_push("8/(1+3)2", 1.0);
    parse_and_push("(1+2)(3+4)", 21.0);
}
