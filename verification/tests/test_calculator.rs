use rusty_dumb_tools::calc::{CalcTerm, Op};
use rusty_dumb_tools::calculator::{fit_display, AngleMode, DumbCalculator, DumbCalculatorSettings, EnteringMode};

#[test]
fn test_calculator() {}

#[test]
fn test_history_normal() {
    let mut calculator = DumbCalculator::new();
    calculator.push_chars("12.345").unwrap();
    assert_eq!(calculator.get_history_string(false).unwrap(), "12.345");

    calculator.reset();
    calculator.push_chars(" 12.34 + 5.67 ").unwrap();
    assert_eq!(calculator.get_history_string(false).unwrap(), "12.34+5.67");

    calculator.reset();
    calculator.push_chars(" 2 * ( 3 + 4 - 1) / 10").unwrap();
    assert_eq!(calculator.get_history_string(false).unwrap(), "2*(3+4-1)/10");
    calculator.reset();
}

#[test]
fn test_history_unary() {
    let mut calculator = DumbCalculator::new();
    calculator.push_chars("123.456%").unwrap();
    assert_eq!(calculator.get_history_string(false).unwrap(), "123.456%");

    calculator.reset();
    calculator.push_chars("123.456").unwrap();
    calculator.push("neg").unwrap();
    assert_eq!(calculator.get_history_string(false).unwrap(), "neg(123.456)");

    calculator.reset();
    calculator.push_chars(" 12 + 34 ").unwrap();
    calculator.push("neg").unwrap();
    assert_eq!(calculator.get_history_string(false).unwrap(), "12+neg(34)");

    calculator.reset();
    calculator.push_chars("123").unwrap();
    calculator.push("neg").unwrap();
    calculator.push("neg").unwrap();
    assert_eq!(calculator.get_history_string(false).unwrap(), "neg(neg(123))");

    calculator.reset();
    calculator.push_chars(" 10 * 123").unwrap();
    calculator.push("sin").unwrap();
    calculator.push("neg").unwrap();
    calculator.push_chars(" * 20").unwrap();
    calculator.push("cos").unwrap();
    assert_eq!(calculator.get_history_string(false).unwrap(), "10*neg(sin(123))*cos(20)");

    calculator.reset();
    calculator.push_chars(" 10 + ( 123").unwrap();
    calculator.push("sin").unwrap();
    calculator.push_chars(" * 20) * (1 + 2 + 3").unwrap();
    calculator.push("neg").unwrap();
    calculator.push_chars(")").unwrap();
    assert_eq!(calculator.get_history_string(false).unwrap(), "10+(sin(123)*20)*(1+2+neg(3))");
}

#[test]
fn test_history_unary_2() {
    let mut calculator = DumbCalculator::new();
    calculator.push_chars("(1)").unwrap();
    calculator.push("neg").unwrap();
    assert_eq!(calculator.get_history_string(false).unwrap(), "neg(1)");

    calculator.reset();
    calculator.push_chars("2 * ( 3 + 4 ").unwrap();
    calculator.push("sin").unwrap();
    calculator.push_chars(" ) + 123 ").unwrap();
    calculator.push("cos").unwrap();
    assert_eq!(calculator.get_history_string(false).unwrap(), "2*(3+sin(4))+cos(123)");
}

#[test]
fn test_history_unary_finalized() {
    let mut calculator = DumbCalculator::new();
    calculator.push_chars("(1)").unwrap();
    calculator.push("neg").unwrap();
    calculator.push("=").unwrap();
    assert_eq!(calculator.get_history_string(false).unwrap(), "{neg(1)}");
    calculator.push("neg").unwrap();
    assert_eq!(calculator.get_history_string(false).unwrap(), "neg({neg(1)})");
}

#[test]
fn test_history_unary_bug() {
    let mut calculator = DumbCalculator::new();
    calculator.push_chars("((2)").unwrap();
    calculator.push("neg").unwrap();
    calculator.push_chars(")").unwrap();
    calculator.push("neg").unwrap();
    assert_eq!(calculator.get_history_string(false).unwrap(), "neg(neg(2))");

    calculator.reset();
    calculator.push_chars("(((3+4)").unwrap();
    calculator.push("sin").unwrap();
    calculator.push_chars(")+5").unwrap();
    calculator.push("cos").unwrap();
    calculator.push_chars(")").unwrap();
    calculator.push("neg").unwrap();
    assert_eq!(calculator.get_history_string(false).unwrap(), "neg((sin(3+4))+cos(5))");
}

#[test]
fn test_history_better_symbols() {
    let mut calculator = DumbCalculator::new();
    calculator.push_chars("2*3-4/5").unwrap();
    assert_eq!(calculator.get_history_string(true).unwrap(), "2×3−4÷5");

    calculator.reset();
    calculator.push_chars("12").unwrap();
    calculator.push("neg").unwrap();
    assert_eq!(calculator.get_history_string(true).unwrap(), "-12");

    calculator.reset();
    calculator.push_chars("(1+2)").unwrap();
    calculator.push("square").unwrap();
    assert_eq!(calculator.get_history_string(true).unwrap(), "(1+2)²");

    calculator.reset();
    calculator.push_chars("50%").unwrap();
    assert_eq!(calculator.get_history_string(true).unwrap(), "50%");

    calculator.reset();
    calculator.push("PI").unwrap();
    calculator.push("sqrt").unwrap();
    assert_eq!(calculator.get_history_string(true).unwrap(), "√π");
}

#[test]
fn test_history_disabled() {
    let mut calculator = DumbCalculator::new_min();
    calculator.push_chars("1+2").unwrap();
    assert!(calculator.get_history().is_none());
    assert!(calculator.get_history_string(false).is_none());

    let mut calculator = DumbCalculator::new_with_settings(DumbCalculatorSettings { enable_undo: true, enable_history: false });
    calculator.push_chars("1+2").unwrap();
    assert!(calculator.get_history().is_none());
    let mut calculator = DumbCalculator::new_with_settings(DumbCalculatorSettings::default());
    calculator.push_chars("1 + 2").unwrap();
    let history: Vec<String> = calculator.get_history().unwrap().to_vec();
    assert_eq!(history, vec!["1", "+", "2"]);
}

#[test]
fn test_calculator_keys_reach_the_calculation() {
    let mut calculator = DumbCalculator::new();
    calculator.push_chars("1.02").unwrap();
    assert!(matches!(calculator.get_entering(), EnteringMode::Decimal(1, d) if d.as_str() == "02"));
    assert_eq!(calculator.get_calc().count_opened_brackets(), 0);
    calculator.push("*").unwrap();
    assert!(matches!(calculator.get_entering(), EnteringMode::Not));
    assert_eq!(calculator.get_last_operator(), Some("*".to_string()));
    match calculator.get_calc().get_intermediate_term() {
        Some(CalcTerm::Number(text)) => assert_eq!(text, "1.02"),
        other => panic!("unexpected {:?}", other),
    }
    calculator.push_chars("(2+(").unwrap();
    assert_eq!(calculator.count_opened_brackets(), 2);
    assert_eq!(calculator.get_last_operator(), None);
}

#[test]
fn test_calculator_errors_and_checks() {
    let mut calculator = DumbCalculator::new();
    let err = calculator.push("x").unwrap_err();
    assert_eq!(err.to_string(), "'x' is not a valid unit");
    assert_eq!(calculator.get_history().unwrap().len(), 1);
    assert!(!calculator.can_push("5x"));
    assert!(calculator.can_push("9"));
    assert!(calculator.can_push("90"));
    assert!(calculator.can_push("sin"));
    let mut unary_first = DumbCalculator::new();
    unary_first.push("sin").unwrap();
    assert_eq!(unary_first.get_history_string(false).unwrap(), "_sin_");
    assert!(unary_first.can_push("+"));
    assert!(unary_first.can_push("="));
    assert!(unary_first.can_push("1"));
    // an operand right after a close bracket multiplies
    let mut after_bracket = DumbCalculator::new();
    after_bracket.push_chars("1)2").unwrap();
    assert!(after_bracket.can_push("="));
    assert!(after_bracket.can_push_chars("+3="));
    assert!(calculator.can_push_chars("1+2="));
    assert!(calculator.can_push_chars("1 2=x"));
    let err = calculator.push_chars("1 x 2").unwrap_err();
    assert_eq!(err.to_string(), "'x' is not a valid unit");
}

#[test]
fn test_calculator_undo_steps() {
    let mut calculator = DumbCalculator::new();
    calculator.push_chars("1+2").unwrap();
    calculator.undo();
    assert!(matches!(calculator.get_entering(), EnteringMode::Not));
    assert_eq!(calculator.get_history_string(false).unwrap(), "1+");
    assert_eq!(calculator.get_last_operator(), Some("+".to_string()));
    calculator.undo();
    assert!(matches!(calculator.get_entering(), EnteringMode::Integer(1)));
    assert_eq!(calculator.get_last_operator(), None);
    calculator.undo();
    assert!(matches!(calculator.get_entering(), EnteringMode::Not));
    assert_eq!(calculator.get_history().unwrap().len(), 0);
    calculator.undo();
    assert!(matches!(calculator.get_entering(), EnteringMode::Not));
    assert!(calculator.get_calc().get_intermediate_term().is_none());

    let mut calculator = DumbCalculator::new_min();
    calculator.push_chars("12").unwrap();
    calculator.undo();
    assert!(matches!(calculator.get_entering(), EnteringMode::Integer(12)));
}

#[test]
fn test_display_error_fitted() {
    assert_eq!(fit_display("Error", 1), "E");
    assert_eq!(fit_display("Error", 2), " E");
    assert_eq!(fit_display("Error", 3), "Err");
    assert_eq!(fit_display("Error", 4), " Err");
    assert_eq!(fit_display("Error", 5), "Error");
    assert_eq!(fit_display("Error", 6), " Error");
    assert_eq!(fit_display("0", 5), "    0");
    assert_eq!(fit_display("123456.7", 4), "~~~~");
    assert_eq!(fit_display("123456.7", 9), " 123456.7");
}

#[test]
fn test_entering() {
    let e = EnteringMode::Not;
    let (e, num) = e.enter("1");
    assert!(num.is_none());
    let (e, _) = e.enter("2");
    let (e, _) = e.enter(".");
    let (e, _) = e.enter("0");
    let (e, _) = e.enter("5");
    let (e, num) = e.enter("+");
    assert_eq!(num, Some("12.05".to_string()));
    assert!(matches!(e, EnteringMode::Not));

    let (e, _) = EnteringMode::Not.enter(".");
    let (_, num) = e.enter("=");
    assert_eq!(num, Some("0.0".to_string()));

    let mut e = EnteringMode::Not;
    for _ in 0..4 {
        e = e.enter("0").0;
    }
    assert!(matches!(e, EnteringMode::Integer(0)));

    let mut e = EnteringMode::Integer(429496729);
    e = e.enter("6").0;
    assert!(matches!(e, EnteringMode::Error));
    let (e, num) = e.enter("*");
    assert!(matches!(e, EnteringMode::Error));
    assert!(num.is_none());
}

/// What an operand comes to in `f64` arithmetic, with angles in degrees or in
/// radians.
fn value(term: &CalcTerm, degrees: bool) -> f64 {
    let angle_in = |a: f64| if degrees { a.to_radians() } else { a };
    let angle_out = |a: f64| if degrees { a.to_degrees() } else { a };
    match term {
        CalcTerm::Number(text) => text.parse::<f64>().unwrap(),
        CalcTerm::Pi => std::f64::consts::PI,
        CalcTerm::E => std::f64::consts::E,
        CalcTerm::Zero => 0.0,
        CalcTerm::Unary(op, a) => {
            let a = value(a, degrees);
            match op {
                Op::NEGATE => -a,
                Op::SIN => angle_in(a).sin(),
                Op::COS => angle_in(a).cos(),
                Op::TAN => angle_in(a).tan(),
                Op::ASIN => angle_out(a.asin()),
                Op::ACOS => angle_out(a.acos()),
                Op::ATAN => angle_out(a.atan()),
                Op::LOG => a.log10(),
                Op::LN => a.ln(),
                Op::SQRT => a.sqrt(),
                Op::SQUARE => a * a,
                Op::INVERSE => 1.0 / a,
                Op::EXP => a.exp(),
                Op::MOD => a % 1.0,
                Op::ABS => a.abs(),
                Op::PERCENT => a / 100.0,
                Op::POW10 => 10_f64.powf(a),
                _ => panic!("{:?} is not unary", op),
            }
        }
        CalcTerm::Binary(op, a, b) => {
            let (a, b) = (value(a, degrees), value(b, degrees));
            match op {
                Op::ADD => a + b,
                Op::SUBTRACT => a - b,
                Op::MULTIPLY => a * b,
                Op::DIVIDE => a / b,
                Op::POW => a.powf(b),
                _ => panic!("{:?} is not binary", op),
            }
        }
    }
}

/// A number written to fit a width: with fewer decimals, else with an exponent
/// (with as many decimals as fit); a value (not one being entered) that would
/// show as only zeros is written with an exponent where that fits, else as `0`.
fn shorten(mut shown: String, result: f64, width: usize, entering: bool) -> String {
    if shown.len() > width {
        if let Some(dot) = shown.find('.') {
            let places = width as i32 - dot as i32 - 1;
            if places > 0 {
                shown = format!("{:.*}", places as usize, result);
            }
        }
        let mut places = width as i32 - if result < 0.0 { 5 } else { 4 };
        while shown.len() > width && places > 0 {
            shown = format!("{:.*e}", places as usize, result);
            places -= 1;
        }
    }
    let looks_zero = shown.len() == width && shown.replace(['-', '.', '0'], "").trim().is_empty();
    if !entering && looks_zero {
        let places = width as i32 - if result < 0.0 { 6 } else { 5 };
        let e = if places > 0 { format!("{:.*e}", places as usize, result) } else { String::new() };
        shown = if places > 0 && e.len() <= width { e } else { "0".to_string() };
    }
    shown
}

/// The display of the calculator: the number being entered, or the value of
/// the calculation so far, shortened to fit the width where one is given;
/// `Error` for a value that is not a number.
fn display_text(calculator: &DumbCalculator, width: Option<usize>) -> String {
    let degrees = calculator.get_angle_mode() == AngleMode::Degrees;
    let (shown, result) = match calculator.get_entering() {
        EnteringMode::Not => {
            let calc = calculator.get_calc();
            let result = value(calc.get_result_term(), degrees);
            if result.is_nan() || result.is_infinite() {
                return "Error".to_string();
            }
            let result = match calc.get_intermediate_term() {
                Some(t) => value(t, degrees),
                None => result,
            };
            (format!("{}", result), result)
        }
        EnteringMode::Integer(i) => (format!("{}", *i as f64), *i as f64),
        EnteringMode::Decimal(i, d) => {
            if d.is_empty() {
                (format!("{}.", i), *i as f64)
            } else {
                let dv = d.parse::<u64>().unwrap() as f64 / 10_f64.powf(d.len() as f64);
                (format!("{}.{}", i, d), *i as f64 + dv)
            }
        }
        EnteringMode::Error => return "Error".to_string(),
    };
    let entering = !matches!(calculator.get_entering(), EnteringMode::Not);
    match width {
        Some(w) => shorten(shown, result, w, entering),
        None => shown,
    }
}

fn get_display(calculator: &DumbCalculator) -> String {
    display_text(calculator, None)
}

fn get_display_sized(calculator: &DumbCalculator, width: usize) -> String {
    fit_display(&display_text(calculator, Some(width)), width)
}

#[test]
fn test_calculator_display() {
    let mut calculator = DumbCalculator::new();
    assert_eq!(get_display_sized(&calculator, 5), "    0");

    let _ = calculator.push_chars(".123");
    assert_eq!(get_display_sized(&calculator, 5), "0.123");

    let _ = calculator.push_chars("45");
    assert_eq!(get_display_sized(&calculator, 5), "0.123");

    let _ = calculator.push("neg");
    assert_eq!(get_display_sized(&calculator, 5), "-0.12");
}

#[test]
fn test_calculator_display_error() {
    let mut calculator = DumbCalculator::new();
    assert_eq!(get_display_sized(&calculator, 5), "    0");

    let _ = calculator.push_chars("1/0=");
    assert_eq!(get_display_sized(&calculator, 1), "E");
    assert_eq!(get_display_sized(&calculator, 2), " E");
    assert_eq!(get_display_sized(&calculator, 3), "Err");
    assert_eq!(get_display_sized(&calculator, 4), " Err");
    assert_eq!(get_display_sized(&calculator, 5), "Error");
    assert_eq!(get_display_sized(&calculator, 6), " Error");
}

#[test]
fn test_calculator_entering() {
    let mut calculator = DumbCalculator::new();
    let _ = calculator.push_chars("0000");
    assert_eq!(get_display(&calculator), "0");

    let mut calculator = DumbCalculator::new();
    let _ = calculator.push_chars("00.0");
    assert_eq!(get_display(&calculator), "0.0");
    let _ = calculator.push("=");
    assert_eq!(get_display(&calculator), "0");
}

#[test]
fn test_calculator_bug() {
    let mut calculator = DumbCalculator::new();
    let _ = calculator.push("2");
    let _ = calculator.push("square");
    let _ = calculator.push_chars("(1+3)=");
    assert_eq!(get_display(&calculator), "16");
}

#[test]
fn test_calculator_push_undo() {
    let mut calculator = DumbCalculator::new();
    let _ = calculator.push_chars("123");
    let _ = calculator.push("undo");
    let _ = calculator.push("undo");
    assert_eq!(get_display(&calculator), "1");
    let _ = calculator.push("*");
    let _ = calculator.push("undo");
    let _ = calculator.push("+");
    let _ = calculator.push_chars("2");
    let _ = calculator.push("=");
    assert_eq!(get_display(&calculator), "3");
}

#[test]
fn test_calculator_display_e() {
    let mut calculator = DumbCalculator::new();
    assert_eq!(get_display_sized(&calculator, 5), "    0");

    let _ = calculator.push_chars("99.123");
    assert_eq!(get_display_sized(&calculator, 5), "99.12");
    assert_eq!(get_display_sized(&calculator, 6), "99.123");
    assert_eq!(get_display_sized(&calculator, 7), " 99.123");

    let _ = calculator.push("neg");
    assert_eq!(get_display_sized(&calculator, 5), "-99.1");
    assert_eq!(get_display_sized(&calculator, 6), "-99.12");
    assert_eq!(get_display_sized(&calculator, 7), "-99.123");
    assert_eq!(get_display_sized(&calculator, 8), " -99.123");

    calculator.reset();
    let _ = calculator.push_chars("123456.7");
    assert_eq!(get_display_sized(&calculator, 4), "~~~~");
    assert_eq!(get_display_sized(&calculator, 5), "1.2e5");
    assert_eq!(get_display_sized(&calculator, 6), "1.23e5");
    assert_eq!(get_display_sized(&calculator, 7), "1.235e5");
    assert_eq!(get_display_sized(&calculator, 8), "123456.7");
    assert_eq!(get_display_sized(&calculator, 9), " 123456.7");

    calculator.reset();
    let _ = calculator.push_chars("123456.7");
    let _ = calculator.push("neg");
    assert_eq!(get_display_sized(&calculator, 6), "-1.2e5");
    assert_eq!(get_display_sized(&calculator, 7), "-1.23e5");
    assert_eq!(get_display_sized(&calculator, 8), "-1.235e5");
    assert_eq!(get_display_sized(&calculator, 9), "-123456.7");
    assert_eq!(get_display_sized(&calculator, 10), " -123456.7");

    calculator.reset();
    let _ = calculator.push_chars("0.00001");
    assert_eq!(get_display_sized(&calculator, 6), "0.0000");
    assert_eq!(get_display_sized(&calculator, 7), "0.00001");
    assert_eq!(get_display_sized(&calculator, 8), " 0.00001");

    calculator.reset();
    let _ = calculator.push_chars("0.00001");
    let _ = calculator.push("neg");
    assert_eq!(get_display_sized(&calculator, 7), "-1.0e-5");
    assert_eq!(get_display_sized(&calculator, 8), "-0.00001");
    assert_eq!(get_display_sized(&calculator, 9), " -0.00001");

    let mut calculator = DumbCalculator::new();
    let _ = calculator.push_chars("123456.7");
    let _ = calculator.push("=");
    assert_eq!(get_display_sized(&calculator, 6), "1.23e5");
}

#[test]
fn test_calculator_display_e_2() {
    let mut calculator = DumbCalculator::new();
    let _ = calculator.push_chars("0.00001");
    assert_eq!(get_display_sized(&calculator, 6), "0.0000");
    let _ = calculator.push("=");
    assert_eq!(get_display_sized(&calculator, 6), "1.0e-5");
}

#[test]
fn test_calculator_display_big_e() {
    let mut calculator = DumbCalculator::new();
    let _ = calculator.push_chars("1000000*1000000");
    let _ = calculator.push("=");
    assert_eq!(get_display_sized(&calculator, 8), "1.000e12");
    let _ = calculator.push_chars("*10");
    let _ = calculator.push("=");
    assert_eq!(get_display_sized(&calculator, 8), "1.000e13");
    let _ = calculator.push_chars("*123456.789");
    let _ = calculator.push("=");
    assert_eq!(get_display_sized(&calculator, 8), "1.235e18");
}

#[test]
fn test_calculator_display_small_e() {
    let mut calculator = DumbCalculator::new();
    let _ = calculator.push_chars("0.0001*0.0001");
    let _ = calculator.push("=");
    assert_eq!(get_display_sized(&calculator, 10), "0.00000001");
    assert_eq!(get_display_sized(&calculator, 9), "1.0000e-8");
    assert_eq!(get_display_sized(&calculator, 6), "1.0e-8");
    assert_eq!(get_display_sized(&calculator, 5), "    0");

    let mut calculator = DumbCalculator::new();
    let _ = calculator.push_chars("0.0001*0.0001");
    let _ = calculator.push("=");
    assert_eq!(get_display_sized(&calculator, 10), "0.00000001");
    let _ = calculator.push_chars("*0.1");
    let _ = calculator.push("=");
    assert_eq!(get_display_sized(&calculator, 10), "1.00000e-9");
    let _ = calculator.push_chars("*0.1");
    let _ = calculator.push("=");
    assert_eq!(get_display_sized(&calculator, 10), "         0");
    let _ = calculator.push_chars("*10");
    let _ = calculator.push("=");
    assert_eq!(get_display_sized(&calculator, 10), "1.00000e-9");
}

#[test]
fn test_calculator_angle_mode() {
    let mut calculator = DumbCalculator::new();
    let _ = calculator.use_angle_mode("deg");
    let _ = calculator.push_chars("90");
    let _ = calculator.push("cos");
    assert_eq!(get_display_sized(&calculator, 5), "    0");

    let mut calculator = DumbCalculator::new();
    let _ = calculator.use_angle_mode("rad");
    let _ = calculator.push_chars("0.5");
    let _ = calculator.push("cos");
    assert_eq!(get_display_sized(&calculator, 5), "0.878");
}

#[test]
fn test_calculator_memory() {
    let mut calculator = DumbCalculator::new();
    let _ = calculator.push("2");
    let _ = calculator.push("ms");
    let _ = calculator.push_chars("+3=");
    assert_eq!(get_display(&calculator), "5");
    let _ = calculator.push("m+");
    let _ = calculator.push_chars("*2=");
    assert_eq!(get_display(&calculator), "10");
    let _ = calculator.push("mr");
    assert_eq!(get_display(&calculator), "7");
    let _ = calculator.push_chars("*3=");
    assert_eq!(get_display(&calculator), "21");
    let _ = calculator.push("m-");
    let _ = calculator.push("mr");
    assert_eq!(get_display(&calculator), "-14");
    let _ = calculator.push("mc");
    let _ = calculator.push("mr");
    assert_eq!(get_display(&calculator), "0");
}

#[test]
fn test_calculator_bug_2() {
    let mut calculator = DumbCalculator::new();
    let _ = calculator.push("90");
    let _ = calculator.push("cos");
    assert_eq!(get_display_sized(&calculator, 5), "    0");
}

#[test]
fn test_calculator_memory_and_angle_mode_state() {
    let mut calculator = DumbCalculator::new();
    assert_eq!(calculator.get_angle_mode(), AngleMode::Degrees);
    assert!(calculator.use_angle_mode("grad").is_err());
    assert!(calculator.use_angle_mode("rad").is_ok());
    assert_eq!(calculator.get_angle_mode(), AngleMode::Radians);
    assert!(calculator.get_memory().is_none());
    let _ = calculator.push_chars("12.5");
    let _ = calculator.push("ms");
    assert!(matches!(calculator.get_memory(), Some(CalcTerm::Number(n)) if n == "12.5"));
    calculator.reset();
    assert!(calculator.get_memory().is_none());
    assert_eq!(calculator.get_angle_mode(), AngleMode::Radians);
}
