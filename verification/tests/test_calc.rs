use rusty_dumb_tools::calc::{
    Op, OpPriority, UnitKind, _parse_units_from_chars, _parse_units_from_str, _to_next_unit_token,
    unit_kind_of, DumbCalcProcessor,
};

fn units(s: &str) -> Vec<String> {
    _parse_units_from_str(s).unwrap()
}

#[test]
fn test_parse_units() {
    assert_eq!(
        units(" 2 + 2 * ( 1 + 1 ) - ( 2 + 2 ) / (1 + 1) "),
        vec!["2", "+", "2", "*", "(", "1", "+", "1", ")", "-", "(", "2", "+", "2", ")", "/", "(", "1", "+", "1", ")"]
    );
    assert_eq!(units("2+3*(4+5-6)"), vec!["2", "+", "3", "*", "(", "4", "+", "5", "-", "6", ")"]);
    assert_eq!(units(" 123.0 + 100 + 0.1 - 23"), vec!["123.0", "+", "100", "+", "0.1", "-", "23"]);
    assert_eq!(units(" --2.5 "), vec!["-", "-", "2.5"]);
    assert_eq!(units("50%"), vec!["50", "%"]);
    assert_eq!(units(" ( 1 - 1 ) cos * ( 2 + 1)"), vec!["(", "1", "-", "1", ")", "cos", "*", "(", "2", "+", "1", ")"]);
    assert_eq!(units("1 ="), vec!["1", "="]);
    assert!(units("   ").is_empty());
    let chars: Vec<char> = " 2 * PI ".chars().collect();
    assert_eq!(_parse_units_from_chars(&chars).unwrap(), vec!["2", "*", "PI"]);
}

#[test]
fn test_next_unit_token() {
    let chars: Vec<char> = "  12+x".chars().collect();
    assert_eq!(_to_next_unit_token(0, &chars), Some((2, 4)));
    assert_eq!(_to_next_unit_token(4, &chars), Some((4, 5)));
    assert_eq!(_to_next_unit_token(5, &chars), Some((5, 6)));
    assert_eq!(_to_next_unit_token(6, &chars), Some((6, 6)));
    assert_eq!(_to_next_unit_token(7, &chars), None);
}

#[test]
fn test_op_priority() {
    assert_eq!(Op::ADD.get_priority(), OpPriority::BINARY_AM);
    assert_eq!(Op::DIVIDE.get_priority(), OpPriority::BINARY_MD);
    assert_eq!(Op::SIN.get_priority(), OpPriority::UNARY);
    assert!(Op::MULTIPLY.get_order() > Op::SUBTRACT.get_order());
    assert!(Op::NEGATE.get_order() > Op::MULTIPLY.get_order());
    assert!(Op::PERCENT.is_unary() && !Op::PERCENT.is_binary());
    assert!(Op::ADD.is_binary() && !Op::ADD.is_unary());
    assert_eq!(Op::INVERSE.to_string(), "inv");
    assert_eq!(Op::DIVIDE.to_string(), "/");
}

#[test]
fn test_unit_kind() {
    assert_eq!(unit_kind_of(" ( "), UnitKind::OpenBracket);
    assert_eq!(unit_kind_of(")"), UnitKind::CloseBracket);
    assert_eq!(unit_kind_of("="), UnitKind::Equals);
    assert_eq!(unit_kind_of("neg"), UnitKind::Operator(Op::NEGATE));
    assert_eq!(unit_kind_of("%"), UnitKind::Operator(Op::PERCENT));
    assert_eq!(unit_kind_of("PI"), UnitKind::Pi);
    assert_eq!(unit_kind_of("E"), UnitKind::E);
    assert_eq!(unit_kind_of("-5.67"), UnitKind::Number);
    assert_eq!(unit_kind_of("1e10"), UnitKind::Number);
    assert_eq!(unit_kind_of(".5"), UnitKind::Number);
    assert_eq!(unit_kind_of("5."), UnitKind::Number);
    assert_eq!(unit_kind_of("inf"), UnitKind::Number);
    assert_eq!(unit_kind_of("NaN"), UnitKind::Number);
    assert_eq!(unit_kind_of("."), UnitKind::Invalid);
    assert_eq!(unit_kind_of("1e"), UnitKind::Invalid);
    assert_eq!(unit_kind_of("abc"), UnitKind::Invalid);
    for text in ["-5.67", "1e10", ".5", "5.", "inf", "NaN", ".", "1e", "abc", "+1E-3", "1.2.3"] {
        assert_eq!(unit_kind_of(text) == UnitKind::Number, text.parse::<f64>().is_ok(), "{}", text);
    }
    assert!(DumbCalcProcessor::is_unary_operator("sqrt"));
    assert!(!DumbCalcProcessor::is_unary_operator("+"));
    assert!(!DumbCalcProcessor::is_unary_operator("x"));
}

#[test]
fn test_units_rejoin_to_input_without_whitespace() {
    for s in [" 1 + ( 23*4 ) ", "2+3*(4+5-6)-(2+3)/(1+1)", "  sin 30 =", "\t1.5e3 %\n7", "   "] {
        let units = _parse_units_from_str(s).unwrap();
        let joined: String = units.concat();
        let expected: String = s.chars().filter(|c| !c.is_whitespace()).collect();
        assert_eq!(joined, expected);
    }
}
