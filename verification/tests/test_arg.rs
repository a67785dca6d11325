use rusty_dumb_tools::arg::{
    arg_key_of, compose_usage, scan_args, ArgKey, ArgMultiMode, ArgNature, ArgParserSettings, ArgShape, ScanEnd, ScanPlan,
};

#[test]
fn test_arg() {}

fn key(name_or_flags: &[&str]) -> ArgKey {
    arg_key_of(&name_or_flags.iter().map(|s| s.to_string()).collect()).unwrap()
}

fn shape(name_or_flags: &[&str], nature: ArgNature, multi_mode: ArgMultiMode) -> ArgShape {
    ArgShape { key: key(name_or_flags), nature, multi_mode }
}

fn scan(shapes: &Vec<ArgShape>, ins: &[&str], allow_none: bool) -> ScanPlan {
    scan_args(shapes, &ins.iter().map(|s| s.to_string()).collect(), allow_none)
}

fn error_of(plan: &ScanPlan) -> String {
    match &plan.end {
        ScanEnd::Error(m) => m.clone(),
        _ => String::new(),
    }
}

fn steps_of(plan: &ScanPlan) -> Vec<(usize, Option<String>, Vec<String>)> {
    plan.steps.iter().map(|s| (s.arg_idx, s.value.clone(), s.rest.clone())).collect()
}

#[test]
fn test_arg_keys() {
    assert!(matches!(key(&["name"]), ArgKey::Name(n) if n == "name"));
    match key(&["-v", "--verbose"]) {
        ArgKey::Flags(n, fs) => {
            assert_eq!(n, "verbose");
            assert_eq!(fs, vec!["-v", "--verbose"]);
        }
        _ => panic!("flags expected"),
    }
    match key(&["-f"]) {
        ArgKey::Flags(n, _) => assert_eq!(n, "f"),
        _ => panic!("flags expected"),
    }
    assert_eq!(key(&["--"]).get_a_name(), "--");
    let bad = |fs: &[&str]| arg_key_of(&fs.iter().map(|s| s.to_string()).collect()).err().unwrap();
    assert_eq!(bad(&[]), "must provide a name or some flags");
    assert_eq!(bad(&["-a", "b"]), "flag [b] must start with '-'");
    assert_eq!(bad(&["---a"]), "flag [---a] cannot start with more than 2 '-'");
    let settings = ArgParserSettings::default();
    assert!(settings.program_name.is_none() && settings.description.is_none() && !settings.allow_none);
}

#[test]
fn test_missing_args() {
    let shapes = vec![
        shape(&["i32"], ArgNature::Regular, ArgMultiMode::Single),
        shape(&["miss"], ArgNature::Regular, ArgMultiMode::Single),
    ];
    let plan = scan(&shapes, &["123"], false);
    assert_eq!(error_of(&plan), "argument [miss] not provided");
    let plan = scan(&shapes, &["123"], true);
    assert!(matches!(plan.end, ScanEnd::Done));
}

#[test]
fn test_missing_arg_flags() {
    let shapes = vec![
        shape(&["-miss"], ArgNature::Regular, ArgMultiMode::Single),
        shape(&["i32"], ArgNature::Regular, ArgMultiMode::Single),
    ];
    assert_eq!(error_of(&scan(&shapes, &["123"], false)), "argument [-miss] not provided");
}

#[test]
fn test_invalid_arg() {
    let shapes = vec![shape(&["i32"], ArgNature::Regular, ArgMultiMode::Single)];
    assert_eq!(error_of(&scan(&shapes, &["123", "456"], false)), "unacceptable input argument [456]");
    assert_eq!(error_of(&scan(&shapes, &["-x"], false)), "unknown input argument [-x]");
    let shapes = vec![shape(&["-n", "--name"], ArgNature::Optional, ArgMultiMode::Single)];
    assert_eq!(error_of(&scan(&shapes, &["--name"], false)), "missing input argument after [--name]");
    assert!(matches!(scan(&shapes, &["--help"], false).end, ScanEnd::Help));
    assert!(matches!(scan(&shapes, &[], false).end, ScanEnd::Done));
}

#[test]
fn test_args() {
    let shapes = vec![
        shape(&["str-arg"], ArgNature::Regular, ArgMultiMode::Single),
        shape(&["-v", "--v"], ArgNature::Fixed, ArgMultiMode::Single),
        shape(&["-v2", "--v2"], ArgNature::Fixed, ArgMultiMode::Single),
        shape(&["-name"], ArgNature::Optional, ArgMultiMode::Single),
        shape(&["i32-arg"], ArgNature::Regular, ArgMultiMode::Single),
    ];
    assert_eq!(compose_usage("pgm", &shapes), "pgm [-h] [-v] [-v2] [-name name] <str-arg> <i32-arg>");
    let plan = scan(&shapes, &["--v2", "STR-ARG", "999"], false);
    assert!(matches!(plan.end, ScanEnd::Done));
    assert_eq!(
        steps_of(&plan),
        vec![
            (2, None, vec![]),
            (0, Some("STR-ARG".to_string()), vec![]),
            (4, Some("999".to_string()), vec![]),
        ]
    );
}

#[test]
fn test_overall() {
    let shapes = vec![
        shape(&["-f", "--F"], ArgNature::Optional, ArgMultiMode::Single),
        shape(&["-v", "--V"], ArgNature::Fixed, ArgMultiMode::Single),
        shape(&["--"], ArgNature::Regular, ArgMultiMode::Regular),
    ];
    assert_eq!(compose_usage("pgm", &shapes), "pgm [-h] [-f F] [-v] -- ");
    let plan = scan(&shapes, &["-v", "--", "-v", "--", "ABC"], false);
    assert!(matches!(plan.end, ScanEnd::Done));
    assert_eq!(
        steps_of(&plan),
        vec![
            (1, None, vec![]),
            (2, Some("-v".to_string()), vec!["--".to_string(), "ABC".to_string()]),
        ]
    );
}

#[test]
fn test_rest_parsed() {
    let shapes = vec![
        shape(&["-f", "--F"], ArgNature::Optional, ArgMultiMode::Single),
        shape(&["a"], ArgNature::Regular, ArgMultiMode::Rest),
    ];
    let plan = scan(&shapes, &["888", "--name", "trevor", "-h"], false);
    assert!(matches!(plan.end, ScanEnd::Done));
    assert_eq!(
        steps_of(&plan),
        vec![(
            1,
            Some("888".to_string()),
            vec!["--name".to_string(), "trevor".to_string(), "-h".to_string()]
        )]
    );
}

#[test]
fn test_usage_of_documented_arguments() {
    let shapes = vec![
        shape(&["-f", "--flag"], ArgNature::Regular, ArgMultiMode::Single),
        shape(&["-v", "--verbose"], ArgNature::Fixed, ArgMultiMode::Single),
        shape(&["position1"], ArgNature::Regular, ArgMultiMode::Single),
        shape(&["position2"], ArgNature::Optional, ArgMultiMode::Single),
    ];
    assert_eq!(compose_usage("<program>", &shapes), "<program> [-h] -f flag [-v] <position1> [position2]");
}
