use std::collections::HashMap;

use rusty_dumb_tools::lblscreen::{DumbLineByLineScreen, LBLScreenSettings};
use rusty_dumb_tools::ltemp::{DumbLineTemplate, LineTempComp, LineTempCompTrait, MappedLineTempCompBuilder};

fn mapped(key: &str, setup: impl Fn(&mut MappedLineTempCompBuilder)) -> LineTempComp {
    let mut builder = MappedLineTempCompBuilder::new(key);
    setup(&mut builder);
    builder.to_line_temp_comp()
}

fn demo_screen() -> DumbLineByLineScreen {
    let comps = vec![
        "| ".to_line_temp_comp(),
        mapped("description", |b| {
            b.align('C');
        }),
        " |".to_line_temp_comp(),
    ];
    let temp1 = DumbLineTemplate::new_fixed_width(40, &comps);
    let comps = vec![
        "| ".to_line_temp_comp(),
        ".".repeat(8).to_line_temp_comp(),
        " |".to_line_temp_comp(),
        mapped("progress-bar", |_| {}),
        ": ".to_line_temp_comp(),
        mapped("progress%", |b| {
            b.fixed_width(4);
            b.align('R');
        }),
        " |".to_line_temp_comp(),
    ];
    let temp2 = DumbLineTemplate::new_fixed_width(40, &comps);
    let settings = LBLScreenSettings {
        top_line: Some("-".repeat(40)),
        bottom_line: Some("-".repeat(40)),
        ..LBLScreenSettings::default()
    };
    DumbLineByLineScreen::new(vec![temp1, temp2], settings)
}

#[test]
fn test_lblscreen_general() {
    let mut lbl_demo_screen = demo_screen();
    lbl_demo_screen.init();
    let init_text = lbl_demo_screen.take_output();
    assert_eq!(init_text, format!("{}\n\n\n{}\n", "-".repeat(40), "-".repeat(40)));

    let mut state = HashMap::<&str, String>::new();
    let progress_done_percent = 100;
    let progress_percent = format!("{}%", progress_done_percent);
    let description = format!("... wait ... loading {} ...", progress_done_percent);
    let progress_bar = ">".repeat(progress_done_percent / 5 as usize);
    state.insert("description", description);
    state.insert("progress-bar", progress_bar);
    state.insert("progress%", progress_percent);

    let updated_line_count = lbl_demo_screen.refresh(&state);
    assert_eq!(updated_line_count, 2);
    let text = lbl_demo_screen.take_output();
    assert_eq!(
        text,
        "\x1B[3A\x1B[0K|     ... wait ... loading 100 ...     |\r\n\x1B[0K| ........ |>>>>>>>>>>>>>>>>>>>>: 100% |\r\n\n"
    );

    let updated_line_count = lbl_demo_screen.refresh(&state);
    assert_eq!(updated_line_count, 0);
    assert_eq!(lbl_demo_screen.take_output(), "\x1B[3A\r\n\r\n\n");

    state.insert("description", "???".to_owned());
    let updated_line_count = lbl_demo_screen.refresh(&state);
    assert_eq!(updated_line_count, 1);

    let updated_line_count = lbl_demo_screen.refresh(&state);
    assert_eq!(updated_line_count, 0);
}

#[test]
fn test_lblscreen_refresh_for_keys() {
    let mut screen = demo_screen();
    screen.init();
    let mut state = HashMap::<&str, &str>::new();
    state.insert("description", "loading");
    state.insert("progress-bar", ">>");
    state.insert("progress%", "10%");
    assert_eq!(screen.refresh(&state), 2);
    state.insert("description", "still loading");
    state.insert("progress%", "20%");
    // only the lines with the keys given are formatted again
    assert_eq!(screen.refresh_for_keys(&vec!["description"], &state), 1);
    assert_eq!(screen.refresh_for_keys(&vec!["progress%"], &state), 1);
    assert_eq!(screen.refresh_for_keys(&vec!["unknown"], &state), 0);
    assert_eq!(screen.refresh(&state), 0);
}

#[test]
fn test_lblscreen_refresh_ex_with_prefix() {
    let comps = vec!["[".to_line_temp_comp(), mapped("v", |_| {}), "]".to_line_temp_comp()];
    let temp = DumbLineTemplate::new(0, 20, &comps);
    let settings = LBLScreenSettings {
        line_prefix: Some("> ".to_string()),
        line_suffix: Some(" <".to_string()),
        bottom_line: Some("a\nb".to_string()),
        ..LBLScreenSettings::default()
    };
    let mut screen = DumbLineByLineScreen::new(vec![temp], settings);
    screen.init();
    assert_eq!(screen.take_output(), "\na\nb\n");
    let count = screen.refresh_ex(|key: &str| -> Option<(String, u16)> {
        if key == "v" {
            Some(("xy".to_string(), 2))
        } else {
            None
        }
    });
    assert_eq!(count, 1);
    // the bottom line takes two terminal lines
    assert_eq!(screen.take_output(), "\x1B[3A\x1B[0K> [xy] <\r\n\n\n");
}

#[test]
fn test_lblscreen_refresh_with_pairs_and_try_refresh() {
    let mut screen = demo_screen();
    screen.init();
    screen.take_output();
    let pairs: Vec<(String, String)> = vec![
        ("description".to_string(), "hello".to_string()),
        ("progress-bar".to_string(), ">>>".to_string()),
        ("progress%".to_string(), "15%".to_string()),
    ];
    assert_eq!(screen.try_refresh(&pairs), Some(2));
    let text = screen.take_output();
    assert!(text.contains(&format!("| {}hello{} |", " ".repeat(16), " ".repeat(15))));
    assert_eq!(screen.try_refresh(&pairs), Some(0));
    assert!(!screen.take_output().contains("hello"));
    assert_eq!(screen.refresh(&pairs), 0);
    screen.take_output();

    // a required key without a value: the line cannot be formatted
    let missing: Vec<(String, String)> = vec![("description".to_string(), "hi".to_string())];
    assert_eq!(screen.try_refresh(&missing), None);
    assert_eq!(screen.take_output(), "");

    let n = screen.try_refresh_ex(|k: &str| match k {
        "description" => Some(("bye".to_string(), 3)),
        "progress-bar" => Some((">>>".to_string(), 3)),
        "progress%" => Some(("15%".to_string(), 3)),
        _ => None,
    });
    assert_eq!(n, Some(1));
    assert_eq!(screen.try_refresh_ex(|_k: &str| None), None);
}

#[test]
fn test_lblscreen_try_refresh_for_keys() {
    let mut screen = demo_screen();
    screen.init();
    let mut pairs: Vec<(String, String)> = vec![
        ("description".to_string(), "loading".to_string()),
        ("progress-bar".to_string(), ">>".to_string()),
        ("progress%".to_string(), "10%".to_string()),
    ];
    assert_eq!(screen.try_refresh(&pairs), Some(2));
    pairs[0].1 = "still loading".to_string();
    assert_eq!(screen.try_refresh_for_keys(&vec!["description"], &pairs), Some(1));
    assert_eq!(screen.try_refresh_for_keys(&vec!["unknown"], &pairs), Some(0));
    // the second line needs a value for "progress-bar"; only the first line is formatted again
    let only_description: Vec<(String, String)> = vec![("description".to_string(), "done".to_string())];
    assert_eq!(screen.try_refresh_for_keys(&vec!["description"], &only_description), Some(1));
    assert_eq!(screen.try_refresh_for_keys(&vec!["progress%"], &only_description), None);
    let n = screen.try_refresh_for_keys_ex(&vec!["progress%"], |k: &str| match k {
        "progress-bar" => Some((">>>>".to_string(), 4)),
        "progress%" => Some(("20%".to_string(), 3)),
        _ => None,
    });
    assert_eq!(n, Some(1));
    assert_eq!(screen.try_refresh_for_keys_ex(&vec!["description"], |_k: &str| None), None);
}
