use rusty_dumb_tools::ltemp::{
    DumbLineTemplate, LineTempComp, LineTempCompTrait, MappedLineTempCompBuilder, FLEXIBLE_WIDTH_EX,
};

fn pairs(kvs: &[(&str, &str)]) -> Vec<(String, String)> {
    kvs.iter().map(|(k, v)| (k.to_string(), v.to_string())).collect()
}

fn mapped(key: &str, setup: impl Fn(&mut MappedLineTempCompBuilder)) -> LineTempComp {
    let mut builder = MappedLineTempCompBuilder::new(key);
    setup(&mut builder);
    builder.to_line_temp_comp()
}

#[test]
fn test_ltemp_fit() {
    let lt_comps = vec![
        "|abc>".to_line_temp_comp(),
        mapped("key1", |_| {}),
        "_def_".to_string().to_line_temp_comp(),
        mapped("key2", |b| {
            b.optional(true);
            b.min_width(1);
            b.max_width(100);
        }),
        "<ghi|".to_string().to_line_temp_comp(),
    ];
    let ltemp = DumbLineTemplate::new(0, 100, &lt_comps);

    let formatted = ltemp.format(&pairs(&[("key1", "value1"), ("key2", "value2")])).unwrap();
    assert_eq!(formatted, "|abc>value1_def_value2<ghi|");

    let formatted = ltemp.format(&pairs(&[("key1", "value1")])).unwrap();
    assert_eq!(formatted, "|abc>value1_def_<ghi|");
}

#[test]
fn test_ltemp_over() {
    let lt_comps = vec![
        "|abc>".to_line_temp_comp(),
        mapped("key1", |b| {
            b.min_width(3);
        }),
        "_def_".to_string().to_line_temp_comp(),
        mapped("key2", |b| {
            b.optional(true);
            b.min_width(3);
        }),
        "<ghi|".to_string().to_line_temp_comp(),
    ];

    let ltemp = DumbLineTemplate::new(5, 22, &lt_comps);
    let formatted = ltemp.format(&pairs(&[("key1", "value1"), ("key2", "value2")])).unwrap();
    assert!(formatted.len() >= 5 && formatted.len() <= 22);
    assert_eq!(formatted, "|abc>val_def_valu<ghi|");

    let ltemp = DumbLineTemplate::new(5, 18, &lt_comps);
    let formatted = ltemp.format(&pairs(&[("key1", "value1")])).unwrap();
    assert!(
        formatted.len() >= ltemp.min_width() as usize
            && formatted.len() <= ltemp.max_width() as usize
    );
    assert_eq!(formatted, "|abc>val_def_<ghi|");

    let ltemp = DumbLineTemplate::new(5, 10, &lt_comps);
    let formatted = ltemp.format(&pairs(&[("key1", "value1")]));
    assert!(formatted.is_err());
    assert_eq!(
        formatted.err().unwrap(),
        "too small a line ... still need 8, on top of max 10"
    );
}

#[test]
fn test_ltemp_under() {
    let lt_comps = vec![
        "|abc>".to_line_temp_comp(),
        mapped("key1", |b| {
            b.max_width(10);
        }),
        "_def_".to_string().to_line_temp_comp(),
        mapped("key2", |b| {
            b.optional(true);
            b.max_width(10);
        }),
        "<ghi|".to_string().to_line_temp_comp(),
    ];

    let ltemp = DumbLineTemplate::new(30, 100, &lt_comps);
    let formatted = ltemp.format(&pairs(&[("key1", "value1"), ("key2", "value2")])).unwrap();
    assert!(formatted.len() >= 30 && formatted.len() <= 100);
    if FLEXIBLE_WIDTH_EX {
        assert_eq!(formatted, "|abc>value1  _def_value2 <ghi|");
    } else {
        assert_eq!(formatted, "|abc>value1   _def_value2<ghi|");
    }

    let ltemp = DumbLineTemplate::new(25, 100, &lt_comps);
    let formatted = ltemp.format(&pairs(&[("key1", "value1")])).unwrap();
    assert!(formatted.len() >= 25 && formatted.len() <= 100);
    assert_eq!(formatted, "|abc>value1    _def_<ghi|");

    let ltemp = DumbLineTemplate::new(50, 100, &lt_comps);
    let formatted = ltemp.format(&pairs(&[("key1", "value1")]));
    assert!(formatted.is_err());
    assert_eq!(
        formatted.err().unwrap(),
        "too big a line ... 25 extra, on top of min 50"
    );
}

#[test]
fn test_ltemp_align() {
    let lt_comps = vec![
        "|abc>".to_line_temp_comp(),
        mapped("key1", |b| {
            b.max_width(10);
            b.align('L');
        }),
        "|".to_string().to_line_temp_comp(),
        mapped("key2", |b| {
            b.max_width(10);
            b.align('C');
        }),
        "|".to_string().to_line_temp_comp(),
        mapped("key3", |b| {
            b.max_width(10);
            b.align('R');
        }),
        "<ghi|".to_string().to_line_temp_comp(),
    ];

    let ltemp = DumbLineTemplate::new(37, 100, &lt_comps);
    let formatted = ltemp
        .format(&pairs(&[("key1", "value1"), ("key2", "value2"), ("key3", "value3")]))
        .unwrap();
    assert!(formatted.len() >= 37 && formatted.len() <= 100);
    if FLEXIBLE_WIDTH_EX {
        assert_eq!(formatted, "|abc>value1   |  value2 | value3<ghi|");
    } else {
        assert_eq!(formatted, "|abc>value1    |  value2 |value3<ghi|");
    }
}

#[test]
fn test_ltemp_escaped() {
    let lt_comps = vec![
        ("\x1B[7mABC\x1B[0m", 1).to_line_temp_comp(),
        mapped("escaped", |b| {
            b.optional(true);
            b.fixed_width(6);
            b.align('C');
        }),
    ];
    let ltemp = DumbLineTemplate::new(0, 100, &lt_comps);
    let formatted = ltemp.format(&pairs(&[])).unwrap();
    assert_eq!(formatted, "\u{1b}[7mABC\u{1b}[0m");
    assert_eq!(formatted.len(), 11);
    let map_value_provide_fn = |key: &str| -> Option<(String, u16)> {
        if key == "escaped" {
            Some(("\x1B[7mDEF\x1B[0m".to_string(), 3))
        } else {
            None
        }
    };
    let formatted = ltemp.format_ex(map_value_provide_fn).unwrap();
    assert_eq!(formatted, "\u{1b}[7mABC\u{1b}[0m  \u{1b}[7mDEF\u{1b}[0m ");
}

#[test]
fn test_ltemp_keys_in_order() {
    let lt_comps = vec![
        "|".to_line_temp_comp(),
        mapped("b", |_| {}),
        "-".to_line_temp_comp(),
        mapped("a", |_| {}),
    ];
    let ltemp = DumbLineTemplate::new(0, 100, &lt_comps);
    assert_eq!(ltemp.scan_for_keys(), vec!["b".to_string(), "a".to_string()]);
}

#[test]
fn test_ltemp_missing_required_key() {
    let lt_comps = vec!["<".to_line_temp_comp(), mapped("needed", |_| {}), ">".to_line_temp_comp()];
    let ltemp = DumbLineTemplate::new(0, 100, &lt_comps);
    assert_eq!(ltemp.format(&pairs(&[])).err().unwrap(), "missing required key: needed");
}

#[test]
fn test_ltemp_widths_in_bytes() {
    let comps = vec![mapped("k", |b| {
        b.min_width(4).max_width(10);
    })];
    let t = DumbLineTemplate::new(0, 100, &comps);
    assert_eq!(t.format(&pairs(&[("k", "é")])).unwrap(), "é  ");

    let comps = vec!["|é|".to_line_temp_comp(), mapped("k", |b| {
        b.max_width(3);
    })];
    let t = DumbLineTemplate::new(0, 100, &comps);
    assert_eq!(t.format(&pairs(&[("k", "aé")])).unwrap(), "|é|aé");
    let t = DumbLineTemplate::new(0, 6, &comps);
    assert_eq!(t.format(&pairs(&[("k", "abé")])).unwrap(), "|é|ab");
}

#[test]
fn test_ltemp_can_format() {
    let comps = vec![mapped("k", |b| {
        b.min_width(1).max_width(3);
    })];
    let t = DumbLineTemplate::new(0, 1, &comps);
    assert!(t.can_format(&pairs(&[("k", "ab")])));
    assert_eq!(t.format(&pairs(&[("k", "ab")])).unwrap(), "a");
    assert!(!t.can_format(&pairs(&[("k", "é")])));
    assert!(t.can_format(&pairs(&[("x", "ab")])));
    assert_eq!(t.format(&pairs(&[("x", "ab")])).unwrap_err(), "missing required key: k");

    let comps = vec![mapped("k", |b| {
        b.fixed_width(1);
    })];
    let t = DumbLineTemplate::new(0, 100, &comps);
    assert!(!t.can_format(&pairs(&[("k", "é")])));
    assert!(t.can_format(&pairs(&[("k", "a")])));
}

#[test]
fn test_ltemp_try_format_ex() {
    let comps = vec![mapped("k", |b| {
        b.min_width(1).max_width(3);
    })];
    let t = DumbLineTemplate::new(0, 1, &comps);
    let r = t.try_format_ex(|k: &str| if k == "k" { Some(("ab".to_string(), 2)) } else { None });
    assert_eq!(r, Some(Ok("a".to_string())));
    let r = t.try_format_ex(|_k: &str| Some(("é".to_string(), 2)));
    assert_eq!(r, None);
    let r = t.try_format_ex(|_k: &str| None);
    assert_eq!(r, Some(Err("missing required key: k".to_string())));
}

#[test]
fn test_ltemp_format_values() {
    let comps = vec![
        LineTempComp::Fixed("[".to_string(), 1),
        mapped("k", |b| {
            b.min_width(2).max_width(4).align('R');
        }),
    ];
    let t = DumbLineTemplate::new(0, 10, &comps);
    let vals = vec![None, Some(("x".to_string(), 1))];
    assert!(t.can_format_values(&vals));
    assert_eq!(t.format_values(&vals), Ok("[ x".to_string()));
    let too_few = vec![None];
    assert!(!t.can_format_values(&too_few));
    let fixed_with_value = vec![Some(("y".to_string(), 1)), Some(("x".to_string(), 1))];
    assert!(!t.can_format_values(&fixed_with_value));
}

#[test]
fn test_ltemp_format_is_format_ex_with_lookup() {
    let comps = vec![
        mapped("a", |b| {
            b.min_width(1).max_width(5).align('C');
        }),
        LineTempComp::Fixed("|".to_string(), 1),
        mapped("b", |b| {
            b.optional(true);
        }),
    ];
    let t = DumbLineTemplate::new(0, 20, &comps);
    let map = pairs(&[("a", "xy"), ("a", "zz"), ("b", "q")]);
    let by_pairs = t.format(&map);
    let by_fn = t.format_ex(|k: &str| {
        map.iter().find(|(key, _)| key == k).map(|(_, v)| (v.clone(), v.len() as u16))
    });
    assert_eq!(by_pairs, by_fn);
    assert_eq!(by_pairs, Ok("xy|q".to_string()));
}

#[test]
fn test_ltemp_line_fits_within_widths() {
    // fixed 2 + minimums 1 + 1 <= max 6, fixed 2 + maximums 5 + 5 >= min 6
    let comps = vec![
        mapped("a", |b| {
            b.min_width(1).max_width(5);
        }),
        LineTempComp::Fixed("--".to_string(), 2),
        mapped("b", |b| {
            b.min_width(1).max_width(5).align('R');
        }),
    ];
    let t = DumbLineTemplate::new(6, 6, &comps);
    let line = t.format(&pairs(&[("a", "x"), ("b", "y")])).unwrap();
    assert_eq!(line.len(), 6);
    let line = t.format(&pairs(&[("a", "xxxx"), ("b", "yyyy")])).unwrap();
    assert_eq!(line.len(), 6);
    // fixed 2 + maximums 5 + 5 < min 13: refused as too big, 1 extra
    let t = DumbLineTemplate::new(13, 20, &comps);
    assert_eq!(
        t.format(&pairs(&[("a", "x"), ("b", "y")])).unwrap_err(),
        "too big a line ... 1 extra, on top of min 13"
    );
}
