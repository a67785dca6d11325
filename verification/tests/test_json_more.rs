use rusty_dumb_tools::json::{
    DumbJsonProcessor, JsonEntry, JsonEntryHandler, JsonFieldValue, ProcessJsonProgress, MAX_ITEMS,
};

struct Collect {
    entries: Vec<(String, String)>,
}

impl JsonEntryHandler for Collect {
    fn handle_json_entry(&mut self, json_entry: &JsonEntry) {
        self.entries.push((json_entry.field_name.clone(), json_entry.field_value.to_string()));
    }
}

fn entries_of(pieces: &[&str]) -> Vec<(String, String)> {
    let mut progress = ProcessJsonProgress::new();
    let mut out = Vec::new();
    for p in pieces {
        for e in progress.process_piece(p).unwrap() {
            out.push((e.field_name, e.field_value.to_string()));
        }
    }
    out
}

#[test]
fn test_json_value_kinds() {
    let text = r#"{"a": 12, "b": -7, "c": 1.50, "d": true, "e": false, "f": null, "g": 1.2.3, "h": 2147483648, "i": -2147483648, "j": abc, "k": }"#;
    let mut progress = ProcessJsonProgress::new();
    let es = progress.process_piece(text).unwrap();
    let kinds: Vec<String> = es
        .iter()
        .map(|e| match &e.field_value {
            JsonFieldValue::String(s) => format!("{}=S:{}", e.field_name, s),
            JsonFieldValue::Whole(v) => format!("{}=W:{}", e.field_name, v),
            JsonFieldValue::Decimal(s) => format!("{}=D:{}", e.field_name, s),
            JsonFieldValue::Boolean(b) => format!("{}=B:{}", e.field_name, b),
            JsonFieldValue::Null => format!("{}=N", e.field_name),
        })
        .collect();
    assert_eq!(
        kinds,
        vec![
            "a=W:12", "b=W:-7", "c=D:1.50", "d=B:true", "e=B:false", "f=N", "g=S:1.2.3",
            "h=S:2147483648", "i=W:-2147483648", "j=S:abc"
        ]
    );
    assert!(progress.is_done());
    assert_eq!(JsonFieldValue::Whole(-45).to_string(), "-45");
    assert_eq!(JsonFieldValue::new_none_str("  x ".to_string()).to_string(), "  x ");
}

#[test]
fn test_json_pieces_join() {
    let text = r#"{"x": [1, {"y": "a\"b"}, [true]], "z": "w"}"#;
    let whole = entries_of(&[text]);
    assert_eq!(
        whole,
        vec![
            ("x.0".to_string(), "1".to_string()),
            ("x.1.y".to_string(), "a\"b".to_string()),
            ("x.2.0".to_string(), "true".to_string()),
            ("z".to_string(), "w".to_string()),
        ]
    );
    for cut in 0..text.len() {
        if text.is_char_boundary(cut) {
            assert_eq!(entries_of(&[&text[..cut], &text[cut..]]), whole);
        }
    }
}

#[test]
fn test_json_remaining_and_restart() {
    let mut progress = ProcessJsonProgress::new();
    let es = progress.process_piece(r#"junk {"a": "1"} rest {"b": "#).unwrap();
    assert_eq!(es.len(), 1);
    assert!(progress.is_done());
    assert_eq!(progress.get_remaining(), r#" rest {"b": "#);
    let es = progress.process_piece(r#""2"}"#).unwrap();
    assert_eq!(es.len(), 1);
    assert_eq!(es[0].field_name, "b");
    assert_eq!(es[0].field_value.to_string(), "2");
}

#[test]
fn test_json_too_many_items() {
    let mut text = String::from("{\"a\": [");
    for _ in 0..(MAX_ITEMS as usize + 1) {
        text.push_str("1,");
    }
    text.push_str("1]}");
    let mut progress = ProcessJsonProgress::new();
    let res = progress.process_piece(&text);
    assert_eq!(res.err().unwrap(), "too many items in a JSON object or array");
    // once refused, further input is refused too
    assert!(progress.process_piece("}").is_err());
}

#[test]
fn test_json_bytes() {
    let mut collect = Collect { entries: Vec::new() };
    let mut processor = DumbJsonProcessor::new(Box::new(&mut collect));
    let mut progress = ProcessJsonProgress::new();
    let bytes = "{\"s\":\"é😀\"}".as_bytes();
    // cut inside the 4-byte emoji
    assert!(processor.push_json_bytes(&bytes[..9], &mut progress).is_ok());
    assert!(processor.push_json_bytes(&bytes[9..], &mut progress).is_ok());
    assert!(progress.is_done());
    assert!(processor.push_json_bytes(&[0xff, b'{'], &mut progress).is_err());
    assert_eq!(
        processor.push_json_bytes(&[0xc3, 0x28], &mut progress).err().unwrap(),
        "invalid UTF-8 in the JSON bytes"
    );
    drop(processor);
    assert_eq!(collect.entries, vec![("s".to_string(), "é😀".to_string())]);
}

#[test]
fn test_json_push_json() {
    let mut collect = Collect { entries: Vec::new() };
    let mut processor = DumbJsonProcessor::new(Box::new(&mut collect));
    assert_eq!(processor.push_json(r#"{"k": "v"} tail"#).unwrap(), " tail");
    assert_eq!(processor.push_json(r#"{"k": "v""#).err().unwrap(), "the JSON text is not complete");
    drop(processor);
    assert_eq!(collect.entries, vec![("k".to_string(), "v".to_string()), ("k".to_string(), "v".to_string())]);
}

#[test]
fn test_json_empty_containers() {
    let es = entries_of(&[r#"{"a": [], "b": {}, "c": [ , 1, ], "d": 2,}"#]);
    assert_eq!(
        es,
        vec![("c.1".to_string(), "1".to_string()), ("d".to_string(), "2".to_string())]
    );
}

#[test]
fn test_json_processor() {
    let mut handler = Collect { entries: Vec::new() };
    {
        let mut json_processor = DumbJsonProcessor::new(Box::new(&mut handler));
        let mut progress = ProcessJsonProgress::new();
        let res = json_processor.push_json_piece(r#"{"hello":"world"}"#, &mut progress);
        assert!(res.is_ok());
        assert!(progress.is_done());
        assert!(progress.get_remaining().is_empty());
    }
    assert_eq!(handler.entries, vec![("hello".to_string(), "world".to_string())]);
}

#[test]
fn test_json_handler_gets_entries_in_order_whole_or_in_pieces() {
    let json = r#"{"simple_key":"simple_value","nested":{"nested_key":"nested_value"},"array":["item0","item1"],"obj_array":[{"obj_key":"obj0"},{"obj_key":"obj1"}]}"#;
    let expected: Vec<(String, String)> = vec![
        ("simple_key", "simple_value"),
        ("nested.nested_key", "nested_value"),
        ("array.0", "item0"),
        ("array.1", "item1"),
        ("obj_array.0.obj_key", "obj0"),
        ("obj_array.1.obj_key", "obj1"),
    ]
    .into_iter()
    .map(|(k, v)| (k.to_string(), v.to_string()))
    .collect();
    for size in [1usize, 3, 7, json.len()] {
        let mut handler = Collect { entries: Vec::new() };
        {
            let mut json_processor = DumbJsonProcessor::new(Box::new(&mut handler));
            let mut progress = ProcessJsonProgress::new();
            let chars: Vec<char> = json.chars().collect();
            for chunk in chars.chunks(size) {
                assert!(!progress.is_done());
                let piece: String = chunk.iter().collect();
                json_processor.push_json_piece(&piece, &mut progress).unwrap();
            }
            assert!(progress.is_done());
        }
        assert_eq!(handler.entries, expected);
    }
}

#[test]
fn test_json_bytes_split_anywhere() {
    let text = "{\"a\":\"é😀\",\"b\":[\"日本\",\"x\"]}";
    let bytes = text.as_bytes();
    let whole = entries_of(&[text]);
    for i in 0..=bytes.len() {
        let mut progress = ProcessJsonProgress::new();
        let mut out = Vec::new();
        for piece in [&bytes[..i], &bytes[i..]] {
            for e in progress.process_bytes(piece).unwrap() {
                out.push((e.field_name, e.field_value.to_string()));
            }
        }
        assert_eq!(out, whole, "split at {}", i);
        if i < bytes.len() {
            assert!(progress.is_done());
        }
    }
    // a cut-off character is kept: three bytes of a four-byte one
    let mut progress = ProcessJsonProgress::new();
    assert!(progress.process_bytes(&[b'{', 0xf0, 0x9f, 0x98]).is_ok());
    // bytes that no more bytes can complete are refused, and nothing is lost
    assert!(progress.process_bytes(&[0xff]).is_err());
    assert!(progress.process_bytes(&[0x80, b'}']).is_ok());
}
