use json_walker::json_walker::{JsonWalker, StringReader};
use json_walker::parser_core::Parser;
use json_walker::types::{TextItem, ValueType};
use json_walker::{ErrorKind, Fault, FaultKind, NIL};

const CORRECT_JSON: &str = r#" {"key1":null,"key2":true,"key3":false,"key4":-111,"key5":+111.111,"key6":"str1 \":{}[],","key7":{  "key71" : null ,  "key72" : true ,  "key73" : false ,  "key74" : 222 ,  "key75" : 222.222 ,  "key76" : "str2 \":{}[]," ,  "key78" : [    null ,    true ,    false ,    -333 ,    +333.333 ,    "str3 \":{}[]," ,    {  } ,    [  ]  ] ,  "key79" : {} ,  "key710": [  ] } , "key8" : [  null ,  true ,  false ,  444 ,  444.444 ,  "str4 \":{}[]," ,  {    "key81" : null ,    "key82" : true ,    "key83" : false ,    "key84" : 555 ,
      "key85" : 555.555 ,
      "key86" : "str5 \":{}[]," ,    "key89" : {} ,    "key810" : [ ]  } ,  { } ,  [ ]  ] , "key9" : { } , "key10" : [ ]
} "#;

fn execute_test(txt: &str, keys: &[&str], values: &[&str], chars: &[char]) {
    let mut keys_index = 0;
    let mut values_index = 0;
    let mut chars_index = 0;
    let mut parser = Parser::new(StringReader::new(txt.to_string()), 50);
    while parser.peek() != NIL {
        let r = parser.walk_forward().expect("well-formed input must not fault");
        match r {
            TextItem::Key(k) => {
                assert_eq!(k.1, keys[keys_index], "unexpected key");
                keys_index += 1;
            }
            TextItem::Value(v) => {
                assert_eq!(v.1, values[values_index], "unexpected value");
                values_index += 1;
            }
            TextItem::Marker(b) => {
                assert!(chars_index < chars.len(), "expecting no more markers");
                assert_eq!(b as char, chars[chars_index], "unexpected marker");
                chars_index += 1;
            }
        }
    }
    assert_eq!(keys_index, keys.len());
    assert_eq!(values_index, values.len());
    assert_eq!(chars_index, chars.len());
}

/// Drives the parser to its fatal fault and returns it.
fn execute_for_fault(txt: &str) -> Fault {
    let mut parser = Parser::new(StringReader::new(txt.to_string()), 50);
    loop {
        match parser.walk_forward() {
            Ok(_) => {
                if parser.peek() == NIL && parser.stack.len() <= 2 {
                    panic!("input was expected to be malformed: {txt}");
                }
            }
            Err(f) => {
                return f;
            }
        }
    }
}

#[test]
fn correct_input_starting_with_brace() {
    let keys = [
        "key1", "key2", "key3", "key4", "key5", "key6", "key7", "key71", "key72", "key73",
        "key74", "key75", "key76", "key78", "key79", "key710", "key8", "key81", "key82",
        "key83", "key84", "key85", "key86", "key89", "key810", "key9", "key10",
    ];
    let values = [
        "null",
        "true",
        "false",
        "-111",
        "+111.111",
        "str1 \\\":{}[],",
        "null",
        "true",
        "false",
        "222",
        "222.222",
        "str2 \\\":{}[],",
        "null",
        "true",
        "false",
        "-333",
        "+333.333",
        "str3 \\\":{}[],",
        "null",
        "true",
        "false",
        "444",
        "444.444",
        "str4 \\\":{}[],",
        "null",
        "true",
        "false",
        "555",
        "555.555",
        "str5 \\\":{}[],",
    ];
    let chars = [
        '{', ':', ',', ':', ',', ':', ',', ':', ',', ':', ',', ':', ',', ':', '{', ':', ',',
        ':', ',', ':', ',', ':', ',', ':', ',', ':', ',', ':', '[', ',', ',', ',', ',', ',',
        ',', '{', '}', ',', '[', ']', ']', ',', ':', '{', '}', ',', ':', '[', ']', '}', ',',
        ':', '[', ',', ',', ',', ',', ',', ',', '{', ':', ',', ':', ',', ':', ',', ':', ',',
        ':', ',', ':', ',', ':', '{', '}', ',', ':', '[', ']', '}', ',', '{', '}', ',', '[',
        ']', ']', ',', ':', '{', '}', ',', ':', '[', ']', '}',
    ];
    execute_test(CORRECT_JSON, &keys, &values, &chars);
}

#[test]
fn correct_input_starting_with_square() {
    let txt = r#"[ null , true , false , 444 , 444.444 , "str4 \":{}[]," , {"key81": null,"key82": true,"key83": false,"key84": 555,"key85": 555.555 , "key86": "str5 \":{}[],"} ]"#;
    let keys = ["key81", "key82", "key83", "key84", "key85", "key86"];
    let values = [
        "null",
        "true",
        "false",
        "444",
        "444.444",
        "str4 \\\":{}[],",
        "null",
        "true",
        "false",
        "555",
        "555.555",
        "str5 \\\":{}[],",
    ];
    let chars = [
        '[', ',', ',', ',', ',', ',', ',', '{', ':', ',', ':', ',', ':', ',', ':', ',', ':',
        ',', ':', '}', ']',
    ];
    execute_test(txt, &keys, &values, &chars);
}

#[test]
fn incorrect_input_drop_key() {
    let f = execute_for_fault(r#"{:123}"#);
    assert_eq!(f.kind, FaultKind::UnexpectedByte);
    assert_eq!(f.byte, b':');
}

#[test]
fn incorrect_input_drop_colon() {
    let f = execute_for_fault(r#"{"key"123}"#);
    assert_eq!(f.kind, FaultKind::UnexpectedByte);
    assert_eq!(f.byte, b'1');
}

#[test]
fn incorrect_input_drop_object_value() {
    let f = execute_for_fault(r#"{"key":,}"#);
    assert_eq!(f.kind, FaultKind::UnexpectedByte);
    assert_eq!(f.byte, b',');
}

#[test]
fn incorrect_input_early_finish1() {
    let f = execute_for_fault(r#"{"key":}"#);
    assert_eq!(f.kind, FaultKind::Truncated);
}

#[test]
fn incorrect_input_early_finish2() {
    let f = execute_for_fault(r#"{"key1":123,"key2":[}"#);
    assert_eq!(f.kind, FaultKind::Truncated);
}

#[test]
fn incorrect_input_early_finish3() {
    let f = execute_for_fault(r#"{"key1":123,"key2":{}"#);
    assert_eq!(f.kind, FaultKind::Truncated);
}

#[test]
fn incorrect_extra_input_start_with_brace() {
    let f = execute_for_fault(r#"{"key1":123,"key2":null},"#);
    assert_eq!(f.kind, FaultKind::TrailingData);
}

#[test]
fn incorrect_extra_input_start_with_square() {
    let f = execute_for_fault(r#"[123,null],"#);
    assert_eq!(f.kind, FaultKind::TrailingData);
}

#[test]
fn correct_input_start_with_single_value() {
    let txt = r#""val123""#;
    let mut parser = Parser::new(StringReader::new(txt.to_string()), 50);
    let result = parser.walk_forward();
    match result {
        Ok(TextItem::Value(v)) => {
            assert_eq!(v.1, "val123")
        }
        _ => {
            panic!("a single string document must yield one value")
        }
    }
}

#[test]
fn walk_till_child_node() {
    let mut parser = Parser::new(StringReader::new(CORRECT_JSON.to_string()), 50);
    let result = parser.seek_by_level_offset(4).unwrap();
    assert!(result);
    let item = parser.walk_forward().unwrap();
    assert_eq!(item, TextItem::Key((ValueType::Str, String::from("key71"))));
}

#[test]
fn walk_till_parent_node() {
    let mut parser = Parser::new(StringReader::new(CORRECT_JSON.to_string()), 50);
    let _ = parser.seek_by_level_offset(4).unwrap();
    let _ = parser.seek_by_level_offset(-2).unwrap();
    let item = parser.walk_forward().unwrap();
    assert_eq!(item, TextItem::Marker(b','));
    let item = parser.walk_forward().unwrap();
    assert_eq!(item, TextItem::Key((ValueType::Str, String::from("key8"))))
}

#[test]
fn catch_sibling_nodes_of_object() {
    let items = ["key71", "key72", "key73", "key74", "key75", "key76", "key78", "key79", "key710"];
    let mut index = 0;
    let mut parser = Parser::new(StringReader::new(CORRECT_JSON.to_string()), 50);
    let mut result = parser.seek_by_level_offset(4).unwrap();
    while result {
        let item = parser.walk_forward().unwrap();
        match item {
            TextItem::Key(m) => {
                assert_eq!(m.1, items[index]);
                index += 1;
            }
            TextItem::Marker(b',') => {
                continue;
            }
            _ => {
                panic!("it is not supposed to get any item other than key")
            }
        }
        result = parser.seek_by_level_offset(0).unwrap();
    }
    assert_eq!(index, items.len());
}

#[test]
fn catch_sibling_nodes_of_array() {
    let items = ["null", "true", "false", "444", "444.444", "str4 \\\":{}[],"];
    let mut index = 0;

    let mut parser = Parser::new(StringReader::new(CORRECT_JSON.to_string()), 50);

    loop {
        let item = parser.walk_forward().unwrap();
        match item {
            TextItem::Key(k) => {
                if k.1.eq("key8") {
                    break;
                }
            }
            _ => {}
        }
    }

    let mut result = parser.seek_by_level_offset(2).unwrap();
    let mut diff: i128 = 0;
    while result {
        let item = parser.walk_forward().unwrap();
        match item {
            TextItem::Value(m) => {
                assert_eq!(m.1, items[index]);
                index += 1;
                diff = 0;
            }
            TextItem::Marker(b',') => {
                diff = 0;
            }
            TextItem::Marker(b'{') | TextItem::Marker(b'[') => {
                diff = -2;
            }
            _ => {}
        }
        result = parser.seek_by_level_offset(diff).unwrap();
    }
    assert_eq!(index, items.len());
}

// ---- additional coverage of the fault classification ----

#[test]
fn malformed_number_two_points() {
    let f = execute_for_fault(r#"{"key":12.3.4}"#);
    assert_eq!(f.kind, FaultKind::BadNumber);
}

#[test]
fn malformed_number_dangling_sign() {
    let f = execute_for_fault(r#"[12+]"#);
    assert_eq!(f.kind, FaultKind::BadNumber);
}

#[test]
fn malformed_number_trailing_point() {
    let f = execute_for_fault(r#"[12.]"#);
    assert_eq!(f.kind, FaultKind::BadNumber);
}

#[test]
fn malformed_keyword() {
    let f = execute_for_fault(r#"[nul]"#);
    assert_eq!(f.kind, FaultKind::BadLiteral);
}

#[test]
fn malformed_word_start() {
    let f = execute_for_fault(r#"[xyz]"#);
    assert_eq!(f.kind, FaultKind::BadLiteral);
}

#[test]
fn unterminated_string_at_root() {
    let f = execute_for_fault(r#""abc"#);
    assert_eq!(f.kind, FaultKind::UnterminatedString);
}

#[test]
fn truncated_document_reports_truncation() {
    let f = execute_for_fault(r#"{"key":"#);
    assert_eq!(f.kind, FaultKind::Truncated);
}

#[test]
fn session_stays_dead_after_fault() {
    let mut parser = Parser::new(StringReader::new("{:1}".to_string()), 50);
    let first = loop {
        match parser.walk_forward() {
            Ok(_) => {}
            Err(f) => break f,
        }
    };
    let again = parser.next_item();
    match again {
        Err(e) => {
            assert_eq!(e.kind, ErrorKind::Fatal);
            assert_eq!(e.fault.unwrap().kind, first.kind);
        }
        Ok(_) => panic!("a dead session must keep reporting its fault"),
    }
}

#[test]
fn next_child_key_of_scalar_is_end_of_stream() {
    // a key whose value is a scalar has no child key at all, even when
    // another object with keys one level down follows later
    let mut walker = JsonWalker::new(
        StringReader::new(r#"{"a":1,"b":{"c":2},"d":{"e":3}}"#.to_string()),
        50,
    );
    let _ = walker.next_key_by_name("a").unwrap();
    let r = walker.next_child_key();
    assert_eq!(r.unwrap_err().kind, ErrorKind::EOS);
    // the cursor stands after the consumed scalar: the next key is "b",
    // and its child is the first key of its own object
    assert_eq!(walker.next_key().unwrap().1, "b");
    assert_eq!(walker.next_child_key().unwrap().1, "c");
}

#[test]
fn next_child_key_skips_grandchildren() {
    // keys two levels down never count as children
    let mut walker = JsonWalker::new(
        StringReader::new(r#"{"a":[{"deep":1}],"b":2}"#.to_string()),
        50,
    );
    let _ = walker.next_key_by_name("a").unwrap();
    let r = walker.next_child_key();
    assert_eq!(r.unwrap_err().kind, ErrorKind::EOS);
}

#[test]
fn exhaustion_with_open_container_is_truncation() {
    // the last value of an unclosed document still comes out, but the
    // next request reports the fatal truncation, not end of stream
    let mut walker = JsonWalker::new(StringReader::new(r#"{"a":12"#.to_string()), 50);
    assert_eq!(walker.next_item().unwrap().1, "a");
    assert_eq!(walker.next_item().unwrap().1, "12");
    let e = walker.next_item().unwrap_err();
    assert_eq!(e.kind, ErrorKind::Fatal);
    assert_eq!(e.fault.unwrap().kind, FaultKind::Truncated);
}

#[test]
fn fault_carries_position_context() {
    // a fatal fault records the level, latest key, ordinal and history
    // of the position the session died at
    let mut walker = JsonWalker::new(StringReader::new(r#"{"a":1,"b":,}"#.to_string()), 50);
    let _ = walker.next_item();
    let _ = walker.next_item();
    let _ = walker.next_item();
    let e = walker.next_item().unwrap_err();
    let f = e.fault.unwrap();
    assert_eq!(f.kind, FaultKind::UnexpectedByte);
    assert_eq!(f.byte, b',');
    assert_eq!(f.level_halves, 3);
    assert_eq!(f.key, "b");
    assert_eq!(f.nth, 0);
    assert!(String::from_utf8_lossy(&f.history).ends_with(r#"{"a":1,"b":,}"#));
}

#[test]
fn next_key_from_parent_without_further_keys() {
    let mut walker = JsonWalker::new(StringReader::new(r#"{"a":{"b":1}}"#.to_string()), 50);
    let _ = walker.next_key_by_name("b").unwrap();
    let r = walker.next_key_from_parent();
    assert_eq!(r.unwrap_err().kind, ErrorKind::EOS);
}

#[test]
fn sibling_after_key_lands_on_next_sibling() {
    // seeking by a zero level offset right after a key lands on the next
    // sibling key, and reports no more data at the last sibling
    let mut parser = Parser::new(StringReader::new(r#"{"a":1,"b":2}"#.to_string()), 50);
    let _ = parser.next_key().unwrap();
    assert!(parser.seek_by_level_offset(0).unwrap());
    let item = parser.next_key().unwrap();
    assert_eq!(item.1, "b");
    assert!(!parser.seek_by_level_offset(0).unwrap());
}

#[test]
fn current_level_tracks_halves() {
    let mut parser = Parser::new(StringReader::new(r#"{"a":{"b":1}}"#.to_string()), 50);
    assert_eq!(parser.get_current_level(), 0);
    let _ = parser.walk_forward().unwrap(); // '{'
    assert_eq!(parser.get_current_level(), 2);
    let _ = parser.walk_forward().unwrap(); // key "a"
    let _ = parser.walk_forward().unwrap(); // ':'
    assert_eq!(parser.get_current_level(), 3);
    let _ = parser.walk_forward().unwrap(); // '{'
    assert_eq!(parser.get_current_level(), 4);
}

#[test]
fn recent_piece_mirrors_consumed_bytes() {
    let mut parser = Parser::new(StringReader::new(r#"{"a":1}"#.to_string()), 50);
    while parser.peek() != NIL {
        let _ = parser.walk_forward().unwrap();
    }
    let piece = parser.get_recent_piece();
    assert!(piece.ends_with(r#"{"a":1}"#));
    assert_eq!(piece.len(), 50);
}

#[test]
fn status_reports_empty_stack_after_document() {
    let mut parser = Parser::new(StringReader::new("[1]".to_string()), 50);
    while parser.peek() != NIL {
        let _ = parser.walk_forward().unwrap();
    }
    assert_eq!(parser.get_current_status(), "stack is empty");
}

#[test]
fn status_reports_position_fields() {
    let mut parser = Parser::new(StringReader::new(r#"{"a":1}"#.to_string()), 50);
    let _ = parser.walk_forward().unwrap();
    let status = parser.get_current_status();
    let expected = format!(
        "level: 2, key: \"\", top: '{{', nth: 0, recent: {}{}",
        " ".repeat(48),
        "{\""
    );
    assert_eq!(status, expected);
}

#[test]
fn seek_with_huge_offset_scans_to_end() {
    let mut parser = Parser::new(StringReader::new("[1,2]".to_string()), 50);
    assert!(!parser.seek_by_level_offset(i128::MAX).unwrap());
    assert_eq!(parser.peek(), NIL);
}

#[test]
fn move_to_scope_enters_wanted_container() {
    let mut parser = Parser::new(StringReader::new(r#"{"a":[1]}"#.to_string()), 50);
    parser.move_to_scope(b'{').unwrap();
    // the object was entered: the next item is its first key
    let item = parser.next_item().unwrap();
    assert_eq!(item.1, "a");
    parser.move_to_scope(b'[').unwrap();
    let item = parser.next_item().unwrap();
    assert_eq!(item.1, "1");
}

#[test]
fn align_scope_closes_finished_sequence() {
    let mut parser = Parser::new(StringReader::new("[1]".to_string()), 50);
    parser.move_to_scope(b'[').unwrap();
    let scope = parser.get_current_level();
    let _ = parser.next_item().unwrap();
    assert!(parser.align_scope(scope).unwrap());
}

#[test]
fn peek_past_separator_sees_null() {
    let mut parser = Parser::new(StringReader::new(r#"{"a":null}"#.to_string()), 50);
    let _ = parser.next_key().unwrap();
    let b = parser.peek_past_separator().unwrap();
    assert_eq!(b, b'n');
}

#[test]
fn escaped_bytes_pass_through_verbatim() {
    // the backslash and the byte after it are both copied unchanged, so
    // no escape decoding happens and the escaped quote does not end the
    // token
    let mut parser = Parser::new(StringReader::new(r#"["a\nb","c\"d"]"#.to_string()), 50);
    let _ = parser.walk_forward().unwrap(); // '['
    let item = parser.walk_forward().unwrap();
    assert_eq!(item, TextItem::Value((ValueType::Str, "a\\nb".to_string())));
    let _ = parser.walk_forward().unwrap(); // ','
    let item = parser.walk_forward().unwrap();
    assert_eq!(item, TextItem::Value((ValueType::Str, "c\\\"d".to_string())));
}

#[test]
fn number_classification_is_syntactic() {
    let mut walker = JsonWalker::new(StringReader::new("[1, 2.5, -3, +4.0]".to_string()), 50);
    assert_eq!(walker.next_item().unwrap(), (ValueType::Int, "1".to_string()));
    assert_eq!(walker.next_item().unwrap(), (ValueType::Float, "2.5".to_string()));
    assert_eq!(walker.next_item().unwrap(), (ValueType::Int, "-3".to_string()));
    assert_eq!(walker.next_item().unwrap(), (ValueType::Float, "+4.0".to_string()));
}
