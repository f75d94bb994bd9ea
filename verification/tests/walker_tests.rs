use json_walker::json_walker::{CurrentState, JsonWalker, StringReader};
use json_walker::types::{Content, ValueType};
use json_walker::Error;

const CORRECT_JSON: &str = r#" {"key1":null,"key2":true,"key3":false,"key4":111,"key5":111.111,"key6":"str1 \":{}[],","key7":{  "key71" : null ,  "key72" : true ,  "key73" : false ,  "key74" : 222 ,  "key75" : 222.222 ,  "key76" : "str2 \":{}[]," ,  "key78" : [    null ,    true ,    false ,    333 ,    333.333 ,    "str3 \":{}[]," ,    {  } ,    [  ]  ] ,  "key79" : {} ,  "key710": [  ] } , "key8" : [  null ,  true ,  false ,  444 ,  444.444 ,  "str4 \":{}[]," ,  {    "key81" : null ,    "key82" : true ,    "key83" : false ,    "key84" : 555 ,
      "key85" : 555.555 ,
      "key86" : "str5 \":{}[]," ,    "key89" : {} ,    "key810" : [ ]  } ,  { } ,  [ ]  ] , "key9" : { } , "key10" : [ ]
} "#;

#[test]
fn test_next_item() {
    // keys and values must be retrieved in order
    let words = [
        "key1",
        "null",
        "key2",
        "true",
        "key3",
        "false",
        "key4",
        "111",
        "key5",
        "111.111",
        "key6",
        "str1 \\\":{}[],",
        "key7",
        "key71",
        "null",
        "key72",
        "true",
        "key73",
        "false",
        "key74",
        "222",
        "key75",
        "222.222",
        "key76",
        "str2 \\\":{}[],",
        "key78",
        "null",
        "true",
        "false",
        "333",
        "333.333",
        "str3 \\\":{}[],",
        "key79",
        "key710",
        "key8",
        "null",
        "true",
        "false",
        "444",
        "444.444",
        "str4 \\\":{}[],",
        "key81",
        "null",
        "key82",
        "true",
        "key83",
        "false",
        "key84",
        "555",
        "key85",
        "555.555",
        "key86",
        "str5 \\\":{}[],",
        "key89",
        "key810",
        "key9",
        "key10",
    ];
    let mut word_index = 0;
    let mut walker = JsonWalker::new(StringReader::new(CORRECT_JSON.to_string()), 50);
    loop {
        match walker.next_item() {
            Err(_) => {
                break;
            }
            Ok(t) => {
                assert!(t.1.eq(words[word_index]));
                word_index += 1;
            }
        }
    }
}

#[test]
fn test_next_key() {
    // only keys must be retrieved in order, no matter if the key belongs to a child or parent node
    let words = [
        "key1", "key2", "key3", "key4", "key5", "key6", "key7", "key71", "key72", "key73",
        "key74", "key75", "key76", "key78", "key79", "key710", "key8", "key81", "key82",
        "key83", "key84", "key85", "key86", "key89", "key810", "key9", "key10",
    ];
    let mut word_index = 0;
    let mut walker = JsonWalker::new(StringReader::new(CORRECT_JSON.to_string()), 50);
    loop {
        match walker.next_key() {
            Err(_) => {
                break;
            }
            Ok(t) => {
                assert!(t.1.eq(words[word_index]));
                word_index += 1;
            }
        }
    }
}

#[test]
fn test_next_key_by_name() {
    // key must be retrieved by its name, no matter if the key belongs to a child or parent node
    let mut walker = JsonWalker::new(StringReader::new(CORRECT_JSON.to_string()), 50);
    let result = walker.next_key_by_name("key2");
    assert_eq!(
        Ok((ValueType::Str, String::from("key2"))),
        result,
        r#"next_key_by_name("key2") != "key2" "#
    );

    let result = walker.next_key_by_name("key71");
    assert_eq!(
        Ok((ValueType::Str, String::from("key71"))),
        result,
        r#"next_key_by_name("key71") != "key71" "#
    );

    let result = walker.next_key_by_name("key82");
    assert_eq!(
        Ok((ValueType::Str, String::from("key82"))),
        result,
        r#"next_key_by_name("key82") != "key82" "#
    );

    let result = walker.next_key_by_name("key");
    assert_eq!(Err(Error::new_eos()), result, r#"next_key_by_name("key") != "key" "#);
}

#[test]
fn test_get_path_and_get_path_string() {
    let mut walker = JsonWalker::new(StringReader::new(CORRECT_JSON.to_string()), 50);
    let _ = walker.next_key_by_name("key81");
    let path = walker.get_path_string();
    assert_eq!(path, "#/{key8,7}/[key8,6]/{key81,0}/");
}

#[test]
fn test_next_sibling_key_for_level0() {
    let mut walker = JsonWalker::new(StringReader::new(CORRECT_JSON.to_string()), 50);
    let _ = walker.next_key();
    let keys = [
        "key1", "key2", "key3", "key4", "key5", "key6", "key7", "key8", "key9", "key10",
    ];
    let mut i = 1;
    loop {
        match walker.next_sibling_key() {
            Err(_) => {
                assert_eq!(i, keys.len());
                break;
            }
            Ok(k) => {
                assert_eq!(k.1, String::from(keys[i]));
                i += 1;
            }
        }
    }
}

#[test]
fn test_next_sibling_key_for_level1() {
    let mut walker = JsonWalker::new(StringReader::new(CORRECT_JSON.to_string()), 50);
    let _ = walker.next_key_by_name("key71");
    let keys = [
        "key71", "key72", "key73", "key74", "key75", "key76", "key78", "key79", "key710",
    ];
    let mut i = 1;
    loop {
        match walker.next_sibling_key() {
            Err(_) => {
                assert_eq!(i, keys.len());
                break;
            }
            Ok(k) => {
                assert_eq!(k.1, String::from(keys[i]));
                i += 1;
            }
        }
    }
}

#[test]
fn test_next_sibling_key_for_level2() {
    let mut walker = JsonWalker::new(StringReader::new(CORRECT_JSON.to_string()), 50);
    let _ = walker.next_key_by_name("key81");
    let keys = [
        "key81", "key82", "key83", "key84", "key85", "key86", "key89", "key810",
    ];
    let mut i = 1;
    loop {
        match walker.next_sibling_key() {
            Err(_) => {
                assert_eq!(i, keys.len());
                break;
            }
            Ok(k) => {
                assert_eq!(k.1, String::from(keys[i]));
                i += 1;
            }
        }
    }
}

#[test]
fn test_next_child_key() {
    // key1 holds a scalar, so it has no child key at all; the child of
    // key7, whose value is a nested object, is that object's first key
    let mut walker = JsonWalker::new(StringReader::new(CORRECT_JSON.to_string()), 50);
    let _ = walker.next_key_by_name("key1"); // seek key1
    let item = walker.next_child_key();
    assert_eq!(item, Err(Error::new_eos()));

    let mut walker = JsonWalker::new(StringReader::new(CORRECT_JSON.to_string()), 50);
    let _ = walker.next_key_by_name("key7"); // seek key7
    let item = walker.next_child_key();
    assert_eq!(item, Ok((ValueType::Str, "key71".to_string())))
}

#[test]
fn test_next_key_from_parent() {
    let mut walker = JsonWalker::new(StringReader::new(CORRECT_JSON.to_string()), 50);
    let _ = walker.next_key_by_name("key71"); // seek key71
    let item = walker.next_key_from_parent();
    assert_eq!(item, Ok((ValueType::Str, "key8".to_string())))
}

#[test]
fn test_next_item_by_pattern_some_items_in_middle() {
    let json = r#"[{"key1":"key1","key2":10},[{"key1":null, "key3":100}],"key1"]"#;
    let mut walker = JsonWalker::new(StringReader::new(json.to_string()), 50);
    let pattern: Vec<fn(&CurrentState) -> bool> =
        vec![|cs: &CurrentState| -> bool { cs.current_item.1.eq("key1") }];

    for _ in 0..4 {
        let item = walker.next_item_by_pattern(&pattern);
        assert_eq!(item, Ok((ValueType::Str, String::from("key1"))));
    }

    let item = walker.next_item_by_pattern(&pattern);
    assert_eq!(item, Err(Error::new_eos()));
}

#[test]
fn test_next_item_by_pattern_item_in_path() {
    let json = r#"[{"key1":{"key4":100},"key2":10},[{"key1":{"key4":300}, "key3":100}],"key1"]"#;
    let mut walker = JsonWalker::new(StringReader::new(json.to_string()), 50);
    let pattern: Vec<fn(&CurrentState) -> bool> = vec![
        |cs: &CurrentState| -> bool { cs.level_halves == 4 && cs.nth_occurrence == 0 },
        |cs: &CurrentState| -> bool { cs.latest_key.eq("key1") && cs.level_halves == 6 },
        |cs: &CurrentState| -> bool { cs.latest_key.eq("key4") },
    ];

    let item = walker.next_item_by_pattern(&pattern);
    assert_eq!(item, Ok((ValueType::Str, String::from("key4"))));
}

#[test]
fn test_next_item_by_level() {
    let json = r#"[{"key1":{"key4":100},"key2":10},[{"key1":{"key4":300}, "key3":100}],"key1"]"#;
    let mut walker = JsonWalker::new(StringReader::new(json.to_string()), 50);
    let item = walker.next_item_by_level(4);
    assert_eq!(item, Ok((ValueType::Str, String::from("key1"))));

    let item = walker.next_item_by_level(8);
    assert_eq!(item, Ok((ValueType::Str, String::from("key4"))));
}

#[test]
fn test_current_value() {
    let item = |v: &str, is_str: bool| -> Content {
        Content::Simple((
            if is_str {
                ValueType::Str
            } else {
                ValueType::Int
            },
            String::from(v),
        ))
    };

    let object = |d: Vec<(&str, Content)>| -> Content {
        let mut o = Vec::new();
        for x in d {
            o.push((String::from(x.0), x.1));
        }
        Content::Object(o)
    };

    let array = |d: Vec<Content>| -> Content { Content::Array(d) };

    let s = r#"[{"key1" :{"key4" :100 },"key2" :10 },[{"key1" :{"key4" :300}, "key3":100}],"key1"]"#;

    // fetch all
    let mut walker = JsonWalker::new(StringReader::new(s.to_string()), 50);
    let a = walker.current_value_content();
    assert_eq!(
        a,
        Ok(array(vec![
            object(vec![
                ("key1", object(vec![("key4", item("100", false))])),
                ("key2", item("10", false)),
            ]),
            array(vec![object(vec![
                ("key1", object(vec![("key4", item("300", false))])),
                ("key3", item("100", false)),
            ])]),
            item("key1", true),
        ]))
    );

    // fetch only first item
    let mut walker = JsonWalker::new(StringReader::new(s.to_string()), 50);
    let _ = walker.move_n_element_forward(1);
    let a = walker.current_value_content();
    assert_eq!(
        a,
        Ok(object(vec![
            ("key1", object(vec![("key4", item("100", false))])),
            ("key2", item("10", false)),
        ]))
    );

    // fetch only a simple item
    let mut walker = JsonWalker::new(StringReader::new(s.to_string()), 50);
    let _ = walker.next_key_by_name("key2");
    let a = walker.current_value_content();
    assert_eq!(a, Ok(item("10", false)));
}

#[test]
fn test_json_file() {}
