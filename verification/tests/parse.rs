use painful_json::parse_character;
use painful_json::parse_json;
use painful_json::Array;
use painful_json::Float;
use painful_json::Member;
use painful_json::Num;
use painful_json::ObjectMap;
use painful_json::ParseError;
use painful_json::JSON;
use painful_json::JSONPair;

fn fresh_pair() -> JSONPair {
    JSONPair {
        key: String::new(),
        value: Member::Empty,
        current_key: false,
        current_value: false,
        is_escaped: false,
    }
}

fn fresh_array() -> Array {
    Array { value: Vec::new(), data: Member::Empty, is_array: false, is_escaped: false }
}

fn float_value(f: &Float) -> f32 {
    let magnitude = (f.mantissa as f32) / 10f32.powi(f.scale as i32);
    if f.negative {
        -magnitude
    } else {
        magnitude
    }
}

#[test]
fn no_json() {
    let fake_file = "       ";

    let mut json = JSON { map: ObjectMap::new(), current_object: false, is_json: false };
    let mut json_pair = fresh_pair();
    let mut array = fresh_array();

    for char in fake_file.chars() {
        parse_character(char, &mut json_pair, &mut json, &mut array).unwrap();
    }

    assert!(!json.is_json);
}

#[test]
fn json() {
    let json = parse_json("{}").unwrap();

    assert!(json.is_json);
}

#[test]
fn bool_json() {
    let json = parse_json("{\"bool\":true}").unwrap();

    let field = json.map.get("bool").unwrap_or(&Member::Empty);

    match field {
        Member::Bool(bool) => {
            assert!(bool.value);
        }
        _ => {
            panic!("Not a boolean");
        }
    };
}

#[test]
fn uint_json() {
    let json = parse_json("{\"uinter\":22,\"inter\":-22,\"floater\":-22.1}").unwrap();

    let field: &Member = json.map.get("uinter").unwrap_or(&Member::Empty);

    let value: Num = match *field {
        Member::Num(num) => num.value,
        _ => Num::Empty,
    };

    match value {
        Num::Uint(uint) => {
            assert!(uint == 22);
        }
        _ => {
            assert!(false);
        }
    };
}

#[test]
fn int_json() {
    let json = parse_json("{\"uinter\":22,\"inter\":-22,\"floater\":-22.1}").unwrap();

    let field: &Member = json.map.get("inter").unwrap_or(&Member::Empty);

    let value: Num = match *field {
        Member::Num(num) => num.value,
        _ => Num::Empty,
    };

    match value {
        Num::Int(int) => {
            assert!(int == -22);
        }
        _ => {
            assert!(false);
        }
    };
}

#[test]
fn flt_json() {
    let json = parse_json("{\"uinter\":22,\"inter\":-22,\"floater\":-22.1}").unwrap();

    let field: &Member = json.map.get("floater").unwrap_or(&Member::Empty);

    let value: Num = match *field {
        Member::Num(num) => num.value,
        _ => Num::Empty,
    };

    match value {
        Num::Flt(flt) => {
            assert!(float_value(&flt) == -22.1);
        }
        _ => {
            assert!(false);
        }
    };
}

#[test]
fn string_json() {
    let json = parse_json("{\"stringer\":\"hello\"}").unwrap();

    let field: &Member = json.map.get("stringer").unwrap_or(&Member::Empty);

    let value: String = match field {
        Member::Str(str) => str.to_string(),
        _ => String::from(""),
    };

    assert!(value == "hello");
}

#[test]
fn escaped_quote_json() {
    let json = parse_json("{\"stringer\":\"hello\\\"\",\"slasher\":\"hello\\\\\"}").unwrap();

    let field: &Member = json.map.get("stringer").unwrap_or(&Member::Empty);

    let value: String = match field {
        Member::Str(str) => str.to_string(),
        _ => String::from(""),
    };

    assert!(value == "hello\"");
}

#[test]
fn escaped_slash_json() {
    let json = parse_json("{\"stringer\":\"hello\\\"\",\"slasher\":\"hello\\\\\"}").unwrap();

    let field: &Member = json.map.get("slasher").unwrap_or(&Member::Empty);

    let value: String = match field {
        Member::Str(str) => str.to_string(),
        _ => String::from(""),
    };

    assert!(value == "hello\\");
}

#[test]
fn empty_array_json() {
    let json = parse_json("{\"arr\":[]}").unwrap();

    let field: &Member = json.map.get("arr").unwrap_or(&Member::Empty);

    match field {
        Member::Arr(arr) => {
            assert!(arr.len() == 0);
        }
        _ => {
            panic!("No array found");
        }
    };
}

#[test]
fn array_json() {
    let json = parse_json("{\"arr\":[1,-1,22.0,\"jimmy\",true]}").unwrap();

    let field: &Member = json.map.get("arr").unwrap_or(&Member::Empty);

    match field {
        Member::Arr(arr) => {
            let uint = arr.get(0).unwrap_or(&Member::Empty);
            match uint {
                Member::Num(num) => match num.value {
                    Num::Uint(uint) => {
                        assert!(uint == 1);
                    }
                    _ => (),
                },
                _ => (),
            };

            let int = arr.get(1).unwrap_or(&Member::Empty);
            match int {
                Member::Num(num) => match num.value {
                    Num::Int(int) => {
                        assert!(int == -1);
                    }
                    _ => (),
                },
                _ => (),
            };

            let flt = arr.get(2).unwrap_or(&Member::Empty);
            match flt {
                Member::Num(num) => match num.value {
                    Num::Flt(fltr) => {
                        assert!(float_value(&fltr) == 22.0);
                    }
                    _ => (),
                },
                _ => (),
            };

            let stringer = arr.get(3).unwrap_or(&Member::Empty);
            match stringer {
                Member::Str(str) => {
                    assert!(str == "jimmy");
                }
                _ => (),
            }

            let booler = arr.get(4).unwrap_or(&Member::Empty);
            match booler {
                Member::Bool(booly) => {
                    assert!(booly.value);
                }
                _ => (),
            }
        }
        _ => {
            panic!("No array found");
        }
    };
}

#[test]
fn empty_object_has_no_entries() {
    let json = parse_json("{}").unwrap();

    assert!(json.is_json);
    assert_eq!(json.map.len(), 0);
}

#[test]
fn whitespace_only_is_no_document() {
    assert_eq!(parse_json("   ").unwrap_err(), ParseError::NoDocumentFound);
}

#[test]
fn content_before_brace_fails() {
    assert_eq!(parse_json("x").unwrap_err(), ParseError::DocumentNotStarted);
    assert_eq!(parse_json("  {\"a\":1}  x").unwrap_err(), ParseError::DocumentNotStarted);
}

#[test]
fn misspelled_boolean_fails() {
    assert_eq!(parse_json("{\"b\":trye}").unwrap_err(), ParseError::MalformedBoolean);
}

#[test]
fn overlong_boolean_fails() {
    assert_eq!(parse_json("{\"b\":truee}").unwrap_err(), ParseError::MalformedBoolean);
    assert_eq!(parse_json("{\"b\":falsee}").unwrap_err(), ParseError::MalformedBoolean);
    assert_eq!(parse_json("{\"b\":truetrue}").unwrap_err(), ParseError::MalformedBoolean);
}

#[test]
fn unmatched_close_fails() {
    assert_eq!(parse_json("}").unwrap_err(), ParseError::UnmatchedClose);
    assert_eq!(parse_json("  }").unwrap_err(), ParseError::UnmatchedClose);
    assert_eq!(parse_json("{}}").unwrap_err(), ParseError::UnmatchedClose);
}

#[test]
fn letter_inside_number_fails() {
    assert_eq!(parse_json("{\"a\":1x}").unwrap_err(), ParseError::MalformedNumber);
}

#[test]
fn oversized_number_fails() {
    assert_eq!(parse_json("{\"a\":4294967295}").unwrap().map.len(), 1);
    assert_eq!(parse_json("{\"a\":4294967296}").unwrap_err(), ParseError::NumberTooLarge);
}

#[test]
fn bare_key_character_fails() {
    assert_eq!(parse_json("{x:1}").unwrap_err(), ParseError::MalformedKey);
}

#[test]
fn negative_sign_applied_once() {
    let json = parse_json("{\"inter\":-22}").unwrap();

    assert_eq!(
        json.map.get("inter"),
        Some(&Member::Num(painful_json::Number {
            value: Num::Int(-22),
            digit: 2,
            is_negative: false,
        }))
    );
}

#[test]
fn positive_float_is_exact() {
    let json = parse_json("{\"floater\":22.1}").unwrap();

    assert_eq!(
        json.map.get("floater"),
        Some(&Member::Num(painful_json::Number {
            value: Num::Flt(Float { mantissa: 221, scale: 1, negative: false }),
            digit: 1,
            is_negative: false,
        }))
    );
}

#[test]
fn array_order_is_kept() {
    let json = parse_json("{\"arr\":[1,-1,22.0]}").unwrap();

    match json.map.get("arr") {
        Some(Member::Arr(arr)) => {
            assert_eq!(arr.len(), 3);
            assert!(matches!(arr[0], Member::Num(n) if n.value == Num::Uint(1)));
            assert!(matches!(arr[1], Member::Num(n) if n.value == Num::Int(-1)));
            assert!(matches!(
                arr[2],
                Member::Num(n) if n.value == Num::Flt(Float { mantissa: 220, scale: 1, negative: false })
            ));
        }
        _ => panic!("No array found"),
    }
}

#[test]
fn duplicate_key_overwrites() {
    let json = parse_json("{\"k\":1,\"k\":2}").unwrap();

    assert_eq!(json.map.len(), 1);
    assert!(matches!(
        json.map.get("k"),
        Some(&Member::Num(n)) if n.value == Num::Uint(2)
    ));
}

#[test]
fn whitespace_finalizes_number_in_place() {
    let json = parse_json("{\"a\": -2 }").unwrap();

    assert!(matches!(
        json.map.get("a"),
        Some(&Member::Num(n)) if n.value == Num::Int(-2)
    ));
}

#[test]
fn escape_codes_decode() {
    let json = parse_json("{\"s\":\"a\\nb\\tc\\rd\\\\e\\\"f\"}").unwrap();

    match json.map.get("s") {
        Some(Member::Str(s)) => assert_eq!(s, "a\nb\tc\rd\\e\"f"),
        _ => panic!("Not a string"),
    }
}

#[test]
fn reparse_rendered_document() {
    let doc = "{\"a\":1,\"b\":-22,\"c\":22.1,\"s\":\"hi\\\"x\",\"t\":true,\"u\":false,\"arr\":[1,-1,22.0,\"jimmy\",true]}";
    let first = parse_json(doc).unwrap();
    let rendered = first.render();
    let second = parse_json(&rendered).unwrap();

    assert!(second.is_json);
    assert_eq!(first.map.len(), second.map.len());
    assert_eq!(first.map.get("a"), second.map.get("a"));
    assert_eq!(first.map.get("b"), second.map.get("b"));
    assert_eq!(first.map.get("c"), second.map.get("c"));
    assert_eq!(first.map.get("s"), second.map.get("s"));
    assert_eq!(first.map.get("t"), second.map.get("t"));
    assert_eq!(first.map.get("u"), second.map.get("u"));
    assert_eq!(first.map.get("arr"), second.map.get("arr"));
    assert_eq!(rendered, second.render());
}

#[test]
fn rendered_document_text_is_exact() {
    let json = parse_json("{ \"a\" : 1 , \"s\" : \"x\" }").unwrap();

    assert_eq!(json.render(), "{\"a\":1,\"s\":\"x\"}");
}

#[test]
fn plain_rendering_of_members() {
    let json = parse_json("{\"b\":true,\"n\":-22,\"f\":-22.1,\"s\":\"hello\"}").unwrap();

    assert_eq!(json.map.get("b").unwrap().render(), "true");
    assert_eq!(json.map.get("n").unwrap().render(), "-22");
    assert_eq!(json.map.get("f").unwrap().render(), "-22.1");
    assert_eq!(json.map.get("s").unwrap().render(), "hello");
    assert_eq!(Member::Empty.render(), "Not quite done yet");
}
