use beast::json::Json;

#[test]
fn round_trips_object() {
    let v = Json::parse(r#"{"or":[{"var":"a"},true]}"#).unwrap();
    assert_eq!(v.to_string(), r#"{"or":[{"var":"a"},true]}"#);
}

#[test]
fn parses_array_and_strings() {
    let v = Json::parse(r#"["and",["x0",["not","x1"]]]"#).unwrap();
    assert_eq!(v.to_string(), r#"["and",["x0",["not","x1"]]]"#);
}

#[test]
fn rejects_garbage() {
    assert!(Json::parse("{bad}").is_err());
    assert!(Json::parse("").is_err());
    assert!(Json::parse("[1,2").is_err());
}

fn get<'a>(v: &'a Json, k: &str) -> &'a Json {
    v.get(k).unwrap()
}

#[test]
fn accessors_work() {
    let v = Json::parse(r#"{"var":"name"}"#).unwrap();
    assert_eq!(get(&v, "var").as_str(), Some("name"));
}

// ---------------------------------------------------------------------------------------------------------------------
// Further cases.

#[test]
fn whitespace_between_tokens_is_dropped() {
    let v = Json::parse(" \t{ \"a\" : [ 1 , -2.5e3 , null , false ] }\r\n").unwrap();
    assert_eq!(v.to_string(), r#"{"a":[1,-2.5e3,null,false]}"#);
}

#[test]
fn string_escapes_are_read_and_written() {
    let v = Json::parse(r#""q\"b\\s\/n\nr\rt\tb\bf\fu\u00e9\u0001""#).unwrap();
    assert_eq!(v.as_str(), Some("q\"b\\s/n\nr\rt\tb\u{8}f\u{c}u\u{e9}\u{1}"));
    assert_eq!(v.to_string(), "\"q\\\"b\\\\s/n\\nr\\rt\\tb\\bf\\fu\u{e9}\\u0001\"");
}

#[test]
fn multibyte_characters_pass_through() {
    let v = Json::parse("{\"v\u{e4}r\":\"\u{1F600}\u{2227}\"}").unwrap();
    assert_eq!(v.get("v\u{e4}r").unwrap().as_str(), Some("\u{1F600}\u{2227}"));
    assert_eq!(v.to_string(), "{\"v\u{e4}r\":\"\u{1F600}\u{2227}\"}");
}

#[test]
fn error_messages_name_the_byte() {
    assert_eq!(Json::parse("").unwrap_err(), "unexpected end of input");
    assert_eq!(Json::parse("{bad}").unwrap_err(), "expected '\"' at byte 1");
    assert_eq!(Json::parse("[1,2").unwrap_err(), "expected ',' or ']' at byte 4");
    assert_eq!(Json::parse("[1;2]").unwrap_err(), "expected ',' or ']' at byte 3");
    assert_eq!(Json::parse(r#"{"a" 1}"#).unwrap_err(), "expected ':' at byte 5");
    assert_eq!(Json::parse(r#"{"a":1;"#).unwrap_err(), "expected ',' or '}' at byte 7");
    assert_eq!(Json::parse("true x").unwrap_err(), "trailing characters at byte 5");
    assert_eq!(Json::parse("tru").unwrap_err(), "invalid literal at byte 0");
    assert_eq!(Json::parse("nul").unwrap_err(), "invalid literal at byte 0");
    assert_eq!(Json::parse("@").unwrap_err(), "unexpected character '@' at byte 0");
    assert_eq!(Json::parse("\"abc").unwrap_err(), "unterminated string");
    assert_eq!(Json::parse(r#""\q""#).unwrap_err(), "invalid escape at byte 3");
    assert_eq!(Json::parse(r#""\u12"#).unwrap_err(), "truncated \\u escape");
    assert_eq!(Json::parse(r#""\u12g4""#).unwrap_err(), "invalid hex digit in \\u escape at byte 6");
    assert_eq!(Json::parse(r#""\ud800""#).unwrap_err(), "invalid unicode code point");
    assert_eq!(Json::parse("1.2.3").unwrap_err(), "invalid number '1.2.3'");
    assert_eq!(Json::parse("-").unwrap_err(), "invalid number '-'");
}

#[test]
fn number_syntax_is_what_std_accepts() {
    // Every short text over the characters a number literal may hold is accepted exactly when std parses it as an
    // `f64`.
    let alphabet = ['0', '1', '.', 'e', 'E', '+', '-'];
    let mut texts: Vec<String> = vec![String::new()];
    for _ in 0..5 {
        let mut next = Vec::new();
        for t in &texts {
            for c in alphabet {
                let mut u = t.clone();
                u.push(c);
                next.push(u);
            }
        }
        texts.extend(next.iter().cloned());
        texts = texts.into_iter().collect::<std::collections::BTreeSet<_>>().into_iter().collect();
    }
    for t in &texts {
        let chars: Vec<char> = t.chars().collect();
        assert_eq!(beast::json::is_float_literal(&chars), t.parse::<f64>().is_ok(), "for {:?}", t);
    }
}

#[test]
fn get_finds_the_first_member_with_the_key() {
    let v = Json::parse(r#"{"k":1,"k":2,"x":"y"}"#).unwrap();
    assert_eq!(v.get("k").unwrap().to_string(), "1");
    assert!(v.get("z").is_none());
    assert!(Json::parse("[1]").unwrap().get("k").is_none());
    assert_eq!(Json::parse("[1,[]]").unwrap().as_array().unwrap().len(), 2);
    assert!(Json::parse("true").unwrap().as_array().is_none());
    assert!(Json::parse("1").unwrap().as_str().is_none());
}
