use steam_vdf::vdf_parse;
use steam_vdf::Value;
use steam_vdf::VdfError;

#[test]
fn parse() {
    let ast = vdf_parse(
        r#"
            "AppState"
            {
                "appid"     "55500"
                "name"      "Test Game"
                "UserConfig"
                {
                    "language"      "english"
                }
            }
        "#,
    )
    .unwrap();

    assert_eq!(ast.index("AppState").index("appid").as_int(), Some(55500));
    assert_eq!(ast.index("AppState").index("name").as_str(), Some("Test Game"));
    assert_eq!(
        ast.index("AppState").index("UserConfig").index("language").as_str(),
        Some("english")
    );
}

#[test]
fn utf8() {
    vdf_parse("\n            \"\u{e1}\u{161}\u{a0}\" {}\n        ").unwrap();
}

#[test]
fn escaped_characters() {
    let ast = vdf_parse(
        r#"
            "AppState" { "name" "\\" }
        "#,
    )
    .unwrap();
    assert_eq!(Some(r"\"), ast.index("appstate").index("name").as_str(), "{ast:?}");
}

#[test]
fn escape_decoding_round_trip() {
    let ast = vdf_parse(r#""k" "a\"b\r\nc\\d""#).unwrap();
    assert_eq!(ast.index("k").as_str(), Some("a\"b\r\nc\\d"));
}

#[test]
fn lookup_is_case_insensitive() {
    let ast = vdf_parse(r#""AppState" { "name" "x" }"#).unwrap();
    let a = ast.index("appstate").as_str();
    let b = ast.index("APPSTATE").as_str();
    let c = ast.index("AppState").as_str();
    assert_eq!(a, b);
    assert_eq!(b, c);
    assert_eq!(ast.index("appstate").index("name").as_str(), Some("x"));
    assert_eq!(ast.index("APPSTATE").index("name").as_str(), Some("x"));
}

#[test]
fn iteration_is_sorted_and_lookup_survives() {
    let ast = vdf_parse(r#""b" "2" "a" "1" "C" "3""#).unwrap();
    let entries = ast.iter();
    let keys: Vec<&str> = entries.iter().map(|e| e.0.as_str()).collect();
    assert_eq!(keys, vec!["C", "a", "b"]);
    assert_eq!(ast.index("a").as_str(), Some("1"));
    assert_eq!(ast.index("B").as_str(), Some("2"));
    assert_eq!(ast.index("c").as_str(), Some("3"));
}

#[test]
fn null_propagates() {
    let ast = vdf_parse(r#""k" "v""#).unwrap();
    let missing = ast.index("absent");
    assert!(matches!(missing, Value::Null));
    assert!(matches!(missing.index("deeper"), Value::Null));
    assert!(missing.as_str().is_none());
    assert!(missing.as_int().is_none());
    assert!(missing.iter().is_empty());
}

#[test]
fn as_int_ranges() {
    let v = |s: &str| vdf_parse(&format!("\"k\" \"{s}\"")).unwrap().index("k").as_int();
    assert_eq!(v("55500"), Some(55500));
    assert_eq!(v("+55"), Some(55));
    assert_eq!(v("-7"), Some(-7));
    assert_eq!(v("9223372036854775807"), Some(i64::MAX));
    assert_eq!(v("9223372036854775808"), None);
    assert_eq!(v("-9223372036854775808"), Some(i64::MIN));
    assert_eq!(v("-9223372036854775809"), None);
    assert_eq!(v("00012"), Some(12));
    assert_eq!(v("12a"), None);
    assert_eq!(v(""), None);
}

#[test]
fn malformed_input_is_invalid_data() {
    assert_eq!(vdf_parse("}").unwrap_err(), VdfError::InvalidData);
    assert_eq!(vdf_parse(r#""k" }"#).unwrap_err(), VdfError::InvalidData);
    assert_eq!(vdf_parse("x").unwrap_err(), VdfError::InvalidData);
    assert_eq!(vdf_parse(r#""a" {"#).unwrap_err(), VdfError::InvalidData);
    assert_eq!(vdf_parse(r#""a" "\x""#).unwrap_err(), VdfError::InvalidData);
}

#[test]
fn string_runs_to_end_of_input() {
    let ast = vdf_parse(r#""k" "v"#).unwrap();
    assert_eq!(ast.index("k").as_str(), Some("v"));
}

#[test]
fn empty_input_is_an_empty_root() {
    let ast = vdf_parse("").unwrap();
    assert!(ast.iter().is_empty());
    assert!(matches!(ast.index("anything"), Value::Null));
}

#[test]
fn nested_maps_sort_independently() {
    let ast = vdf_parse(r#""z" { "b" "1" "a" "2" } "y" { "d" "3" "c" "4" }"#).unwrap();
    let outer: Vec<&str> = ast.iter().iter().map(|e| e.0.as_str()).collect();
    assert_eq!(outer, vec!["y", "z"]);
    let z = ast.index("z");
    let inner: Vec<&str> = z.iter().iter().map(|e| e.0.as_str()).collect();
    assert_eq!(inner, vec!["a", "b"]);
    assert_eq!(z.index("b").as_str(), Some("1"));
}

#[test]
fn non_ascii_key_is_retrievable() {
    let ast = vdf_parse("\"\u{e1}\u{161}\u{a0}\" { \"name\" \"x\" }").unwrap();
    assert_eq!(ast.index("\u{e1}\u{161}\u{a0}").index("name").as_str(), Some("x"));
}
