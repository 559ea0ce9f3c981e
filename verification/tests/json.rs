use webscout::json::Json;
use webscout::types::Figure;

fn text(s: &str) -> Json {
    Json::Text(s.to_string())
}

fn sample() -> Json {
    Json::Object(vec![
        ("empty".to_string(), Json::List(Vec::new())),
        ("half".to_string(), Json::Real(Figure { bits: 0.5f64.to_bits(), text: "0.5".to_string() })),
        ("list".to_string(), Json::List(vec![Json::Whole(1), Json::Below(-2), Json::Null])),
        ("none".to_string(), Json::Object(Vec::new())),
        ("yes".to_string(), Json::Bool(true)),
    ])
}

#[test]
fn compact_text_has_no_spaces() {
    assert_eq!(
        sample().to_text(),
        r#"{"empty":[],"half":0.5,"list":[1,-2,null],"none":{},"yes":true}"#
    );
}

#[test]
fn strings_are_escaped_as_serde_escapes_them() {
    let raw = "quote \" back \\ nl \n cr \r tab \t bs \u{8} ff \u{c} esc \u{1b} nul \u{0} \u{e9} \u{1f600} \u{7f}";
    assert_eq!(text(raw).to_text(), serde_json::to_string(raw).unwrap());
    for c in 0u32..0x80 {
        let s = char::from_u32(c).unwrap().to_string();
        assert_eq!(text(&s).to_text(), serde_json::to_string(&s).unwrap(), "{c}");
    }
}

#[test]
fn indented_text_is_laid_out_as_serde_lays_it_out() {
    let v: serde_json::Value = serde_json::from_str(&sample().to_text()).unwrap();
    assert_eq!(sample().to_pretty(), serde_json::to_string_pretty(&v).unwrap());
    assert_eq!(Json::List(Vec::new()).to_pretty(), "[]");
    assert_eq!(Json::Object(Vec::new()).to_pretty(), "{}");
    assert_eq!(text("a").to_pretty(), "\"a\"");
}

#[test]
fn whole_numbers_keep_every_digit() {
    assert_eq!(Json::Whole(u64::MAX).to_text(), "18446744073709551615");
    assert_eq!(Json::Below(i64::MIN).to_text(), "-9223372036854775808");
}

#[test]
fn a_list_can_be_looked_into() {
    let v = Json::List(vec![Json::Bool(false), text("b")]);
    assert_eq!(v.as_list().map(|l| l.len()), Some(2));
    assert!(text("b").as_list().is_none());
}
