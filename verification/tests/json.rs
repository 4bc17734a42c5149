use twill::asks::Reals;
use twill::json::Json;

fn text(j: &Json) -> Option<String> {
    j.as_text(&Reals::new()).ok().unwrap().map(|cs| cs.into_iter().collect())
}

fn whole(j: &Json) -> String {
    j.to_json_text(&Reals::new()).ok().unwrap().into_iter().collect()
}

#[test]
fn navigates_objects_and_arrays() {
    let j = Json::parse(r#"{"a":{"b":[10,20,30]},"s":"hi"}"#).unwrap();
    assert_eq!(text(j.get_key("s").unwrap()).as_deref(), Some("hi"));
    let b = j.extract_path("$.a.b[1]").unwrap();
    assert_eq!(text(b).as_deref(), Some("20"));
    assert_eq!(
        text(j.extract_path("$.a.b[-1]").unwrap()).as_deref(),
        Some("30")
    );
    assert!(j.get_key("missing").is_none());
}

#[test]
fn reserializes_compactly() {
    let j = Json::parse(r#"{ "x" : [1, 2] }"#).unwrap();
    assert_eq!(whole(&j), r#"{"x":[1,2]}"#);
}

#[test]
fn refuses_what_is_no_document() {
    for s in ["", "{", "[1,]", "{\"a\":}", "tru", "\"open", "1 2", "{\"a\" 1}"] {
        assert!(Json::parse(s).is_none(), "{s}");
    }
    for s in ["+1", "01", "-", "1.", ".5", "-.5", "1e", "1e+", "--1", "\u{c}1", "\"a\nb\""] {
        assert!(Json::parse(s).is_none(), "{s}");
    }
    for s in ["0", "-0", "10", "0.5", "-0.50e-3", "1E9", " \t\r\n1 "] {
        assert!(Json::parse(s).is_some(), "{s}");
    }
}

#[test]
fn strings_escape_and_unescape() {
    let j = Json::parse(r#""a\n\t\"\\\/A""#).unwrap();
    assert_eq!(text(&j).as_deref(), Some("a\n\t\"\\/A"));
    assert_eq!(whole(&j), r#""a\n\t\"\\/A""#);
    assert_eq!(text(&Json::parse("null").unwrap()), None);
    assert_eq!(text(&Json::parse("true").unwrap()).as_deref(), Some("true"));
}

#[test]
fn what_is_written_reads_back() {
    let docs = [
        "null",
        "[ ]",
        "{ }",
        " [1, -20, [true, false], {\"a\": null}] ",
        "{\"k\": \"v\", \"\": [[]], \"q\\\"\": \"\\u0001\\u001f/\\b\\f\\r\"}",
        "999999999999999",
        "\"\u{e9}\u{1f600}\"",
    ];
    for d in docs {
        let once = whole(&Json::parse(d).unwrap());
        let again = Json::parse(&once).unwrap();
        assert_eq!(whole(&again), once);
    }
    let j = Json::parse("{\"k\": \"\\u0001\\b\", \"n\": [7, -0]}").unwrap();
    assert_eq!(whole(&j), "{\"k\":\"\\u0001\\u0008\",\"n\":[7,0]}");
}
