use twill::asks::{Answer, Ask, Reals};
use twill::lex::{lex, render_tokens, Tok};

fn tokens(sql: &str, reals: &Reals) -> Vec<Tok> {
    match lex(sql, reals) {
        Ok(t) => t,
        Err(_) => panic!("{sql}"),
    }
}

fn written(toks: &Vec<Tok>, tight: bool, reals: &Reals) -> String {
    match render_tokens(toks, 0, toks.len() - 1, tight, reals) {
        Ok(s) => s,
        Err(_) => panic!("no text"),
    }
}

#[test]
fn written_tokens_read_back() {
    let none = Reals::new();
    let cases = [
        ("price>=10 AND(name<>'o''x'OR a::int IN(1,2))", "price >= 10 AND (name <> 'o''x' OR a::int IN (1, 2))"),
        ("a<->b<=>c<#>d||'--'->>'k'->$2", "a <-> b <=> c <#> d || '--' ->> 'k' -> $2"),
        ("x-  -1 -- note", "x - - 1"),
        (":who = ? % 3;", ":who = ? % 3 ;"),
    ];
    for (sql, want) in cases {
        let toks = tokens(sql, &none);
        let text = written(&toks, false, &none);
        assert_eq!(text, want);
        assert_eq!(format!("{:?}", tokens(&text, &none)), format!("{toks:?}"));
    }
    let toks = tokens("auth.uid() = t.owner", &none);
    assert_eq!(written(&toks, false, &none), "auth . uid () = t . owner");
    let text = written(&toks, true, &none);
    assert_eq!(text, "auth.uid() = t.owner");
    assert_eq!(format!("{:?}", tokens(&text, &none)), format!("{toks:?}"));
}

#[test]
fn a_real_is_written_as_a_real() {
    let mut reals = Reals::new();
    let cases = [("2.50", 2.5f64, "2.5", "2.5"), ("5.0", 5.0, "5", "5.0")];
    for (sql, x, shown, want) in cases {
        reals.file(Ask::Parse(sql.to_string()), Answer::Number(Some(x.to_bits())));
        reals.file(Ask::Parse(want.to_string()), Answer::Number(Some(x.to_bits())));
        reals.file(Ask::Show(x.to_bits()), Answer::Text(shown.to_string()));
        let toks = tokens(sql, &reals);
        let text = written(&toks, false, &reals);
        assert_eq!(text, want);
        assert_eq!(format!("{:?}", tokens(&text, &reals)), format!("{toks:?}"));
    }
    let beyond = Answer::Number(Some(f64::INFINITY.to_bits()));
    reals.file(Ask::Parse("1e999".to_string()), beyond);
    let toks = tokens("1e999", &reals);
    assert_eq!(written(&toks, false, &reals), "1e999");
}

#[test]
fn a_name_is_written_with_the_quotes_it_needs() {
    let none = Reals::new();
    let cases = [
        ("\"two words\" = 1", "\"two words\" = 1"),
        ("\"plain\" = 1", "plain = 1"),
        ("`a\"b` = \"\"", "`a\"b` = \"\""),
        ("\"2nd\" IN (\"\u{e9}\")", "\"2nd\" IN (\"\u{e9}\")"),
    ];
    for (sql, want) in cases {
        let toks = tokens(sql, &none);
        let text = written(&toks, false, &none);
        assert_eq!(text, want);
        assert_eq!(format!("{:?}", tokens(&text, &none)), format!("{toks:?}"));
    }
    let toks = tokens("\"two words\"", &none);
    assert!(matches!(&toks[0], Tok::Word(w) if w == "two words"));
}

#[test]
fn a_string_is_written_as_it_stood() {
    let none = Reals::new();
    for sql in ["'h\u{e9}llo'", "'\u{20ac} \u{1f600}'", "'it''s'", "'\u{c3}'"] {
        let toks = tokens(sql, &none);
        let text = written(&toks, false, &none);
        assert_eq!(text, sql);
        assert_eq!(format!("{:?}", tokens(&text, &none)), format!("{toks:?}"));
    }
}
