use labelgen::data::{FormatError, FormatSpec, FormatString};

fn keys(pairs: &[(&str, &str)]) -> Vec<(String, String)> {
    pairs.iter().map(|(k, v)| (k.to_string(), v.to_string())).collect()
}

fn eval(f: &FormatString, default: &str, k: &[(&str, &str)]) -> Result<String, FormatError> {
    let mut out = String::new();
    f.eval(default, &keys(k), &mut out)?;
    Ok(out)
}

#[test]
fn escapes_parse() {
    let open = FormatString::parse("{{").unwrap();
    assert_eq!(open.args.len(), 1);
    assert_eq!(open.args[0].fmt, FormatSpec::EscapeLeftBrace);
    assert_eq!(open.rest, "");
    let close = FormatString::parse("}}").unwrap();
    assert_eq!(close.args.len(), 1);
    assert_eq!(close.args[0].fmt, FormatSpec::EscapeRightBrace);
}

#[test]
fn lone_braces_are_malformed() {
    for t in ["{", "}", "{unclosed"] {
        match FormatString::parse(t) {
            Err(FormatError::MalformedTemplate(s)) => assert_eq!(s, t),
            other => panic!("{t}: {other:?}"),
        }
    }
}

#[test]
fn close_before_open_is_malformed() {
    assert!(matches!(
        FormatString::parse("a}b{c}"),
        Err(FormatError::MalformedTemplate(_))
    ));
}

#[test]
fn unknown_key_fails() {
    let f = FormatString::parse("{foo}").unwrap();
    assert_eq!(eval(&f, "D", &[]), Err(FormatError::UnknownKey("foo".to_string())));
}

#[test]
fn known_key_renders() {
    let f = FormatString::parse("{foo}").unwrap();
    assert_eq!(eval(&f, "D", &[("foo", "bar")]), Ok("bar".to_string()));
}

#[test]
fn positional_renders_default() {
    let f = FormatString::parse("pre-{}-post").unwrap();
    assert_eq!(eval(&f, "MID", &[]), Ok("pre-MID-post".to_string()));
}

#[test]
fn keyless_template_collapses_escapes() {
    let f = FormatString::parse("a{{b}}c{}d").unwrap();
    assert_eq!(f.args.len(), 3);
    assert_eq!(eval(&f, "X", &[]), Ok("a{b}cXd".to_string()));
}

#[test]
fn plain_text_is_trailing_literal() {
    let f = FormatString::parse("just text").unwrap();
    assert!(f.args.is_empty());
    assert_eq!(f.rest, "just text");
    assert_eq!(eval(&f, "X", &[]), Ok("just text".to_string()));
}

#[test]
fn key_text_taken_verbatim() {
    let f = FormatString::parse("<{a{b}>").unwrap();
    assert_eq!(f.args[0].fmt, FormatSpec::Keyed("a{b".to_string()));
    assert_eq!(eval(&f, "X", &[("a{b", "v")]), Ok("<v>".to_string()));
}

#[test]
fn first_matching_key_wins() {
    let f = FormatString::parse("{k}").unwrap();
    assert_eq!(eval(&f, "X", &[("k", "one"), ("k", "two")]), Ok("one".to_string()));
}

#[test]
fn eval_appends_to_output() {
    let f = FormatString::parse("-{}").unwrap();
    let mut out = "start".to_string();
    f.eval("end", &Vec::new(), &mut out).unwrap();
    assert_eq!(out, "start-end");
}

#[test]
fn first_unknown_key_is_reported() {
    let f = FormatString::parse("{a}{b}").unwrap();
    assert_eq!(eval(&f, "X", &[]), Err(FormatError::UnknownKey("a".to_string())));
    assert_eq!(eval(&f, "X", &[("a", "1")]), Err(FormatError::UnknownKey("b".to_string())));
}
