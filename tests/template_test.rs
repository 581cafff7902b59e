use rig::placeholder::{ParseError, Placeholder, Style};
use rig::template::{Params, Template};

fn params_of(pairs: &[(&str, &str)]) -> Params {
    let mut params = Params::new();
    for (k, v) in pairs {
        params.insert(k.to_string(), v.to_string());
    }
    params
}

#[test]
fn inline_giter8() {
    let params = params_of(&[("project_name", "A simple proj")]);
    let mut out = String::new();
    Template::compile_inline(&mut out, Style::Legacy, "$project_name;format=\"norm,upper\"$", &params);
    assert_eq!(out, "A-SIMPLE-PROJ".to_owned());
}

#[test]
fn inline_path() {
    let params = params_of(&[("twitter_id", "bar3s%Ye")]);
    let mut out = String::new();
    Template::compile_inline(&mut out, Style::PathSegment, "$twitter_id__word_cap$", &params);
    assert_eq!(out, "Bar3sye".to_owned());
}

#[test]
fn write_once() {
    let params = params_of(&[("name", "Rust")]);
    let mut out = String::new();
    Template::compile_inline(&mut out, Style::Content, "Hello, $name$!", &params);
    assert_eq!(out, "Hello, Rust!");
}

#[test]
fn escape_character() {
    let params = params_of(&[("DOCUMENT_NAME", "RUST PROGRAMMING LANGUAGE")]);
    let mut out = String::new();
    Template::compile_inline(&mut out, Style::Legacy, "It's a \\$DOCUMENT_NAME\\$", &params);
    assert_eq!(out, "It's a $DOCUMENT_NAME$".to_owned());
}

#[test]
fn giter8_template() {
    let params = params_of(&[("name", "awesome distributed interface")]);
    let mut out = String::new();
    let tpl = Template::new_g8(r#"trait $name;format="Camel"$[-A] extends js.Dictionary[A]"#);
    tpl.write(&mut out, &params);
    assert_eq!(out, "trait AwesomeDistributedInterface[-A] extends js.Dictionary[A]".to_owned());
}

#[test]
fn legacy_upper_hyphen() {
    let params = params_of(&[("name", "A simple proj")]);
    let mut out = String::new();
    Template::compile_inline(&mut out, Style::Legacy, "$name;format=\"upper,hyphen\"$", &params);
    assert_eq!(out, "A-SIMPLE-PROJ");
}

#[test]
fn write_twice_gives_same_text() {
    let params = params_of(&[("name", "my app"), ("org", "acme")]);
    let tpl = Template::read_str(Style::Content, "$org;upper$/$name;Camel$ \\$x\\$ $missing$");
    let mut a = String::new();
    let mut b = String::new();
    tpl.write(&mut a, &params);
    tpl.write(&mut b, &params);
    assert_eq!(a, b);
    assert_eq!(a, "ACME/MyApp $x$ missing");
}

#[test]
fn escaped_delimiters_with_any_params() {
    let mut out = String::new();
    Template::compile_inline(&mut out, Style::Content, "It's a \\$NAME\\$", &Params::new());
    assert_eq!(out, "It's a $NAME$");
    let mut out2 = String::new();
    let params = params_of(&[("NAME", "x")]);
    Template::compile_inline(&mut out2, Style::Content, "It's a \\$NAME\\$", &params);
    assert_eq!(out2, "It's a $NAME$");
}

#[test]
fn malformed_placeholder_is_verbatim() {
    let params = params_of(&[("a", "1")]);
    let mut out = String::new();
    Template::compile_inline(&mut out, Style::Content, "x $a;b;c$ y", &params);
    assert_eq!(out, "x a;b;c y");
    let mut empty = String::new();
    Template::compile_inline(&mut empty, Style::Content, "[$$]", &params);
    assert_eq!(empty, "[]");
}

#[test]
fn unterminated_placeholder_is_plain() {
    let params = params_of(&[("a", "1")]);
    let mut out = String::new();
    Template::compile_inline(&mut out, Style::Content, "$a$ and $a tail \\$", &params);
    assert_eq!(out, "1 and $a tail $");
}

#[test]
fn write_appends_to_sink() {
    let params = params_of(&[("a", "1")]);
    let mut out = String::from("pre:");
    Template::compile_inline(&mut out, Style::Content, "$a$", &params);
    assert_eq!(out, "pre:1");
}

#[test]
fn read_file_passes_contents_and_errors() {
    let ok: Result<String, u8> = Ok("body $x$".to_string());
    let t = Template::read_file(Style::Content, ok).ok().unwrap();
    assert_eq!(t.body, "body $x$");
    assert_eq!(t.style, Style::Content);
    let err: Result<String, u8> = Err(7);
    assert!(matches!(Template::read_file(Style::Content, err), Err(7)));
}

#[test]
fn missing_key_renders_key() {
    let p = Placeholder::parse_content("x").ok().unwrap();
    assert_eq!(p.format_with(&Params::new()), "x");
    let q = Placeholder::parse_content("x;upper,norm").ok().unwrap();
    assert_eq!(q.format_with(&Params::new()), "x");
}

#[test]
fn empty_chain_returns_value() {
    let p = Placeholder::new("k", &Vec::new());
    let params = params_of(&[("k", "Some Value")]);
    assert_eq!(p.format_with(&params), "Some Value");
}

#[test]
fn content_round_trip_folds_in_order() {
    let p = Placeholder::parse_content("k;norm,upper").ok().unwrap();
    assert_eq!(p.key, "k");
    let params = params_of(&[("k", "A simple proj")]);
    assert_eq!(p.format_with(&params), "A-SIMPLE-PROJ");
    let q = Placeholder::parse_content("k;upper,decap").ok().unwrap();
    assert_eq!(q.format_with(&params), "a SIMPLE PROJ");
}

#[test]
fn parse_errors() {
    assert!(matches!(Placeholder::parse_content(""), Err(ParseError::EmptyPlaceholder)));
    assert!(matches!(Placeholder::parse_content("a;b;c"), Err(ParseError::TooManySeparators)));
    assert!(matches!(Placeholder::parse_legacy(""), Err(ParseError::EmptyPlaceholder)));
    assert!(matches!(Placeholder::parse_legacy("a;b;c"), Err(ParseError::TooManySeparators)));
}

#[test]
fn unknown_transforms_are_dropped() {
    let p = Placeholder::parse_content("k;bogus,upper,").ok().unwrap();
    assert_eq!(p.transforms, vec![rig::format::Formatter::UpperCase]);
    let names = vec!["nope".to_string(), "snake".to_string()];
    let q = Placeholder::new("k", &names);
    assert_eq!(q.transforms, vec![rig::format::Formatter::SnakeCase]);
}

#[test]
fn path_segment_shapes() {
    let p = Placeholder::parse_path_segment("twitter_id__word_cap").ok().unwrap();
    assert_eq!(p.key, "twitter_id");
    assert_eq!(p.transforms.len(), 2);
    let q = Placeholder::parse_path_segment("a__b__c").ok().unwrap();
    assert_eq!(q.key, "a__b__c");
    assert!(q.transforms.is_empty());
    let r = Placeholder::parse_path_segment("plain").ok().unwrap();
    assert_eq!(r.key, "plain");
}

#[test]
fn legacy_strips_quotes_and_format() {
    let p = Placeholder::parse_legacy("name;format=\"upper,hyphen\"").ok().unwrap();
    assert_eq!(p.key, "name");
    assert_eq!(
        p.transforms,
        vec![rig::format::Formatter::UpperCase, rig::format::Formatter::Hyphenate]
    );
}

#[test]
fn random_placeholder_draws_per_write() {
    let params = params_of(&[("n", "app")]);
    let tpl = Template::read_str(Style::Content, "$n;random$");
    let mut out = String::new();
    tpl.write(&mut out, &params);
    assert_eq!(out.len(), 3 + 33);
    assert!(out.starts_with("app-"));
}

#[test]
fn params_from_map_later_wins() {
    let p = Params::from_map(vec![
        ("a".to_string(), "1".to_string()),
        ("b".to_string(), "2".to_string()),
        ("a".to_string(), "3".to_string()),
    ]);
    assert_eq!(p.get("a"), Some(&"3".to_string()));
    assert_eq!(p.get("b"), Some(&"2".to_string()));
    assert_eq!(p.get("c"), None);
}
