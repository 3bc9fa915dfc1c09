use realia::eval::Outcome;
use realia::facts::{DependencyRecord, Facts, Query, Setting};
use realia::gate::{attribute, Decision, Edit};
use realia::parse::{Expected, ParseError};
use realia::token::Token;

/// Splits a predicate written as text into tokens.
fn lex(text: &str) -> Vec<Token> {
    let chars: Vec<char> = text.chars().collect();
    let mut tokens = Vec::new();
    let mut i = 0;
    while i < chars.len() {
        let c = chars[i];
        if c.is_whitespace() {
            i += 1;
        } else if c == '(' {
            tokens.push(Token::Open);
            i += 1;
        } else if c == ')' {
            tokens.push(Token::Close);
            i += 1;
        } else if c == ',' {
            tokens.push(Token::Comma);
            i += 1;
        } else if c == '"' {
            let mut value = String::new();
            i += 1;
            while i < chars.len() && chars[i] != '"' {
                value.push(chars[i]);
                i += 1;
            }
            i += 1;
            tokens.push(Token::Text(value));
        } else if c.is_alphanumeric() || c == '_' {
            let mut word = String::new();
            while i < chars.len() && (chars[i].is_alphanumeric() || chars[i] == '_') {
                word.push(chars[i]);
                i += 1;
            }
            tokens.push(Token::Word(word));
        } else {
            tokens.push(Token::Other);
            i += 1;
        }
    }
    tokens
}

fn record(name: &str, version: &str, source: Option<&str>) -> DependencyRecord {
    DependencyRecord::new(name.to_string(), version.to_string(), source.map(|s| s.to_string()))
}

/// Answers a question the way the environment of these tests would.
fn answer(facts: &mut Facts, query: Query) {
    const REGISTRY: &str = "registry+https://github.com/rust-lang/crates.io-index";
    match query {
        Query::Env(name) => {
            let value = match name.as_str() {
                "REALIA_EMPTY" => Setting::Text(String::new()),
                "REALIA_FULL" => Setting::Text("1".to_string()),
                "REALIA_BINARY" => Setting::NotText,
                _ => Setting::Unset,
            };
            facts.record_env(name, value);
        }
        Query::Command(name) => {
            let found = name == "cargo";
            facts.record_command(name, found);
        }
        Query::Dependencies(anchor) => {
            let records = if anchor == "realia" {
                vec![
                    record("cargo_metadata", "0.10.0", Some(REGISTRY)),
                    record("syn", "1.0.34", Some(REGISTRY)),
                    record("version-compare", "0.0.10", Some(REGISTRY)),
                    record("realia", "0.1.0", None),
                ]
            } else {
                Vec::new()
            };
            facts.record_dependencies(anchor, records);
        }
    }
}

/// Whether the item under this attribute is kept.
fn kept(attribute: fn(&Vec<Token>, &Facts) -> Decision, args: &str) -> bool {
    let tokens = lex(args);
    let mut facts = Facts::new();
    loop {
        match attribute(&tokens, &facts) {
            Decision::Keep => return true,
            Decision::Discard => return false,
            Decision::Ask(query) => answer(&mut facts, query),
            other => panic!("{:?}", other),
        }
    }
}

/// What a conditional attribute does to its item.
fn edit(args: &str) -> Edit {
    let tokens = lex(args);
    let mut facts = Facts::new();
    loop {
        match realia::attr(&tokens, &facts) {
            Edit::Ask(query) => answer(&mut facts, query),
            other => return other,
        }
    }
}

#[test]
fn env_exists() {
    assert!(kept(realia::env, r#""REALIA_EMPTY""#));
    assert!(kept(realia::not, r#"env("REALIA_UNDEFINED")"#));
}

#[test]
fn integration_env_equals() {
    assert!(kept(realia::env, r#""REALIA_FULL", "1""#));
    assert!(kept(realia::not, r#"env("REALIA_FULL", "2")"#));
    assert!(kept(realia::not, r#"env("REALIA_UNDEFINED", "1")"#));
}

#[test]
fn cmd_exists() {
    assert!(kept(realia::cmd, r#""cargo""#));
    assert!(kept(realia::not, r#"cmd(".")"#));
}

#[test]
fn dep_exists() {
    assert!(kept(realia::dep, r#""realia", "syn""#));
    assert!(kept(realia::not, r#"dep("realia", "reqwest")"#));
}

#[test]
fn dep_equals() {
    assert!(kept(realia::dep, r#""realia", "version-compare", "0.0.10""#));
    assert!(kept(realia::not, r#"dep("realia", "version-compare", "0.0.7")"#));
}

#[test]
fn dep_since() {
    assert!(kept(realia::dep_since, r#""realia", "syn", "1.0.30""#));
    assert!(kept(realia::not, r#"dep_since("realia", "syn", "999")"#));
}

#[test]
fn dep_before() {
    assert!(kept(realia::dep_before, r#""realia", "syn", "999""#));
    assert!(kept(realia::not, r#"dep_before("realia", "syn", "1.0.30")"#));
}

#[test]
fn dep_from_registry() {
    assert!(kept(realia::dep_from_registry, r#""realia", "syn""#));
    assert!(kept(realia::not, r#"dep_from_registry("realia", "realia")"#));
}

#[test]
fn integration_any() {
    assert!(kept(realia::any, r#"env("REALIA_EMPTY"), env("REALIA_UNDEFINED")"#));
    assert!(kept(realia::not, r#"any(env("REALIA_UNDEFINED"), env("REALIA_UNDEFINED_2"))"#));
}

#[test]
fn integration_all() {
    assert!(kept(realia::all, r#"env("REALIA_EMPTY"), env("REALIA_FULL")"#));
    assert!(kept(realia::not, r#"all(env("REALIA_EMPTY"), env("REALIA_UNDEFINED"))"#));
}

#[test]
fn integration_attr() {
    // `derive(Debug)` is attached: the tokens after the condition's comma.
    match edit(r#"env("REALIA_EMPTY"), derive(Debug)"#) {
        Edit::Attach { from, to } => {
            assert_eq!(from, 5);
            assert_eq!(to, 9);
        }
        other => panic!("{:?}", other),
    }
}

#[test]
fn integration_attr_const() {
    assert!(matches!(edit(r#"env("REALIA_EMPTY"), const"#), Edit::MakeConst));
}

#[test]
fn a_malformed_attribute_is_rejected_at_the_offending_token() {
    let facts = Facts::new();
    // Positions count the attribute's name as token 0 and `(` as token 1.
    assert!(matches!(
        realia::env(&lex(r#""A", "B", "C""#), &facts),
        Decision::Reject(ParseError { position: 5, expected: Expected::Close })
    ));
    assert!(matches!(
        realia::env(&lex(""), &facts),
        Decision::Reject(ParseError { position: 1, expected: Expected::Open })
    ));
    assert!(matches!(
        realia::not(&lex(r#"maybe("A")"#), &facts),
        Decision::Reject(ParseError { position: 2, expected: Expected::Keyword })
    ));
    assert!(matches!(
        realia::cfg("cfg", &lex(r#""A""#), &facts),
        Decision::Reject(ParseError { position: 0, expected: Expected::Keyword })
    ));
    assert!(matches!(
        realia::attr(&lex(r#"env("A") derive(Debug)"#), &facts),
        Edit::Reject(ParseError { position: 4, expected: Expected::Comma })
    ));
}

#[test]
fn a_malformed_version_stops_the_build() {
    let tokens = lex(r#""realia", "syn", "newest""#);
    let mut facts = Facts::new();
    let decision = loop {
        match realia::dep_since(&tokens, &facts) {
            Decision::Ask(query) => answer(&mut facts, query),
            other => break other,
        }
    };
    match decision {
        Decision::Abort { found, wanted } => {
            assert_eq!(found, "1.0.34");
            assert_eq!(wanted, "newest");
        }
        other => panic!("{:?}", other),
    }
}

#[test]
fn a_false_condition_leaves_the_item_unchanged() {
    assert!(matches!(edit(r#"env("REALIA_UNDEFINED"), derive(Debug)"#), Edit::Unchanged));
    assert!(matches!(edit(r#"not(env("REALIA_EMPTY")), const"#), Edit::Unchanged));
}

#[test]
fn an_attribute_is_its_name_and_its_arguments_in_parentheses() {
    let full = attribute("env", &lex(r#""A", "B""#));
    assert_eq!(full.len(), 6);
    assert!(matches!(&full[0], realia::token::Token::Word(word) if word == "env"));
    assert!(matches!(full[1], realia::token::Token::Open));
    assert!(matches!(&full[2], realia::token::Token::Text(value) if value == "A"));
    assert!(matches!(full[5], realia::token::Token::Close));
    assert_eq!(attribute("env", &Vec::new()).len(), 1);
    let mut facts = Facts::new();
    facts.record_env("A".to_string(), Setting::Text("B".to_string()));
    assert!(matches!(
        realia::try_cfg("env", &lex(r#""A", "B""#), &facts),
        Ok(Outcome::Decided(true))
    ));
    assert!(matches!(
        realia::try_cfg("env", &lex(r#""A", "C""#), &facts),
        Ok(Outcome::Decided(false))
    ));
    assert!(realia::try_cfg("env", &lex(r#""A" "C""#), &facts).is_err());
}

#[test]
fn a_variable_set_to_something_that_is_not_text_exists() {
    assert!(kept(realia::env, r#""REALIA_BINARY""#));
    assert!(kept(realia::not, r#"env("REALIA_BINARY", "")"#));
    assert!(kept(realia::not, r#"env("REALIA_BINARY", "1")"#));
}
