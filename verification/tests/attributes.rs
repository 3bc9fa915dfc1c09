use realia::eval::Outcome;
use realia::expr::Expr;
use realia::facts::{DependencyRecord, Facts, Query, Setting};
use realia::gate::{Decision, Edit};
use realia::table::{bake, record_table};
use realia::token::Token;

const REGISTRY: &str = "registry+https://github.com/rust-lang/crates.io-index";

/// The one anchor under which the baked table is recorded.
const PROGRAM: &str = "";

fn word(text: &str) -> Token {
    Token::Word(text.to_string())
}

fn text(value: &str) -> Token {
    Token::Text(value.to_string())
}

fn record(name: &str, version: &str, source: Option<&str>) -> DependencyRecord {
    DependencyRecord::new(name.to_string(), version.to_string(), source.map(|s| s.to_string()))
}

/// Facts that hold the baked table of this program and its environment.
fn baked() -> Facts {
    let table = bake(vec![
        record("syn", "1.0.34", Some(REGISTRY)),
        record("realia", "0.1.0", None),
        record("quote", "1.0.7", Some(REGISTRY)),
        record("syn", "1.0.34", Some(REGISTRY)),
    ]);
    let mut facts = Facts::new();
    record_table(&mut facts, PROGRAM.to_string(), &table);
    facts.record_env("REALIA_EMPTY".to_string(), Setting::Text(String::new()));
    facts.record_env("REALIA_FULL".to_string(), Setting::Text("1".to_string()));
    facts.record_env("REALIA_UNDEFINED".to_string(), Setting::Unset);
    facts.record_env("REALIA_UNDEFINED_2".to_string(), Setting::Unset);
    facts.record_command("cargo".to_string(), true);
    facts.record_command(".".to_string(), false);
    facts
}

fn holds(expr: Expr) -> bool {
    match expr.eval(&baked()) {
        Outcome::Decided(value) => value,
        other => panic!("{:?}", other),
    }
}

fn not(expr: Expr) -> Expr {
    Expr::Not(Box::new(expr))
}

fn available(name: &str) -> Expr {
    Expr::DepExists { anchor: PROGRAM.to_string(), name: name.to_string() }
}

fn is_set(name: &str) -> Expr {
    Expr::EnvExists { name: name.to_string() }
}

fn equals(name: &str, value: &str) -> Expr {
    Expr::EnvEquals { name: name.to_string(), value: value.to_string() }
}

fn kept(decision: Decision) -> bool {
    match decision {
        Decision::Keep => true,
        Decision::Discard => false,
        other => panic!("{:?}", other),
    }
}

#[test]
fn crate_available() {
    assert!(holds(available("syn")));
    assert!(holds(not(available("!"))));
}

#[test]
fn crate_equals() {
    let equals = |version: &str| Expr::DepEquals {
        anchor: PROGRAM.to_string(),
        name: "realia".to_string(),
        version: version.to_string(),
    };
    assert!(holds(equals("0.1.0")));
    assert!(holds(not(equals("0.0.0"))));
}

#[test]
fn crate_since() {
    let since = |version: &str| Expr::DepSince {
        anchor: PROGRAM.to_string(),
        name: "syn".to_string(),
        version: version.to_string(),
    };
    assert!(holds(since("1.0.0")));
    assert!(holds(not(since("999"))));
}

#[test]
fn crate_before() {
    let before = |version: &str| Expr::DepBefore {
        anchor: PROGRAM.to_string(),
        name: "syn".to_string(),
        version: version.to_string(),
    };
    assert!(holds(before("999")));
    assert!(holds(not(before("0"))));
}

#[test]
fn crate_from_registry() {
    let registry = |name: &str| Expr::DepFromRegistry {
        anchor: PROGRAM.to_string(),
        name: name.to_string(),
    };
    assert!(holds(registry("syn")));
    assert!(holds(not(registry("realia"))));
}

#[test]
fn env() {
    let facts = baked();
    assert!(kept(realia::env(&vec![text("REALIA_EMPTY")], &facts)));
    assert!(kept(realia::not(
        &vec![word("env"), Token::Open, text("REALIA_UNDEFINED"), Token::Close],
        &facts
    )));
}

#[test]
fn attributes_env_equals() {
    assert!(holds(equals("REALIA_FULL", "1")));
    assert!(holds(not(equals("REALIA_FULL", "2"))));
    assert!(holds(not(equals("REALIA_UNDEFINED", "1"))));
}

#[test]
fn command() {
    assert!(holds(Expr::CmdExists { name: "cargo".to_string() }));
    assert!(holds(not(Expr::CmdExists { name: ".".to_string() })));
}

#[test]
fn attributes_any() {
    assert!(holds(Expr::Any(vec![is_set("REALIA_EMPTY"), is_set("REALIA_UNDEFINED")])));
    assert!(holds(not(Expr::Any(vec![is_set("REALIA_UNDEFINED"), is_set("REALIA_UNDEFINED_2")]))));
}

#[test]
fn attributes_all() {
    assert!(holds(Expr::All(vec![is_set("REALIA_EMPTY"), is_set("REALIA_FULL")])));
    assert!(holds(not(Expr::All(vec![is_set("REALIA_EMPTY"), is_set("REALIA_UNDEFINED")]))));
}

#[test]
fn attributes_attr() {
    let args = vec![
        word("env"),
        Token::Open,
        text("REALIA_EMPTY"),
        Token::Close,
        Token::Comma,
        word("derive"),
        Token::Open,
        word("Debug"),
        Token::Close,
    ];
    assert!(matches!(realia::attr(&args, &baked()), Edit::Attach { from: 5, to: 9 }));
}

#[test]
fn attributes_attr_const() {
    let args = vec![
        word("env"),
        Token::Open,
        text("REALIA_EMPTY"),
        Token::Close,
        Token::Comma,
        word("const"),
    ];
    assert!(matches!(realia::attr(&args, &baked()), Edit::MakeConst));
}

#[test]
fn the_baked_table_answers_for_every_anchor() {
    let table = bake(vec![record("syn", "1.0.34", Some(REGISTRY)), record("realia", "0.1.0", None)]);
    let mut facts = Facts::new();
    for anchor in ["realia", "other", ""] {
        let tokens = vec![text(anchor), Token::Comma, text("syn")];
        match realia::dep(&tokens, &facts) {
            Decision::Ask(Query::Dependencies(asked)) => {
                assert_eq!(asked, anchor);
                record_table(&mut facts, asked, &table);
            }
            other => panic!("{:?}", other),
        }
        assert!(kept(realia::dep(&tokens, &facts)));
        assert_eq!(facts.dependencies(anchor).map(|records| records.len()), Some(2));
    }
}

#[test]
fn a_question_is_asked_before_its_answer_is_recorded() {
    let facts = Facts::new();
    match realia::env(&vec![text("REALIA_EMPTY")], &facts) {
        Decision::Ask(Query::Env(name)) => assert_eq!(name, "REALIA_EMPTY"),
        other => panic!("{:?}", other),
    }
}
