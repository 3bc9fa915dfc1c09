use realia::eval::{find_dependency, find_registry_dependency, settle, test_version, Outcome};
use realia::expr::Expr;
use realia::facts::{DependencyRecord, Facts, Query, Setting};
use realia::token::Token;
use realia::version::Operator;

const REGISTRY: &str = "registry+https://github.com/rust-lang/crates.io-index";

fn record(name: &str, version: &str, source: Option<&str>) -> DependencyRecord {
    DependencyRecord::new(name.to_string(), version.to_string(), source.map(|s| s.to_string()))
}

fn env(name: &str) -> Expr {
    Expr::EnvExists { name: name.to_string() }
}

fn env_is(name: &str, value: &str) -> Expr {
    Expr::EnvEquals { name: name.to_string(), value: value.to_string() }
}

fn cmd(name: &str) -> Expr {
    Expr::CmdExists { name: name.to_string() }
}

fn dep(name: &str) -> Expr {
    Expr::DepExists { anchor: "anchor".to_string(), name: name.to_string() }
}

fn dep_is(name: &str, version: &str) -> Expr {
    Expr::DepEquals {
        anchor: "anchor".to_string(),
        name: name.to_string(),
        version: version.to_string(),
    }
}

fn dep_since(name: &str, version: &str) -> Expr {
    Expr::DepSince {
        anchor: "anchor".to_string(),
        name: name.to_string(),
        version: version.to_string(),
    }
}

fn dep_before(name: &str, version: &str) -> Expr {
    Expr::DepBefore {
        anchor: "anchor".to_string(),
        name: name.to_string(),
        version: version.to_string(),
    }
}

fn registry(name: &str) -> Expr {
    Expr::DepFromRegistry { anchor: "anchor".to_string(), name: name.to_string() }
}

fn not(expr: Expr) -> Expr {
    Expr::Not(Box::new(expr))
}

/// Facts with A set to "1", B set to "", C unset; `git` found, `hg` not;
/// and the dependencies of `anchor`.
fn world() -> Facts {
    let mut facts = Facts::new();
    facts.record_env("A".to_string(), Setting::Text("1".to_string()));
    facts.record_env("B".to_string(), Setting::Text(String::new()));
    facts.record_env("C".to_string(), Setting::Unset);
    facts.record_command("git".to_string(), true);
    facts.record_command("hg".to_string(), false);
    facts.record_dependencies(
        "anchor".to_string(),
        vec![
            record("syn", "1.0.34", Some(REGISTRY)),
            record("local", "0.1.0", None),
            record("forked", "2.0.0", Some("git+https://example.com/forked")),
            record("twice", "1.0.0", Some(REGISTRY)),
            record("twice", "2.0.0", None),
            record("odd", "nightly", Some(REGISTRY)),
        ],
    );
    facts
}

fn value(expr: &Expr) -> bool {
    match expr.eval(&world()) {
        Outcome::Decided(value) => value,
        other => panic!("{:?}", other),
    }
}

#[test]
fn not_inverts() {
    for expr in [env("A"), env("C"), cmd("git"), cmd("hg"), dep("syn"), dep("none")] {
        let plain = value(&expr);
        assert_eq!(value(&not(expr)), !plain);
    }
    assert!(value(&not(not(env("A")))));
}

#[test]
fn empty_any_is_false_and_empty_all_is_true() {
    assert!(!value(&Expr::Any(vec![])));
    assert!(value(&Expr::All(vec![])));
    let nothing = Facts::new();
    assert!(matches!(Expr::Any(vec![]).eval(&nothing), Outcome::Decided(false)));
    assert!(matches!(Expr::All(vec![]).eval(&nothing), Outcome::Decided(true)));
}

#[test]
fn any_is_true_when_one_child_is() {
    assert!(value(&Expr::Any(vec![env("C"), cmd("hg"), env("A")])));
    assert!(value(&Expr::Any(vec![env("A")])));
    assert!(!value(&Expr::Any(vec![env("C"), cmd("hg"), dep("none")])));
}

#[test]
fn all_is_true_when_every_child_is() {
    assert!(value(&Expr::All(vec![env("A"), cmd("git"), dep("syn")])));
    assert!(!value(&Expr::All(vec![env("A"), cmd("hg"), dep("syn")])));
    assert!(!value(&Expr::All(vec![env("C")])));
}

#[test]
fn a_set_variable_exists_whatever_its_value() {
    assert!(value(&env("A")));
    assert!(value(&env("B")));
    assert!(!value(&env("C")));
}

#[test]
fn a_variable_equals_its_exact_value() {
    assert!(value(&env_is("A", "1")));
    assert!(!value(&env_is("A", "2")));
    assert!(!value(&env_is("A", "1 ")));
    assert!(!value(&env_is("A", "")));
    assert!(value(&env_is("B", "")));
    assert!(!value(&env_is("C", "")));
    assert!(!value(&env_is("C", "1")));
}

#[test]
fn realia_full_scenario() {
    let expr = env_is("REALIA_FULL", "1");
    let mut set = Facts::new();
    set.record_env("REALIA_FULL".to_string(), Setting::Text("1".to_string()));
    assert!(matches!(expr.eval(&set), Outcome::Decided(true)));
    let mut other = Facts::new();
    other.record_env("REALIA_FULL".to_string(), Setting::Text("2".to_string()));
    assert!(matches!(expr.eval(&other), Outcome::Decided(false)));
    let mut unset = Facts::new();
    unset.record_env("REALIA_FULL".to_string(), Setting::Unset);
    assert!(matches!(expr.eval(&unset), Outcome::Decided(false)));
}

#[test]
fn a_command_exists_when_it_resolves() {
    assert!(value(&cmd("git")));
    assert!(!value(&cmd("hg")));
}

#[test]
fn a_dependency_exists_by_name() {
    assert!(value(&dep("syn")));
    assert!(value(&dep("local")));
    assert!(!value(&dep("Syn")));
    assert!(!value(&dep("")));
}

#[test]
fn versions_are_compared_under_the_operator() {
    assert!(value(&dep_is("syn", "1.0.34")));
    assert!(!value(&dep_is("syn", "1.0.3")));
    assert!(value(&dep_since("syn", "1.0.0")));
    assert!(value(&dep_since("syn", "1.0.34")));
    assert!(!value(&dep_since("syn", "999")));
    assert!(value(&dep_before("syn", "999")));
    assert!(!value(&dep_before("syn", "1.0.34")));
    assert!(!value(&dep_before("syn", "1.0.30")));
}

#[test]
fn any_record_of_the_name_may_satisfy() {
    assert!(value(&dep_is("twice", "1.0.0")));
    assert!(value(&dep_is("twice", "2.0.0")));
    assert!(!value(&dep_is("twice", "3.0.0")));
    assert!(value(&dep_since("twice", "1.5")));
    assert!(value(&dep_before("twice", "1.5")));
    assert!(value(&registry("twice")));
}

#[test]
fn an_absent_dependency_fails_every_test_without_a_comparison() {
    assert!(!value(&dep("none")));
    for version in ["1.0.0", "0", "999", "not a version", ""] {
        assert!(!value(&dep_is("none", version)));
        assert!(!value(&dep_since("none", version)));
        assert!(!value(&dep_before("none", version)));
    }
    assert!(!value(&registry("none")));
}

#[test]
fn a_registry_dependency_has_a_registry_source() {
    assert!(value(&registry("syn")));
    assert!(!value(&registry("local")));
    assert!(!value(&registry("forked")));
}

#[test]
fn a_malformed_version_fails_the_evaluation() {
    match dep_since("syn", "latest").eval(&world()) {
        Outcome::Failed { found, wanted } => {
            assert_eq!(found, "1.0.34");
            assert_eq!(wanted, "latest");
        }
        other => panic!("{:?}", other),
    }
    match dep_is("odd", "1.0").eval(&world()) {
        Outcome::Failed { found, wanted } => {
            assert_eq!(found, "nightly");
            assert_eq!(wanted, "1.0");
        }
        other => panic!("{:?}", other),
    }
    assert!(matches!(not(dep_is("odd", "1.0")).eval(&world()), Outcome::Failed { .. }));
}

#[test]
fn a_missing_answer_is_asked_for() {
    let nothing = Facts::new();
    assert!(matches!(env("A").eval(&nothing), Outcome::Needs(Query::Env(name)) if name == "A"));
    assert!(matches!(env_is("A", "1").eval(&nothing), Outcome::Needs(Query::Env(name)) if name == "A"));
    assert!(matches!(cmd("git").eval(&nothing), Outcome::Needs(Query::Command(name)) if name == "git"));
    for expr in [dep("syn"), dep_is("syn", "1"), dep_since("syn", "1"), dep_before("syn", "1"), registry("syn")] {
        assert!(matches!(
            expr.eval(&nothing),
            Outcome::Needs(Query::Dependencies(anchor)) if anchor == "anchor"
        ));
    }
    assert!(matches!(not(env("A")).eval(&nothing), Outcome::Needs(Query::Env(name)) if name == "A"));
}

#[test]
fn children_are_taken_in_order_and_only_as_far_as_needed() {
    let mut facts = Facts::new();
    facts.record_env("A".to_string(), Setting::Text("1".to_string()));
    facts.record_env("C".to_string(), Setting::Unset);
    // Settled by the first child: the second is never asked about.
    assert!(matches!(Expr::Any(vec![env("A"), cmd("git")]).eval(&facts), Outcome::Decided(true)));
    assert!(matches!(Expr::All(vec![env("C"), cmd("git")]).eval(&facts), Outcome::Decided(false)));
    // Not settled by the first child: the second is asked about.
    assert!(matches!(
        Expr::Any(vec![env("C"), cmd("git")]).eval(&facts),
        Outcome::Needs(Query::Command(name)) if name == "git"
    ));
    assert!(matches!(
        Expr::All(vec![env("A"), dep("syn")]).eval(&facts),
        Outcome::Needs(Query::Dependencies(anchor)) if anchor == "anchor"
    ));
    // A question comes before a later child that would settle the value.
    assert!(matches!(
        Expr::Any(vec![cmd("git"), env("A")]).eval(&facts),
        Outcome::Needs(Query::Command(name)) if name == "git"
    ));
}

#[test]
fn an_anchor_is_asked_for_at_most_once() {
    let expr = Expr::All(vec![dep("syn"), dep_since("syn", "1.0.0"), registry("syn")]);
    let mut facts = Facts::new();
    let mut asked = 0;
    let result = loop {
        match expr.eval(&facts) {
            Outcome::Needs(Query::Dependencies(anchor)) => {
                assert!(!facts.knows(&Query::Dependencies(anchor.clone())));
                asked += 1;
                facts.record_dependencies(anchor, vec![record("syn", "1.0.34", Some(REGISTRY))]);
            }
            Outcome::Decided(value) => break value,
            other => panic!("{:?}", other),
        }
    };
    assert!(result);
    assert_eq!(asked, 1);
    // A second evaluation against the same facts asks nothing.
    assert!(matches!(dep_before("syn", "2").eval(&facts), Outcome::Decided(true)));
}

#[test]
fn the_first_recorded_answer_stays() {
    let mut facts = Facts::new();
    assert!(facts.env("A").is_none());
    facts.record_env("A".to_string(), Setting::Text("1".to_string()));
    facts.record_env("A".to_string(), Setting::Text("2".to_string()));
    facts.record_env("A".to_string(), Setting::Unset);
    assert!(matches!(facts.env("A"), Some(Setting::Text(value)) if value == "1"));
    facts.record_command("git".to_string(), false);
    facts.record_command("git".to_string(), true);
    assert_eq!(facts.command("git"), Some(false));
    assert_eq!(facts.command("hg"), None);
    facts.record_dependencies("a".to_string(), vec![record("x", "1", None)]);
    facts.record_dependencies("a".to_string(), vec![]);
    assert_eq!(facts.dependencies("a").map(|records| records.len()), Some(1));
    assert!(facts.dependencies("b").is_none());
    assert!(facts.knows(&Query::Env("A".to_string())));
    assert!(!facts.knows(&Query::Env("B".to_string())));
    assert!(facts.knows(&Query::Command("git".to_string())));
    assert!(!facts.knows(&Query::Command("A".to_string())));
    assert!(facts.knows(&Query::Dependencies("a".to_string())));
    assert!(!facts.knows(&Query::Dependencies("git".to_string())));
}

#[test]
fn the_leaf_searches() {
    let records = vec![
        record("syn", "1.0.34", Some(REGISTRY)),
        record("local", "0.1.0", None),
        record("odd", "registry+", Some("registry")),
    ];
    assert!(find_dependency(&records, &"local".to_string()));
    assert!(!find_dependency(&records, &"loca".to_string()));
    assert!(find_registry_dependency(&records, &"syn".to_string()));
    assert!(!find_registry_dependency(&records, &"local".to_string()));
    assert!(!find_registry_dependency(&records, &"odd".to_string()));
    assert!(matches!(
        test_version(&records, &"syn".to_string(), Operator::Ge, &"1.0.0".to_string()),
        Outcome::Decided(true)
    ));
    assert!(matches!(
        test_version(&records, &"syn".to_string(), Operator::Lt, &"1.0.0".to_string()),
        Outcome::Decided(false)
    ));
    assert!(matches!(
        test_version(&Vec::new(), &"syn".to_string(), Operator::Eq, &"x".to_string()),
        Outcome::Decided(false)
    ));
}

#[test]
fn parse_then_evaluate_scenario() {
    let tokens = vec![
        Token::Word("all".to_string()),
        Token::Open,
        Token::Word("env".to_string()),
        Token::Open,
        Token::Text("A".to_string()),
        Token::Close,
        Token::Comma,
        Token::Word("env".to_string()),
        Token::Open,
        Token::Text("B".to_string()),
        Token::Close,
        Token::Close,
    ];
    let expr = Expr::from_tokens(&tokens).unwrap();
    match &expr {
        Expr::All(children) => {
            assert_eq!(children.len(), 2);
            assert!(matches!(&children[0], Expr::EnvExists { name } if name == "A"));
            assert!(matches!(&children[1], Expr::EnvExists { name } if name == "B"));
        }
        _ => panic!("not a conjunction"),
    }
    let mut both = Facts::new();
    both.record_env("A".to_string(), Setting::Text("x".to_string()));
    both.record_env("B".to_string(), Setting::Text("y".to_string()));
    assert!(matches!(expr.eval(&both), Outcome::Decided(true)));
    let mut only_a = Facts::new();
    only_a.record_env("A".to_string(), Setting::Text("x".to_string()));
    only_a.record_env("B".to_string(), Setting::Unset);
    assert!(matches!(expr.eval(&only_a), Outcome::Decided(false)));
}

#[test]
fn what_one_comparison_settles() {
    let found = "1.0.34".to_string();
    let wanted = "x".to_string();
    assert!(matches!(settle(Some(true), &found, &wanted), Some(Outcome::Decided(true))));
    assert!(settle(Some(false), &found, &wanted).is_none());
    assert!(matches!(
        settle(None, &found, &wanted),
        Some(Outcome::Failed { found, wanted }) if found == "1.0.34" && wanted == "x"
    ));
}

#[test]
fn set_means_present_whatever_the_value() {
    let mut facts = Facts::new();
    facts.record_env("EMPTY".to_string(), Setting::Text(String::new()));
    facts.record_env("BINARY".to_string(), Setting::NotText);
    facts.record_env("UNSET".to_string(), Setting::Unset);
    assert!(matches!(env("EMPTY").eval(&facts), Outcome::Decided(true)));
    assert!(matches!(env("BINARY").eval(&facts), Outcome::Decided(true)));
    assert!(matches!(env("UNSET").eval(&facts), Outcome::Decided(false)));
    assert!(matches!(env_is("EMPTY", "").eval(&facts), Outcome::Decided(true)));
    assert!(matches!(env_is("BINARY", "").eval(&facts), Outcome::Decided(false)));
    assert!(matches!(env_is("UNSET", "").eval(&facts), Outcome::Decided(false)));
}
