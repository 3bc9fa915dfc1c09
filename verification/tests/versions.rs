use realia::version::{compare, Operator};

#[test]
fn equal_versions_are_equal_and_at_least_each_other() {
    assert_eq!(compare("1.2.3", Operator::Eq, "1.2.3"), Some(true));
    assert_eq!(compare("1.2.3", Operator::Ge, "1.2.3"), Some(true));
    assert_eq!(compare("1.2.3", Operator::Lt, "1.2.3"), Some(false));
}

#[test]
fn components_compare_as_numbers() {
    assert_eq!(compare("1.0.34", Operator::Ge, "1.0.4"), Some(true));
    assert_eq!(compare("1.0.4", Operator::Lt, "1.0.34"), Some(true));
    assert_eq!(compare("1.0.34", Operator::Eq, "1.0.4"), Some(false));
    assert_eq!(compare("10", Operator::Lt, "9"), Some(false));
}

#[test]
fn syn_is_since_one_and_before_a_far_version() {
    assert_eq!(compare("1.0.34", Operator::Ge, "1.0.0"), Some(true));
    assert_eq!(compare("1.0.34", Operator::Ge, "999"), Some(false));
    assert_eq!(compare("1.0.34", Operator::Lt, "999"), Some(true));
}

#[test]
fn a_string_without_a_number_is_not_a_version() {
    assert_eq!(compare("alpha", Operator::Eq, "1.0"), None);
    assert_eq!(compare("1.0", Operator::Ge, "beta"), None);
    assert_eq!(compare("*", Operator::Lt, "*"), Some(false));
}

#[test]
fn at_least_both_ways_means_equal() {
    let pairs = [("1.0", "1.0.0"), ("2", "2.0"), ("0.3.0.0", "0.3"), ("1.2.3", "1.2.3")];
    for (a, b) in pairs {
        assert_eq!(compare(a, Operator::Ge, b), Some(true));
        assert_eq!(compare(b, Operator::Ge, a), Some(true));
        assert_eq!(compare(a, Operator::Eq, b), Some(true));
        assert_eq!(compare(b, Operator::Eq, a), Some(true));
    }
}

#[test]
fn at_least_is_the_opposite_of_below() {
    let versions = ["0.0.7", "0.0.10", "1.0.0", "1.0.34", "1.10", "999"];
    for a in versions {
        for b in versions {
            let ge = compare(a, Operator::Ge, b).unwrap();
            let lt = compare(a, Operator::Lt, b).unwrap();
            assert_ne!(ge, lt);
            if compare(a, Operator::Eq, b).unwrap() {
                assert!(ge);
            }
            if ge && compare(b, Operator::Ge, a).unwrap() {
                assert_eq!(compare(a, Operator::Eq, b), Some(true));
            }
        }
    }
}

#[test]
fn at_least_is_transitive_on_a_chain() {
    let chain = ["0.0.7", "0.0.10", "1.0.0", "1.0.34", "999"];
    for i in 0..chain.len() {
        for j in i..chain.len() {
            assert_eq!(compare(chain[j], Operator::Ge, chain[i]), Some(true));
        }
    }
}

#[test]
fn exchanging_the_versions_mirrors_the_answer() {
    let versions = ["0.0.7", "1.0", "1.0.0", "1.0.0-x", "1.0.0-3", "1.0.0-5", "1.a", "2", "999", ""];
    for a in versions {
        for b in versions {
            let below = compare(a, Operator::Lt, b).unwrap();
            let level = compare(a, Operator::Eq, b).unwrap();
            let at_least = compare(b, Operator::Ge, a).unwrap();
            assert_eq!(below, at_least && !level);
            assert_eq!(level, compare(b, Operator::Eq, a).unwrap());
        }
        assert_eq!(compare(a, Operator::Eq, a), Some(true));
    }
    assert_eq!(compare("x", Operator::Eq, "1"), None);
    assert_eq!(compare("1", Operator::Eq, "x"), None);
    assert_eq!(compare("x", Operator::Eq, "x"), None);
}

#[test]
fn a_text_part_against_a_number_breaks_the_chain() {
    // A text part is passed over where it meets a number, so each of these
    // is level with the middle one while the outer two differ.
    assert_eq!(compare("1.0.0-5", Operator::Ge, "1.0.0-x"), Some(true));
    assert_eq!(compare("1.0.0-x", Operator::Ge, "1.0.0-3"), Some(true));
    assert_eq!(compare("1.0.0-3", Operator::Ge, "1.0.0-x"), Some(true));
    assert_eq!(compare("1.0.0-x", Operator::Ge, "1.0.0-5"), Some(true));
    assert_eq!(compare("1.0.0-3", Operator::Ge, "1.0.0-5"), Some(false));
}
