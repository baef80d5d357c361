use shared::rule::{FilterCondition, Rule};
use shared::terms::{Term, TriplePattern};

fn var(name: &str) -> Term {
    Term::Variable(name.to_string())
}

fn pattern(subject: Term, predicate: Term, object: Term) -> TriplePattern {
    TriplePattern { subject, predicate, object }
}

fn filter(variable: &str, operator: &str, value: &str) -> FilterCondition {
    FilterCondition {
        variable: variable.to_string(),
        operator: operator.to_string(),
        value: value.to_string(),
    }
}

#[test]
fn rule_with_bound_variables_is_well_formed() {
    let rule = Rule {
        premise: vec![pattern(var("?x"), Term::Constant(3), Term::Constant(9))],
        filters: vec![],
        conclusion: vec![pattern(var("?x"), Term::Constant(4), Term::Constant(10))],
    };
    assert!(rule.is_well_formed());
}

#[test]
fn conclusion_variable_missing_from_premise_is_invalid() {
    let rule = Rule {
        premise: vec![pattern(var("?x"), Term::Constant(3), Term::Constant(9))],
        filters: vec![],
        conclusion: vec![pattern(var("?y"), Term::Constant(4), Term::Constant(10))],
    };
    assert!(!rule.is_well_formed());
}

#[test]
fn conclusion_variable_is_checked_in_every_position() {
    let premise = vec![pattern(var("?s"), var("?p"), Term::Constant(1))];
    for (subject, predicate, object) in [
        (var("?z"), var("?p"), var("?s")),
        (var("?s"), var("?z"), var("?p")),
        (var("?s"), var("?p"), var("?z")),
    ] {
        let rule = Rule {
            premise: premise.clone(),
            filters: vec![],
            conclusion: vec![pattern(subject, predicate, object)],
        };
        assert!(!rule.is_well_formed());
    }
    let rule = Rule {
        premise,
        filters: vec![],
        conclusion: vec![pattern(var("?p"), var("?s"), var("?s"))],
    };
    assert!(rule.is_well_formed());
}

#[test]
fn later_conclusion_patterns_are_checked_too() {
    let rule = Rule {
        premise: vec![pattern(var("?x"), Term::Constant(3), var("?y"))],
        filters: vec![],
        conclusion: vec![
            pattern(var("?x"), Term::Constant(4), var("?y")),
            pattern(var("?y"), Term::Constant(4), var("?w")),
        ],
    };
    assert!(!rule.is_well_formed());
}

#[test]
fn filter_variable_missing_from_premise_is_invalid() {
    let rule = Rule {
        premise: vec![pattern(var("?x"), Term::Constant(3), var("?y"))],
        filters: vec![filter("?x", ">", "5"), filter("?age", "=", "30")],
        conclusion: vec![],
    };
    assert!(!rule.is_well_formed());
}

#[test]
fn filter_on_a_bound_variable_is_valid() {
    let rule = Rule {
        premise: vec![
            pattern(var("?x"), Term::Constant(3), Term::Constant(1)),
            pattern(Term::Constant(2), Term::Constant(3), var("?age")),
        ],
        filters: vec![filter("?age", ">", "18"), filter("?x", "!=", "Rob")],
        conclusion: vec![pattern(var("?x"), Term::Constant(5), var("?age"))],
    };
    assert!(rule.is_well_formed());
    assert!(rule.is_bound(&"?age".to_string()));
    assert!(!rule.is_bound(&"?other".to_string()));
}

#[test]
fn filter_operator_is_not_validated() {
    let rule = Rule {
        premise: vec![pattern(var("?x"), Term::Constant(3), Term::Constant(1))],
        filters: vec![filter("?x", "no such operator", "")],
        conclusion: vec![],
    };
    assert!(rule.is_well_formed());
}

#[test]
fn rule_of_constants_is_well_formed() {
    let rule = Rule {
        premise: vec![],
        filters: vec![],
        conclusion: vec![pattern(Term::Constant(1), Term::Constant(2), Term::Constant(3))],
    };
    assert!(rule.is_well_formed());
    let empty = Rule { premise: vec![], filters: vec![], conclusion: vec![] };
    assert!(empty.is_well_formed());
}

#[test]
fn variable_with_empty_premise_is_invalid() {
    let rule = Rule {
        premise: vec![],
        filters: vec![],
        conclusion: vec![pattern(var("?x"), Term::Constant(2), Term::Constant(3))],
    };
    assert!(!rule.is_well_formed());
}

#[test]
fn variable_names_are_compared_exactly() {
    let rule = Rule {
        premise: vec![pattern(var("?x"), Term::Constant(3), Term::Constant(1))],
        filters: vec![],
        conclusion: vec![pattern(var("?X"), Term::Constant(3), Term::Constant(1))],
    };
    assert!(!rule.is_well_formed());
}

#[test]
fn term_knows_its_variable() {
    assert!(var("?x").is_variable(&"?x".to_string()));
    assert!(!var("?x").is_variable(&"?y".to_string()));
    assert!(!Term::Constant(7).is_variable(&"7".to_string()));
    let p = pattern(Term::Constant(1), var("?p"), Term::Constant(2));
    assert!(p.has_variable(&"?p".to_string()));
    assert!(!p.has_variable(&"?s".to_string()));
}

#[test]
fn clones_hold_the_same_data() {
    let rule = Rule {
        premise: vec![pattern(var("?x"), Term::Constant(3), var("?y"))],
        filters: vec![filter("?x", ">", "5")],
        conclusion: vec![pattern(var("?y"), Term::Constant(4), var("?x"))],
    };
    let copy = rule.clone();
    assert_eq!(copy.premise, rule.premise);
    assert_eq!(copy.conclusion, rule.conclusion);
    assert_eq!(copy.filters.len(), 1);
    assert_eq!(copy.filters[0].variable, "?x");
    assert_eq!(copy.filters[0].operator, ">");
    assert_eq!(copy.filters[0].value, "5");
    assert_eq!(var("?x").clone(), var("?x"));
    assert_eq!(Term::Constant(3).clone(), Term::Constant(3));
}
