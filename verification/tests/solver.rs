use logik::Proposition;
use logik::clause::SimplificatedAtom;
use logik::clause::SimplificatedClause;
use logik::solver::Posibility;
use logik::solver::SolveError;
use logik::solver::is_valide;
use logik::solver::solve;

fn var(name: &str) -> Proposition {
    Proposition::Variable(name.to_string())
}

fn not(p: Proposition) -> Proposition {
    Proposition::Not(Box::new(p))
}

fn and(l: Proposition, r: Proposition) -> Proposition {
    Proposition::And(Box::new(l), Box::new(r))
}

fn or(l: Proposition, r: Proposition) -> Proposition {
    Proposition::Or(Box::new(l), Box::new(r))
}

/// Whether the model set holds an assignment with exactly the given pairs.
fn has_model(models: &Vec<Posibility>, expected: &[(&str, bool)]) -> bool {
    models.iter().any(|m| {
        m.len() == expected.len()
            && expected.iter().all(|(name, value)| m.get(&name.to_string()) == Some(*value))
    })
}

#[test]
fn solve_empty_input_has_no_variable() {
    let result = solve(vec![]);
    assert!(matches!(result, Err(SolveError::NoVariable)));
}

#[test]
fn solve_constant_true_has_no_variable() {
    let result = solve(vec![Proposition::Value(true)]);
    assert!(matches!(result, Err(SolveError::NoVariable)));
}

#[test]
fn solve_single_variable() {
    let models = solve(vec![var("a")]).unwrap();
    assert_eq!(models.len(), 1);
    assert!(has_model(&models, &[("a", true)]));
}

#[test]
fn solve_contradiction_is_unsatisfiable() {
    let result = solve(vec![and(var("a"), not(var("a")))]);
    assert!(matches!(result, Err(SolveError::Unsatisfiable)));
}

#[test]
fn solve_disjunction_has_three_models() {
    let models = solve(vec![or(var("a"), var("b"))]).unwrap();
    assert_eq!(models.len(), 3);
    assert!(has_model(&models, &[("a", true), ("b", true)]));
    assert!(has_model(&models, &[("a", true), ("b", false)]));
    assert!(has_model(&models, &[("a", false), ("b", true)]));
    assert!(!has_model(&models, &[("a", false), ("b", false)]));
}

#[test]
fn solve_conjoins_separate_propositions() {
    let models = solve(vec![var("a"), var("b")]).unwrap();
    assert_eq!(models.len(), 1);
    assert!(has_model(&models, &[("a", true), ("b", true)]));
}

#[test]
fn solve_negated_variable() {
    let models = solve(vec![not(var("a"))]).unwrap();
    assert_eq!(models.len(), 1);
    assert!(has_model(&models, &[("a", false)]));
}

#[test]
fn solve_de_morgan_negated_conjunction() {
    // not (a and b) has three models, the complement of { a, b both true }.
    let models = solve(vec![not(and(var("a"), var("b")))]).unwrap();
    assert_eq!(models.len(), 3);
    assert!(!has_model(&models, &[("a", true), ("b", true)]));
    assert!(has_model(&models, &[("a", false), ("b", false)]));
}

#[test]
fn solve_unconstrained_variable_doubles_models() {
    // b is mentioned but unconstrained: both values must appear.
    let models = solve(vec![var("a"), or(var("b"), not(var("b")))]).unwrap();
    assert_eq!(models.len(), 2);
    assert!(has_model(&models, &[("a", true), ("b", true)]));
    assert!(has_model(&models, &[("a", true), ("b", false)]));
}

#[test]
fn solve_implication_encoding() {
    // a -> b is encoded as (not a) or b; conjoined with a it forces b.
    let models = solve(vec![or(not(var("a")), var("b")), var("a")]).unwrap();
    assert_eq!(models.len(), 1);
    assert!(has_model(&models, &[("a", true), ("b", true)]));
}

#[test]
fn solve_constant_false_conjunct_is_unsatisfiable() {
    // A clause of constant-false literals is a global contradiction.
    let result = solve(vec![var("a"), Proposition::Value(false)]);
    assert!(matches!(result, Err(SolveError::Unsatisfiable)));
}

#[test]
fn solve_tautological_conjunct_changes_nothing() {
    let models = solve(vec![var("a"), or(var("a"), not(var("a")))]).unwrap();
    assert_eq!(models.len(), 1);
    assert!(has_model(&models, &[("a", true)]));
}

#[test]
fn solve_matches_brute_force_on_three_variables() {
    // (a or b) and (not b or c) over a, b, c, against truth-table search.
    let models = solve(vec![or(var("a"), var("b")), or(not(var("b")), var("c"))]).unwrap();
    let mut expected: Vec<[(&str, bool); 3]> = Vec::new();
    for bits in 0..8u32 {
        let a = bits & 1 != 0;
        let b = bits & 2 != 0;
        let c = bits & 4 != 0;
        if (a || b) && (!b || c) {
            expected.push([("a", a), ("b", b), ("c", c)]);
        }
    }
    assert_eq!(models.len(), expected.len());
    for e in &expected {
        assert!(has_model(&models, e));
    }
}

#[test]
fn posibility_lookup() {
    let models = solve(vec![and(var("a"), not(var("b")))]).unwrap();
    assert_eq!(models.len(), 1);
    let m = &models[0];
    assert_eq!(m.len(), 2);
    assert!(m.contains_key(&"a".to_string()));
    assert!(m.contains_key(&"b".to_string()));
    assert!(!m.contains_key(&"c".to_string()));
    assert_eq!(m.get(&"a".to_string()), Some(true));
    assert_eq!(m.get(&"b".to_string()), Some(false));
    assert_eq!(m.get(&"c".to_string()), None);
}

#[test]
fn posibility_same_assignment_ignores_order() {
    let left = Posibility(vec![("a".to_string(), true), ("b".to_string(), false)]);
    let right = Posibility(vec![("b".to_string(), false), ("a".to_string(), true)]);
    let other = Posibility(vec![("a".to_string(), true), ("b".to_string(), true)]);
    assert!(left.same_assignment(&right));
    assert!(!left.same_assignment(&other));
}

#[test]
fn get_variables_collects_every_name() {
    let p = and(or(var("a"), not(var("b"))), var("a"));
    let names = p.get_variables();
    assert!(names.contains(&"a".to_string()));
    assert!(names.contains(&"b".to_string()));
    assert!(!names.contains(&"c".to_string()));
}

#[test]
fn solve_biconditional_encoding() {
    // a <-> b is encoded as (a and b) or (not a and not b).
    let p = or(
        and(var("a"), var("b")),
        and(not(var("a")), not(var("b"))),
    );
    let models = solve(vec![p]).unwrap();
    assert_eq!(models.len(), 2);
    assert!(has_model(&models, &[("a", true), ("b", true)]));
    assert!(has_model(&models, &[("a", false), ("b", false)]));
}

#[test]
fn is_valide_blocks_contradicted_unit_clause() {
    // Assigning a literal is invalid when a unit clause forces its
    // opposite.
    let context = vec![
        SimplificatedClause(vec![SimplificatedAtom::NotVar("a".to_string())]),
        SimplificatedClause(vec![
            SimplificatedAtom::Var("a".to_string()),
            SimplificatedAtom::Var("b".to_string()),
        ]),
    ];
    assert!(!is_valide(&SimplificatedAtom::Var("a".to_string()), &context));
    assert!(is_valide(&SimplificatedAtom::NotVar("a".to_string()), &context));
    assert!(is_valide(&SimplificatedAtom::Var("b".to_string()), &context));
}
