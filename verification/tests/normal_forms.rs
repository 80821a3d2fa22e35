use logik::Proposition;
use logik::PropositionNNF;
use logik::clause::Atom;
use logik::clause::Clause;
use logik::clause::SimplificatedAtom;
use logik::clause::SimplificatedClause;
use logik::clause::simplificated_clauses_from_clauses;
use logik::proposition::PropositionCNF;

fn var(name: &str) -> Proposition {
    Proposition::Variable(name.to_string())
}

fn not(p: Proposition) -> Proposition {
    Proposition::Not(Box::new(p))
}

fn and(l: Proposition, r: Proposition) -> Proposition {
    Proposition::And(Box::new(l), Box::new(r))
}

fn or(l: Proposition, r: Proposition) -> Proposition {
    Proposition::Or(Box::new(l), Box::new(r))
}

fn nnf_var(n: &PropositionNNF, name: &str) -> bool {
    matches!(n, PropositionNNF::Variable(s) if s == name)
}

fn nnf_not(n: &PropositionNNF, name: &str) -> bool {
    matches!(n, PropositionNNF::Not(s) if s == name)
}

/// Whether no negation in the NNF tree wraps anything but a bare name,
/// checked structurally: the type only ever stores a name under `Not`.
fn negations_atomic(n: &PropositionNNF) -> bool {
    match n {
        PropositionNNF::Not(_) => true,
        PropositionNNF::And(l, r) => negations_atomic(l) && negations_atomic(r),
        PropositionNNF::Or(l, r) => negations_atomic(l) && negations_atomic(r),
        PropositionNNF::Value(_) => true,
        PropositionNNF::Variable(_) => true,
    }
}

#[test]
fn nnf_pushes_negation_through_conjunction() {
    let n = PropositionNNF::from(not(and(var("a"), var("b"))));
    match n {
        PropositionNNF::Or(l, r) => {
            assert!(nnf_not(&l, "a"));
            assert!(nnf_not(&r, "b"));
        },
        _ => panic!("expected a disjunction"),
    }
}

#[test]
fn nnf_pushes_negation_through_disjunction() {
    let n = PropositionNNF::from(not(or(var("a"), var("b"))));
    match n {
        PropositionNNF::And(l, r) => {
            assert!(nnf_not(&l, "a"));
            assert!(nnf_not(&r, "b"));
        },
        _ => panic!("expected a conjunction"),
    }
}

#[test]
fn nnf_cancels_double_negation() {
    let n = PropositionNNF::from(not(not(var("a"))));
    assert!(nnf_var(&n, "a"));
}

#[test]
fn nnf_flips_negated_constant() {
    let n = PropositionNNF::from(not(Proposition::Value(true)));
    assert!(matches!(n, PropositionNNF::Value(false)));
}

#[test]
fn nnf_leaves_no_compound_negation() {
    let p = not(and(or(var("a"), not(var("b"))), not(or(var("c"), var("d")))));
    let n = PropositionNNF::from(p);
    assert!(negations_atomic(&n));
}

#[test]
fn cnf_of_conjunction_concatenates() {
    // to_cnf(And(a, b)) is the concatenation of to_cnf(a) and to_cnf(b).
    let both = PropositionCNF::from_nnf(PropositionNNF::from(and(var("a"), var("b"))));
    let left = PropositionCNF::from_nnf(PropositionNNF::from(var("a")));
    let right = PropositionCNF::from_nnf(PropositionNNF::from(var("b")));
    assert_eq!(both.len(), left.len() + right.len());
    assert!(matches!(&both[0], PropositionCNF::Variable(s) if s == "a"));
    assert!(matches!(&both[1], PropositionCNF::Variable(s) if s == "b"));
}

#[test]
fn cnf_of_disjunction_crosses_clauses() {
    // (a and b) or (c and d) yields the four pairings.
    let p = or(and(var("a"), var("b")), and(var("c"), var("d")));
    let cnf = PropositionCNF::from_nnf(PropositionNNF::from(p));
    assert_eq!(cnf.len(), 4);
    let atoms: Vec<Vec<String>> = cnf
        .into_iter()
        .map(|c| {
            c.get_atoms()
                .into_iter()
                .map(|t| match t {
                    Atom::Var(s) => s,
                    _ => panic!("expected positive atoms"),
                })
                .collect()
        })
        .collect();
    assert_eq!(atoms[0], vec!["a".to_string(), "c".to_string()]);
    assert_eq!(atoms[1], vec!["a".to_string(), "d".to_string()]);
    assert_eq!(atoms[2], vec!["b".to_string(), "c".to_string()]);
    assert_eq!(atoms[3], vec!["b".to_string(), "d".to_string()]);
}

#[test]
fn get_atoms_flattens_disjunction_tree() {
    let tree = PropositionCNF::Or(
        Box::new(PropositionCNF::Variable("a".to_string())),
        Box::new(PropositionCNF::Or(
            Box::new(PropositionCNF::NotVariable("b".to_string())),
            Box::new(PropositionCNF::Value(false)),
        )),
    );
    let atoms = tree.get_atoms();
    assert_eq!(atoms.len(), 3);
    assert!(matches!(&atoms[0], Atom::Var(s) if s == "a"));
    assert!(matches!(&atoms[1], Atom::NotVar(s) if s == "b"));
    assert!(matches!(&atoms[2], Atom::Value(false)));
}

#[test]
fn from_cnf_keeps_one_clause_per_tree() {
    let trees = vec![
        PropositionCNF::Variable("a".to_string()),
        PropositionCNF::Or(
            Box::new(PropositionCNF::Variable("b".to_string())),
            Box::new(PropositionCNF::NotVariable("c".to_string())),
        ),
    ];
    let clauses = Clause::from_cnf(trees);
    assert_eq!(clauses.len(), 2);
    assert_eq!(clauses[0].0.len(), 1);
    assert_eq!(clauses[1].0.len(), 2);
}

#[test]
fn simplify_drops_clause_with_constant_true() {
    let clauses = vec![Clause(vec![
        Atom::Var("a".to_string()),
        Atom::Value(true),
    ])];
    let simplified = simplificated_clauses_from_clauses(clauses).unwrap();
    assert_eq!(simplified.len(), 0);
}

#[test]
fn simplify_drops_constant_false_atoms() {
    let clauses = vec![Clause(vec![
        Atom::Value(false),
        Atom::Var("a".to_string()),
    ])];
    let simplified = simplificated_clauses_from_clauses(clauses).unwrap();
    assert_eq!(simplified.len(), 1);
    assert_eq!(simplified[0].0.len(), 1);
    assert!(matches!(&simplified[0].0[0], SimplificatedAtom::Var(s) if s == "a"));
}

#[test]
fn simplify_reports_all_false_clause_as_contradiction() {
    // A clause whose atoms are all constant false can never be satisfied.
    let clauses = vec![
        Clause(vec![Atom::Var("a".to_string())]),
        Clause(vec![Atom::Value(false), Atom::Value(false)]),
    ];
    assert!(simplificated_clauses_from_clauses(clauses).is_none());
}

#[test]
fn simplify_drops_clause_with_variable_and_negation() {
    let clauses = vec![Clause(vec![
        Atom::Var("a".to_string()),
        Atom::NotVar("a".to_string()),
    ])];
    let simplified = simplificated_clauses_from_clauses(clauses).unwrap();
    assert_eq!(simplified.len(), 0);
}

#[test]
fn simplify_deduplicates_equal_clauses() {
    let clauses = vec![
        Clause(vec![Atom::Var("a".to_string()), Atom::NotVar("b".to_string())]),
        Clause(vec![Atom::NotVar("b".to_string()), Atom::Var("a".to_string())]),
    ];
    let simplified = simplificated_clauses_from_clauses(clauses).unwrap();
    assert_eq!(simplified.len(), 1);
}

#[test]
fn simplified_clause_equality_ignores_order() {
    let left = SimplificatedClause(vec![
        SimplificatedAtom::Var("a".to_string()),
        SimplificatedAtom::NotVar("b".to_string()),
    ]);
    let right = SimplificatedClause(vec![
        SimplificatedAtom::NotVar("b".to_string()),
        SimplificatedAtom::Var("a".to_string()),
    ]);
    let other = SimplificatedClause(vec![SimplificatedAtom::Var("a".to_string())]);
    assert!(left.same_lits(&right));
    assert!(!left.same_lits(&other));
    assert!(other.subset_of_clause(&left));
    assert!(!left.subset_of_clause(&other));
}

#[test]
fn atom_negation_flips_polarity() {
    let a = SimplificatedAtom::Var("x".to_string());
    let na = a.negate();
    assert!(matches!(&na, SimplificatedAtom::NotVar(s) if s == "x"));
    assert!(a.eq_atom(&na.negate()));
    assert!(!a.eq_atom(&na));
}

#[test]
fn render_proposition_notation() {
    let p = or(not(var("a")), and(var("b"), Proposition::Value(true)));
    assert_eq!(p.render(), "(¬a ∨ (b ∧ T))");
}

#[test]
fn render_nnf_notation() {
    let n = PropositionNNF::from(not(and(var("a"), var("b"))));
    assert_eq!(n.render(), "(¬a ∨ ¬b)");
}

#[test]
fn render_cnf_clause_notation() {
    let tree = PropositionCNF::Or(
        Box::new(PropositionCNF::Variable("a".to_string())),
        Box::new(PropositionCNF::NotVariable("b".to_string())),
    );
    assert_eq!(tree.render(), "(a ∨ ¬b)");
}

#[test]
fn render_clause_joins_atoms() {
    let clause = Clause(vec![
        Atom::Var("a".to_string()),
        Atom::NotVar("b".to_string()),
        Atom::Value(false),
    ]);
    assert_eq!(clause.render(), "a ∨ ¬b ∨ F");
}

#[test]
fn render_simplificated_clause_joins_atoms() {
    let clause = SimplificatedClause(vec![
        SimplificatedAtom::Var("a".to_string()),
        SimplificatedAtom::NotVar("b".to_string()),
    ]);
    assert_eq!(clause.render(), "a ∨ ¬b");
}
