//! Logical proposition trees and their normal forms.

use vstd::prelude::*;

use crate::clause::Atom;
use crate::clause::atom_sat;
use crate::clause::atom_vars;
use crate::clause::clause_sat;

verus! {

/// Represents a logical proposition in standard form.
///
/// A proposition can be a variable, a boolean constant, or a compound
/// expression built from NOT, AND, and OR operations. This enum supports the
/// full range of propositional logic expressions.
#[derive(Debug)]
pub enum Proposition {
    /// Represents a negation of an expression.
    Not(Box<Proposition>),

    /// Represents a logical AND operation between two expressions.
    And(Box<Proposition>, Box<Proposition>),

    /// Represents a logical OR operation between two expressions.
    Or(Box<Proposition>, Box<Proposition>),

    /// Represents a boolean value.
    Value(bool),

    /// Represents a variable in the expression.
    Variable(String),
}

/// The truth value of a proposition under an assignment of boolean values to
/// variable names, under standard boolean semantics.
pub open spec fn prop_sat(p: Proposition, a: Map<Seq<char>, bool>) -> bool
    decreases p,
{
    match p {
        Proposition::Not(inner) => !prop_sat(*inner, a),
        Proposition::And(lhs, rhs) => prop_sat(*lhs, a) && prop_sat(*rhs, a),
        Proposition::Or(lhs, rhs) => prop_sat(*lhs, a) || prop_sat(*rhs, a),
        Proposition::Value(v) => v,
        Proposition::Variable(name) => a[name@],
    }
}

/// The set of variable names referenced anywhere in a proposition.
pub open spec fn prop_vars(p: Proposition) -> Set<Seq<char>>
    decreases p,
{
    match p {
        Proposition::Not(inner) => prop_vars(*inner),
        Proposition::And(lhs, rhs) => prop_vars(*lhs).union(prop_vars(*rhs)),
        Proposition::Or(lhs, rhs) => prop_vars(*lhs).union(prop_vars(*rhs)),
        Proposition::Value(_) => Set::empty(),
        Proposition::Variable(name) => Set::empty().insert(name@),
    }
}


/// The rendering of a proposition in standard logical notation.
pub open spec fn prop_text(p: Proposition) -> Seq<char>
    decreases p,
{
    match p {
        Proposition::Not(inner) => "¬"@ + prop_text(*inner),
        Proposition::And(lhs, rhs) => "("@ + prop_text(*lhs) + " ∧ "@ + prop_text(*rhs) + ")"@,
        Proposition::Or(lhs, rhs) => "("@ + prop_text(*lhs) + " ∨ "@ + prop_text(*rhs) + ")"@,
        Proposition::Value(v) => if v {
            "T"@
        } else {
            "F"@
        },
        Proposition::Variable(name) => name@,
    }
}

/// The set of names held by a list of strings.
pub open spec fn names_of(s: Seq<String>) -> Set<Seq<char>> {
    Set::new(|v: Seq<char>| exists|i: int| 0 <= i < s.len() && (#[trigger] s[i])@ == v)
}

/// Concatenating two lists of names unites their name sets.
proof fn lemma_names_of_concat(s1: Seq<String>, s2: Seq<String>)
    ensures
        forall|v: Seq<char>|
            names_of(s1 + s2).contains(v) == (names_of(s1).contains(v) || names_of(s2).contains(
                v,
            )),
{
    assert forall|v: Seq<char>|
        names_of(s1 + s2).contains(v) == (names_of(s1).contains(v) || names_of(s2).contains(
            v,
        )) by {
        if names_of(s1).contains(v) {
            let i = choose|i: int| 0 <= i < s1.len() && (#[trigger] s1[i])@ == v;
            assert((s1 + s2)[i] == s1[i]);
            assert(names_of(s1 + s2).contains(v));
        }
        if names_of(s2).contains(v) {
            let i = choose|i: int| 0 <= i < s2.len() && (#[trigger] s2[i])@ == v;
            assert((s1 + s2)[i + s1.len()] == s2[i]);
            assert(names_of(s1 + s2).contains(v));
        }
        if names_of(s1 + s2).contains(v) {
            let i = choose|i: int| 0 <= i < (s1 + s2).len() && (#[trigger] (s1 + s2)[i])@ == v;
            if i < s1.len() {
                assert(s1[i] == (s1 + s2)[i]);
                assert(names_of(s1).contains(v));
            } else {
                assert(s2[i - s1.len()] == (s1 + s2)[i]);
                assert(names_of(s2).contains(v));
            }
        }
    }
}

impl Proposition {
    /// Builds a structurally identical copy of this proposition.
    pub fn dup(&self) -> (r: Self)
        ensures
            r == *self,
        decreases *self,
    {
        match self {
            Proposition::Not(inner) => Proposition::Not(Box::new((**inner).dup())),
            Proposition::And(lhs, rhs) => Proposition::And(
                Box::new((**lhs).dup()),
                Box::new((**rhs).dup()),
            ),
            Proposition::Or(lhs, rhs) => Proposition::Or(
                Box::new((**lhs).dup()),
                Box::new((**rhs).dup()),
            ),
            Proposition::Value(v) => Proposition::Value(*v),
            Proposition::Variable(name) => Proposition::Variable(name.clone()),
        }
    }


    /// Renders the proposition in standard logical notation.
    pub fn render(&self) -> (r: String)
        ensures
            r@ == prop_text(*self),
        decreases *self,
    {
        match self {
            Proposition::Variable(name) => name.clone(),
            Proposition::Value(v) => {
                if *v {
                    String::from_str("T")
                } else {
                    String::from_str("F")
                }
            },
            Proposition::Not(inner) => {
                let mut s = String::from_str("¬");
                let tail = inner.render();
                s.append(tail.as_str());
                s
            },
            Proposition::And(lhs, rhs) => {
                let mut s = String::from_str("(");
                let left = lhs.render();
                s.append(left.as_str());
                s.append(" ∧ ");
                let right = rhs.render();
                s.append(right.as_str());
                s.append(")");
                s
            },
            Proposition::Or(lhs, rhs) => {
                let mut s = String::from_str("(");
                let left = lhs.render();
                s.append(left.as_str());
                s.append(" ∨ ");
                let right = rhs.render();
                s.append(right.as_str());
                s.append(")");
                s
            },
        }
    }

    /// Collects the name of every variable referenced in the proposition;
    /// a name referenced several times appears several times.
    pub fn get_variables(&self) -> (r: Vec<String>)
        ensures
            names_of(r@) == prop_vars(*self),
        decreases *self,
    {
        match self {
            Proposition::Not(inner) => inner.get_variables(),
            Proposition::And(lhs, rhs) => {
                let mut left = lhs.get_variables();
                let mut right = rhs.get_variables();
                let ghost l0 = left@;
                let ghost r0 = right@;
                left.append(&mut right);
                proof {
                    lemma_names_of_concat(l0, r0);
                    assert(names_of(left@) =~= prop_vars(*self));
                }
                left
            },
            Proposition::Or(lhs, rhs) => {
                let mut left = lhs.get_variables();
                let mut right = rhs.get_variables();
                let ghost l0 = left@;
                let ghost r0 = right@;
                left.append(&mut right);
                proof {
                    lemma_names_of_concat(l0, r0);
                    assert(names_of(left@) =~= prop_vars(*self));
                }
                left
            },
            Proposition::Value(_) => {
                let r: Vec<String> = Vec::new();
                proof {
                    assert(names_of(r@) =~= prop_vars(*self));
                }
                r
            },
            Proposition::Variable(name) => {
                let mut r: Vec<String> = Vec::new();
                r.push(name.clone());
                proof {
                    assert(r@[0]@ == name@);
                    assert forall|v: Seq<char>|
                        names_of(r@).contains(v) == prop_vars(*self).contains(v) by {
                        if names_of(r@).contains(v) {
                            let i = choose|i: int| 0 <= i < r@.len() && (#[trigger] r@[i])@ == v;
                            assert(i == 0);
                        }
                        if prop_vars(*self).contains(v) {
                            assert(r@[0]@ == v);
                            assert(names_of(r@).contains(v));
                        }
                    }
                    assert(names_of(r@) =~= prop_vars(*self));
                }
                r
            },
        }
    }
}

/// The number of nodes in a proposition tree. The negation-normal-form
/// rewrite recurses on freshly built `Not` nodes, which are not subterms of
/// the input, so termination is measured by this size rather than by the
/// tree structure itself.
pub open spec fn prop_size(p: Proposition) -> nat
    decreases p,
{
    match p {
        Proposition::Not(inner) => 1 + prop_size(*inner),
        Proposition::And(lhs, rhs) => 1 + prop_size(*lhs) + prop_size(*rhs),
        Proposition::Or(lhs, rhs) => 1 + prop_size(*lhs) + prop_size(*rhs),
        Proposition::Value(_) => 1,
        Proposition::Variable(_) => 1,
    }
}

/// Represents a logical proposition in Negation Normal Form (NNF).
///
/// In NNF, negations are pushed down to the atomic level, meaning NOT
/// operations can only be applied directly to variables, not to compound
/// expressions. This form is useful for certain logical algorithms and
/// simplifications.
#[derive(Debug)]
pub enum PropositionNNF {
    /// Represents a negation of a variable.
    Not(String),

    /// Represents a logical AND operation between two expressions.
    And(Box<PropositionNNF>, Box<PropositionNNF>),

    /// Represents a logical OR operation between two expressions.
    Or(Box<PropositionNNF>, Box<PropositionNNF>),

    /// Represents a boolean value.
    Value(bool),

    /// Represents a variable in the expression.
    Variable(String),
}


/// The rendering of an NNF proposition in standard logical notation.
pub open spec fn nnf_text(n: PropositionNNF) -> Seq<char>
    decreases n,
{
    match n {
        PropositionNNF::Not(name) => "¬"@ + name@,
        PropositionNNF::And(lhs, rhs) => "("@ + nnf_text(*lhs) + " ∧ "@ + nnf_text(*rhs) + ")"@,
        PropositionNNF::Or(lhs, rhs) => "("@ + nnf_text(*lhs) + " ∨ "@ + nnf_text(*rhs) + ")"@,
        PropositionNNF::Value(v) => if v {
            "T"@
        } else {
            "F"@
        },
        PropositionNNF::Variable(name) => name@,
    }
}

/// The truth value of an NNF proposition under an assignment.
pub open spec fn nnf_sat(n: PropositionNNF, a: Map<Seq<char>, bool>) -> bool
    decreases n,
{
    match n {
        PropositionNNF::Not(name) => !a[name@],
        PropositionNNF::And(lhs, rhs) => nnf_sat(*lhs, a) && nnf_sat(*rhs, a),
        PropositionNNF::Or(lhs, rhs) => nnf_sat(*lhs, a) || nnf_sat(*rhs, a),
        PropositionNNF::Value(v) => v,
        PropositionNNF::Variable(name) => a[name@],
    }
}

/// The set of variable names referenced anywhere in an NNF proposition.
pub open spec fn nnf_vars(n: PropositionNNF) -> Set<Seq<char>>
    decreases n,
{
    match n {
        PropositionNNF::Not(name) => Set::empty().insert(name@),
        PropositionNNF::And(lhs, rhs) => nnf_vars(*lhs).union(nnf_vars(*rhs)),
        PropositionNNF::Or(lhs, rhs) => nnf_vars(*lhs).union(nnf_vars(*rhs)),
        PropositionNNF::Value(_) => Set::empty(),
        PropositionNNF::Variable(name) => Set::empty().insert(name@),
    }
}


impl PropositionNNF {
    /// Renders the NNF proposition in standard logical notation.
    pub fn render(&self) -> (r: String)
        ensures
            r@ == nnf_text(*self),
        decreases *self,
    {
        match self {
            PropositionNNF::Variable(name) => name.clone(),
            PropositionNNF::Value(v) => {
                if *v {
                    String::from_str("T")
                } else {
                    String::from_str("F")
                }
            },
            PropositionNNF::Not(name) => {
                let mut s = String::from_str("¬");
                s.append(name.as_str());
                s
            },
            PropositionNNF::And(lhs, rhs) => {
                let mut s = String::from_str("(");
                let left = lhs.render();
                s.append(left.as_str());
                s.append(" ∧ ");
                let right = rhs.render();
                s.append(right.as_str());
                s.append(")");
                s
            },
            PropositionNNF::Or(lhs, rhs) => {
                let mut s = String::from_str("(");
                let left = lhs.render();
                s.append(left.as_str());
                s.append(" ∨ ");
                let right = rhs.render();
                s.append(right.as_str());
                s.append(")");
                s
            },
        }
    }
}

/// The negation-normal-form rewrite: negation is pushed through De Morgan's
/// laws, double negations cancel, and negation of a constant flips it.
pub open spec fn nnf_of(p: Proposition) -> PropositionNNF
    decreases prop_size(p),
    via nnf_of_decreases
{
    match p {
        Proposition::And(lhs, rhs) => PropositionNNF::And(
            Box::new(nnf_of(*lhs)),
            Box::new(nnf_of(*rhs)),
        ),
        Proposition::Or(lhs, rhs) => PropositionNNF::Or(
            Box::new(nnf_of(*lhs)),
            Box::new(nnf_of(*rhs)),
        ),
        Proposition::Value(v) => PropositionNNF::Value(v),
        Proposition::Variable(name) => PropositionNNF::Variable(name),
        Proposition::Not(inner) => match *inner {
            Proposition::And(lhs, rhs) => PropositionNNF::Or(
                Box::new(nnf_of(Proposition::Not(lhs))),
                Box::new(nnf_of(Proposition::Not(rhs))),
            ),
            Proposition::Or(lhs, rhs) => PropositionNNF::And(
                Box::new(nnf_of(Proposition::Not(lhs))),
                Box::new(nnf_of(Proposition::Not(rhs))),
            ),
            Proposition::Not(inner2) => nnf_of(*inner2),
            Proposition::Value(v) => PropositionNNF::Value(!v),
            Proposition::Variable(name) => PropositionNNF::Not(name),
        },
    }
}

#[via_fn]
proof fn nnf_of_decreases(p: Proposition) {
    match p {
        Proposition::Not(inner) => {
            assert(prop_size(p) == 1 + prop_size(*inner));
            match *inner {
                Proposition::And(lhs, rhs) => {
                    assert(prop_size(*inner) == 1 + prop_size(*lhs) + prop_size(*rhs));
                },
                Proposition::Or(lhs, rhs) => {
                    assert(prop_size(*inner) == 1 + prop_size(*lhs) + prop_size(*rhs));
                },
                Proposition::Not(inner2) => {
                    assert(prop_size(*inner) == 1 + prop_size(*inner2));
                },
                _ => {},
            }
        },
        _ => {},
    }
}

/// The rewrite to negation normal form preserves the truth value of the
/// proposition under every assignment.
pub proof fn lemma_nnf_of_preserves_sat(p: Proposition, a: Map<Seq<char>, bool>)
    ensures
        nnf_sat(nnf_of(p), a) == prop_sat(p, a),
    decreases prop_size(p),
{
    match p {
        Proposition::And(lhs, rhs) => {
            lemma_nnf_of_preserves_sat(*lhs, a);
            lemma_nnf_of_preserves_sat(*rhs, a);
        },
        Proposition::Or(lhs, rhs) => {
            lemma_nnf_of_preserves_sat(*lhs, a);
            lemma_nnf_of_preserves_sat(*rhs, a);
        },
        Proposition::Value(_) => {},
        Proposition::Variable(_) => {},
        Proposition::Not(inner) => {
            assert(prop_size(p) == 1 + prop_size(*inner));
            assert(prop_sat(p, a) == !prop_sat(*inner, a));
            match *inner {
                Proposition::And(lhs, rhs) => {
                    assert(prop_size(*inner) == 1 + prop_size(*lhs) + prop_size(*rhs));
                    lemma_nnf_of_preserves_sat(Proposition::Not(lhs), a);
                    lemma_nnf_of_preserves_sat(Proposition::Not(rhs), a);
                    assert(prop_sat(*inner, a) == (prop_sat(*lhs, a) && prop_sat(*rhs, a)));
                    assert(prop_sat(Proposition::Not(lhs), a) == !prop_sat(*lhs, a));
                    assert(prop_sat(Proposition::Not(rhs), a) == !prop_sat(*rhs, a));
                    assert(nnf_of(p) == PropositionNNF::Or(
                        Box::new(nnf_of(Proposition::Not(lhs))),
                        Box::new(nnf_of(Proposition::Not(rhs))),
                    ));
                },
                Proposition::Or(lhs, rhs) => {
                    assert(prop_size(*inner) == 1 + prop_size(*lhs) + prop_size(*rhs));
                    lemma_nnf_of_preserves_sat(Proposition::Not(lhs), a);
                    lemma_nnf_of_preserves_sat(Proposition::Not(rhs), a);
                    assert(prop_sat(*inner, a) == (prop_sat(*lhs, a) || prop_sat(*rhs, a)));
                    assert(prop_sat(Proposition::Not(lhs), a) == !prop_sat(*lhs, a));
                    assert(prop_sat(Proposition::Not(rhs), a) == !prop_sat(*rhs, a));
                    assert(nnf_of(p) == PropositionNNF::And(
                        Box::new(nnf_of(Proposition::Not(lhs))),
                        Box::new(nnf_of(Proposition::Not(rhs))),
                    ));
                },
                Proposition::Not(inner2) => {
                    assert(prop_size(*inner) == 1 + prop_size(*inner2));
                    lemma_nnf_of_preserves_sat(*inner2, a);
                    assert(prop_sat(*inner, a) == !prop_sat(*inner2, a));
                },
                Proposition::Value(_) => {},
                Proposition::Variable(_) => {},
            }
        },
    }
}

/// The rewrite to negation normal form references exactly the variables of
/// the input proposition.
pub proof fn lemma_nnf_of_vars(p: Proposition)
    ensures
        nnf_vars(nnf_of(p)) == prop_vars(p),
    decreases prop_size(p),
{
    match p {
        Proposition::And(lhs, rhs) => {
            lemma_nnf_of_vars(*lhs);
            lemma_nnf_of_vars(*rhs);
        },
        Proposition::Or(lhs, rhs) => {
            lemma_nnf_of_vars(*lhs);
            lemma_nnf_of_vars(*rhs);
        },
        Proposition::Value(_) => {},
        Proposition::Variable(_) => {},
        Proposition::Not(inner) => {
            assert(prop_size(p) == 1 + prop_size(*inner));
            assert(prop_vars(p) == prop_vars(*inner));
            match *inner {
                Proposition::And(lhs, rhs) => {
                    assert(prop_size(*inner) == 1 + prop_size(*lhs) + prop_size(*rhs));
                    lemma_nnf_of_vars(Proposition::Not(lhs));
                    lemma_nnf_of_vars(Proposition::Not(rhs));
                    assert(prop_vars(*inner) == prop_vars(*lhs).union(prop_vars(*rhs)));
                    assert(prop_vars(Proposition::Not(lhs)) == prop_vars(*lhs));
                    assert(prop_vars(Proposition::Not(rhs)) == prop_vars(*rhs));
                    assert(nnf_of(p) == PropositionNNF::Or(
                        Box::new(nnf_of(Proposition::Not(lhs))),
                        Box::new(nnf_of(Proposition::Not(rhs))),
                    ));
                },
                Proposition::Or(lhs, rhs) => {
                    assert(prop_size(*inner) == 1 + prop_size(*lhs) + prop_size(*rhs));
                    lemma_nnf_of_vars(Proposition::Not(lhs));
                    lemma_nnf_of_vars(Proposition::Not(rhs));
                    assert(prop_vars(*inner) == prop_vars(*lhs).union(prop_vars(*rhs)));
                    assert(prop_vars(Proposition::Not(lhs)) == prop_vars(*lhs));
                    assert(prop_vars(Proposition::Not(rhs)) == prop_vars(*rhs));
                    assert(nnf_of(p) == PropositionNNF::And(
                        Box::new(nnf_of(Proposition::Not(lhs))),
                        Box::new(nnf_of(Proposition::Not(rhs))),
                    ));
                },
                Proposition::Not(inner2) => {
                    assert(prop_size(*inner) == 1 + prop_size(*inner2));
                    lemma_nnf_of_vars(*inner2);
                    assert(prop_vars(*inner) == prop_vars(*inner2));
                },
                Proposition::Value(_) => {},
                Proposition::Variable(_) => {},
            }
        },
    }
}


/// Whether a proposition applies negation only to bare variables, never to a
/// compound subtree.
pub open spec fn negation_normal(p: Proposition) -> bool
    decreases p,
{
    match p {
        Proposition::Not(inner) => *inner is Variable,
        Proposition::And(lhs, rhs) => negation_normal(*lhs) && negation_normal(*rhs),
        Proposition::Or(lhs, rhs) => negation_normal(*lhs) && negation_normal(*rhs),
        Proposition::Value(_) => true,
        Proposition::Variable(_) => true,
    }
}

/// An NNF tree read back as a general proposition: the negated-leaf variant
/// becomes a negation applied to a variable.
pub open spec fn nnf_to_prop(n: PropositionNNF) -> Proposition
    decreases n,
{
    match n {
        PropositionNNF::Not(name) => Proposition::Not(Box::new(Proposition::Variable(name))),
        PropositionNNF::And(lhs, rhs) => Proposition::And(
            Box::new(nnf_to_prop(*lhs)),
            Box::new(nnf_to_prop(*rhs)),
        ),
        PropositionNNF::Or(lhs, rhs) => Proposition::Or(
            Box::new(nnf_to_prop(*lhs)),
            Box::new(nnf_to_prop(*rhs)),
        ),
        PropositionNNF::Value(v) => Proposition::Value(v),
        PropositionNNF::Variable(name) => Proposition::Variable(name),
    }
}

/// Every NNF tree, read back as a general proposition, applies negation only
/// to bare variables: the `PropositionNNF` type cannot hold a negated
/// compound subtree.
pub proof fn lemma_nnf_negations_atomic(n: PropositionNNF)
    ensures
        negation_normal(nnf_to_prop(n)),
    decreases n,
{
    match n {
        PropositionNNF::And(lhs, rhs) => {
            lemma_nnf_negations_atomic(*lhs);
            lemma_nnf_negations_atomic(*rhs);
        },
        PropositionNNF::Or(lhs, rhs) => {
            lemma_nnf_negations_atomic(*lhs);
            lemma_nnf_negations_atomic(*rhs);
        },
        _ => {},
    }
}

/// Law: rewriting any proposition to negation normal form yields a formula
/// in which no negation is applied to an `And`, an `Or`, or another
/// negation — negation only ever wraps a bare variable.
pub proof fn lemma_nnf_of_negation_normal(p: Proposition)
    ensures
        negation_normal(nnf_to_prop(nnf_of(p))),
{
    lemma_nnf_negations_atomic(nnf_of(p));
}

impl vstd::std_specs::convert::FromSpecImpl<Proposition> for PropositionNNF {
    open spec fn obeys_from_spec() -> bool {
        true
    }

    open spec fn from_spec(p: Proposition) -> Self {
        nnf_of(p)
    }
}

impl From<Proposition> for PropositionNNF {
    fn from(value: Proposition) -> (r: Self)
        decreases prop_size(value),
    {
        match value {
            Proposition::And(lhs, rhs) => Self::And(
                Box::new(PropositionNNF::from(*lhs)),
                Box::new(PropositionNNF::from(*rhs)),
            ),
            Proposition::Or(lhs, rhs) => Self::Or(
                Box::new(PropositionNNF::from(*lhs)),
                Box::new(PropositionNNF::from(*rhs)),
            ),
            Proposition::Value(v) => Self::Value(v),
            Proposition::Variable(name) => Self::Variable(name),
            Proposition::Not(proposition) => {
                proof {
                    assert(prop_size(value) == 1 + prop_size(*proposition));
                }
                match *proposition {
                    Proposition::And(lhs, rhs) => {
                        proof {
                            assert(prop_size(Proposition::Not(Box::new(Proposition::And(lhs, rhs))))
                                == 2 + prop_size(*lhs) + prop_size(*rhs));
                        }
                        Self::Or(
                            Box::new(PropositionNNF::from(Proposition::Not(lhs))),
                            Box::new(PropositionNNF::from(Proposition::Not(rhs))),
                        )
                    },
                    Proposition::Or(lhs, rhs) => {
                        proof {
                            assert(prop_size(Proposition::Not(Box::new(Proposition::Or(lhs, rhs))))
                                == 2 + prop_size(*lhs) + prop_size(*rhs));
                        }
                        Self::And(
                            Box::new(PropositionNNF::from(Proposition::Not(lhs))),
                            Box::new(PropositionNNF::from(Proposition::Not(rhs))),
                        )
                    },
                    Proposition::Not(inner) => PropositionNNF::from(*inner),
                    Proposition::Value(v) => PropositionNNF::Value(!v),
                    Proposition::Variable(name) => PropositionNNF::Not(name),
                }
            },
        }
    }
}

/// Represents a logical proposition in Conjunctive Normal Form (CNF).
/// To be more easy to manipulate as clauses it do not support AND operation
/// directly. Instead a CNF is represented as a vector of clauses, where each
/// clause is a disjunction (OR) of literals (variables or their negations).
#[derive(Debug)]
pub enum PropositionCNF {
    /// Represents a logical OR operation between two expressions.
    Or(Box<PropositionCNF>, Box<PropositionCNF>),

    /// Represents a boolean value.
    Value(bool),

    /// Represents a variable in the expression.
    Variable(String),

    /// Represents a negated variable in the expression.
    NotVariable(String),
}


/// The rendering of one CNF clause tree in standard logical notation.
pub open spec fn cnf_clause_text(c: PropositionCNF) -> Seq<char>
    decreases c,
{
    match c {
        PropositionCNF::Or(lhs, rhs) => "("@ + cnf_clause_text(*lhs) + " ∨ "@ + cnf_clause_text(
            *rhs,
        ) + ")"@,
        PropositionCNF::Value(v) => if v {
            "T"@
        } else {
            "F"@
        },
        PropositionCNF::Variable(name) => name@,
        PropositionCNF::NotVariable(name) => "¬"@ + name@,
    }
}

/// The truth value of one CNF clause tree under an assignment.
pub open spec fn cnf_clause_sat(c: PropositionCNF, a: Map<Seq<char>, bool>) -> bool
    decreases c,
{
    match c {
        PropositionCNF::Or(lhs, rhs) => cnf_clause_sat(*lhs, a) || cnf_clause_sat(*rhs, a),
        PropositionCNF::Value(v) => v,
        PropositionCNF::Variable(name) => a[name@],
        PropositionCNF::NotVariable(name) => !a[name@],
    }
}

/// The variables referenced in one CNF clause tree.
pub open spec fn cnf_clause_vars(c: PropositionCNF) -> Set<Seq<char>>
    decreases c,
{
    match c {
        PropositionCNF::Or(lhs, rhs) => cnf_clause_vars(*lhs).union(cnf_clause_vars(*rhs)),
        PropositionCNF::Value(_) => Set::empty(),
        PropositionCNF::Variable(name) => Set::empty().insert(name@),
        PropositionCNF::NotVariable(name) => Set::empty().insert(name@),
    }
}

/// The truth value of a sequence of clause trees read as a conjunction:
/// every clause must hold.
pub open spec fn cnf_seq_sat(cs: Seq<PropositionCNF>, a: Map<Seq<char>, bool>) -> bool {
    forall|i: int| 0 <= i < cs.len() ==> cnf_clause_sat(#[trigger] cs[i], a)
}

/// Whether every clause of the sequence only references variables of `vs`.
pub open spec fn cnf_seq_vars_within(cs: Seq<PropositionCNF>, vs: Set<Seq<char>>) -> bool {
    forall|i: int| 0 <= i < cs.len() ==> cnf_clause_vars(#[trigger] cs[i]).subset_of(vs)
}

/// One clause tree paired by disjunction with each clause of a sequence.
pub open spec fn cnf_or_all(x: PropositionCNF, s: Seq<PropositionCNF>) -> Seq<PropositionCNF> {
    Seq::new(s.len(), |j: int| PropositionCNF::Or(Box::new(x), Box::new(s[j])))
}

/// The cross product of two clause sequences: every pairing of a left clause
/// with a right clause, wrapped in a disjunction, rows ordered by the left
/// clause.
pub open spec fn cnf_cross(s1: Seq<PropositionCNF>, s2: Seq<PropositionCNF>) -> Seq<PropositionCNF>
    decreases s1.len(),
{
    if s1.len() == 0 {
        Seq::empty()
    } else {
        cnf_cross(s1.drop_last(), s2) + cnf_or_all(s1.last(), s2)
    }
}

/// The conversion of an NNF proposition into a sequence of CNF clause trees:
/// conjunction becomes sequence concatenation, and disjunction becomes the
/// cross product of the operands' clause sequences.
pub open spec fn cnf_of(n: PropositionNNF) -> Seq<PropositionCNF>
    decreases n,
{
    match n {
        PropositionNNF::And(lhs, rhs) => cnf_of(*lhs) + cnf_of(*rhs),
        PropositionNNF::Or(lhs, rhs) => cnf_cross(cnf_of(*lhs), cnf_of(*rhs)),
        PropositionNNF::Value(v) => seq![PropositionCNF::Value(v)],
        PropositionNNF::Variable(name) => seq![PropositionCNF::Variable(name)],
        PropositionNNF::Not(name) => seq![PropositionCNF::NotVariable(name)],
    }
}

/// Law: converting a conjunction to CNF yields exactly the concatenation of
/// the conversions of its two operands.
pub proof fn lemma_cnf_of_and(lhs: Box<PropositionNNF>, rhs: Box<PropositionNNF>)
    ensures
        cnf_of(PropositionNNF::And(lhs, rhs)) == cnf_of(*lhs) + cnf_of(*rhs),
{
}

/// A conjunction of clauses holds exactly when both halves of a
/// concatenation hold.
pub proof fn lemma_cnf_seq_sat_concat(
    s1: Seq<PropositionCNF>,
    s2: Seq<PropositionCNF>,
    a: Map<Seq<char>, bool>,
)
    ensures
        cnf_seq_sat(s1 + s2, a) == (cnf_seq_sat(s1, a) && cnf_seq_sat(s2, a)),
{
    if cnf_seq_sat(s1, a) && cnf_seq_sat(s2, a) {
        assert forall|i: int| 0 <= i < (s1 + s2).len() implies cnf_clause_sat(
            #[trigger] (s1 + s2)[i],
            a,
        ) by {
            if i < s1.len() {
                assert((s1 + s2)[i] == s1[i]);
            } else {
                assert((s1 + s2)[i] == s2[i - s1.len()]);
            }
        }
    }
    if cnf_seq_sat(s1 + s2, a) {
        assert forall|i: int| 0 <= i < s1.len() implies cnf_clause_sat(#[trigger] s1[i], a) by {
            assert(s1[i] == (s1 + s2)[i]);
        }
        assert forall|i: int| 0 <= i < s2.len() implies cnf_clause_sat(#[trigger] s2[i], a) by {
            assert(s2[i] == (s1 + s2)[i + s1.len()]);
        }
    }
}

/// Pairing one clause with every clause of a sequence holds exactly when the
/// clause holds or the whole sequence holds.
pub proof fn lemma_cnf_or_all_sat(
    x: PropositionCNF,
    s: Seq<PropositionCNF>,
    a: Map<Seq<char>, bool>,
)
    ensures
        cnf_seq_sat(cnf_or_all(x, s), a) == (cnf_clause_sat(x, a) || cnf_seq_sat(s, a)),
{
    let r = cnf_or_all(x, s);
    assert(forall|j: int|
        0 <= j < s.len() ==> #[trigger] r[j] == PropositionCNF::Or(Box::new(x), Box::new(s[j])));
    if cnf_clause_sat(x, a) || cnf_seq_sat(s, a) {
        assert forall|j: int| 0 <= j < r.len() implies cnf_clause_sat(#[trigger] r[j], a) by {
            assert(r[j] == PropositionCNF::Or(Box::new(x), Box::new(s[j])));
        }
    }
    if cnf_seq_sat(r, a) && !cnf_clause_sat(x, a) {
        assert forall|j: int| 0 <= j < s.len() implies cnf_clause_sat(#[trigger] s[j], a) by {
            assert(cnf_clause_sat(r[j], a));
            assert(r[j] == PropositionCNF::Or(Box::new(x), Box::new(s[j])));
        }
    }
}

/// The cross product of two clause sequences holds exactly when one of the
/// two sequences holds entirely: distribution of OR over AND.
pub proof fn lemma_cnf_cross_sat(
    s1: Seq<PropositionCNF>,
    s2: Seq<PropositionCNF>,
    a: Map<Seq<char>, bool>,
)
    ensures
        cnf_seq_sat(cnf_cross(s1, s2), a) == (cnf_seq_sat(s1, a) || cnf_seq_sat(s2, a)),
    decreases s1.len(),
{
    if s1.len() == 0 {
        assert(cnf_seq_sat(s1, a));
    } else {
        let s0 = s1.drop_last();
        let x = s1.last();
        lemma_cnf_cross_sat(s0, s2, a);
        lemma_cnf_seq_sat_concat(cnf_cross(s0, s2), cnf_or_all(x, s2), a);
        lemma_cnf_or_all_sat(x, s2, a);
        assert(cnf_seq_sat(s1, a) == (cnf_seq_sat(s0, a) && cnf_clause_sat(x, a))) by {
            if cnf_seq_sat(s0, a) && cnf_clause_sat(x, a) {
                assert forall|i: int| 0 <= i < s1.len() implies cnf_clause_sat(
                    #[trigger] s1[i],
                    a,
                ) by {
                    if i < s1.len() - 1 {
                        assert(s1[i] == s0[i]);
                    }
                }
            }
            if cnf_seq_sat(s1, a) {
                assert forall|i: int| 0 <= i < s0.len() implies cnf_clause_sat(
                    #[trigger] s0[i],
                    a,
                ) by {
                    assert(s0[i] == s1[i]);
                }
                assert(cnf_clause_sat(s1[s1.len() - 1], a));
            }
        }
    }
}

/// Converting an NNF proposition to CNF preserves its truth value under
/// every assignment: the conjunction of the produced clauses holds exactly
/// when the NNF proposition holds.
pub proof fn lemma_cnf_of_sat(n: PropositionNNF, a: Map<Seq<char>, bool>)
    ensures
        cnf_seq_sat(cnf_of(n), a) == nnf_sat(n, a),
    decreases n,
{
    match n {
        PropositionNNF::And(lhs, rhs) => {
            lemma_cnf_of_sat(*lhs, a);
            lemma_cnf_of_sat(*rhs, a);
            lemma_cnf_seq_sat_concat(cnf_of(*lhs), cnf_of(*rhs), a);
        },
        PropositionNNF::Or(lhs, rhs) => {
            lemma_cnf_of_sat(*lhs, a);
            lemma_cnf_of_sat(*rhs, a);
            lemma_cnf_cross_sat(cnf_of(*lhs), cnf_of(*rhs), a);
        },
        PropositionNNF::Value(v) => {
            assert(cnf_of(n)[0] == PropositionCNF::Value(v));
            assert(cnf_clause_sat(cnf_of(n)[0], a) == v);
        },
        PropositionNNF::Variable(name) => {
            assert(cnf_of(n)[0] == PropositionCNF::Variable(name));
            assert(cnf_clause_sat(cnf_of(n)[0], a) == a[name@]);
        },
        PropositionNNF::Not(name) => {
            assert(cnf_of(n)[0] == PropositionCNF::NotVariable(name));
            assert(cnf_clause_sat(cnf_of(n)[0], a) == !a[name@]);
        },
    }
}

/// Every clause produced by the CNF conversion only references variables of
/// the NNF proposition.
pub proof fn lemma_cnf_of_vars(n: PropositionNNF)
    ensures
        cnf_seq_vars_within(cnf_of(n), nnf_vars(n)),
    decreases n,
{
    match n {
        PropositionNNF::And(lhs, rhs) => {
            lemma_cnf_of_vars(*lhs);
            lemma_cnf_of_vars(*rhs);
            let c1 = cnf_of(*lhs);
            let c2 = cnf_of(*rhs);
            assert forall|i: int| 0 <= i < (c1 + c2).len() implies cnf_clause_vars(
                #[trigger] (c1 + c2)[i],
            ).subset_of(nnf_vars(n)) by {
                if i < c1.len() {
                    assert((c1 + c2)[i] == c1[i]);
                } else {
                    assert((c1 + c2)[i] == c2[i - c1.len()]);
                }
            }
        },
        PropositionNNF::Or(lhs, rhs) => {
            lemma_cnf_of_vars(*lhs);
            lemma_cnf_of_vars(*rhs);
            lemma_cnf_cross_vars(cnf_of(*lhs), cnf_of(*rhs), nnf_vars(n));
        },
        PropositionNNF::Value(_) => {},
        PropositionNNF::Variable(_) => {},
        PropositionNNF::Not(_) => {},
    }
}

/// If every clause of both sequences stays within a variable set, so does
/// every clause of their cross product.
pub proof fn lemma_cnf_cross_vars(
    s1: Seq<PropositionCNF>,
    s2: Seq<PropositionCNF>,
    vs: Set<Seq<char>>,
)
    requires
        cnf_seq_vars_within(s1, vs),
        cnf_seq_vars_within(s2, vs),
    ensures
        cnf_seq_vars_within(cnf_cross(s1, s2), vs),
    decreases s1.len(),
{
    if s1.len() == 0 {
    } else {
        let s0 = s1.drop_last();
        let x = s1.last();
        assert forall|i: int| 0 <= i < s0.len() implies cnf_clause_vars(
            #[trigger] s0[i],
        ).subset_of(vs) by {
            assert(s0[i] == s1[i]);
        }
        lemma_cnf_cross_vars(s0, s2, vs);
        let left = cnf_cross(s0, s2);
        let row = cnf_or_all(x, s2);
        assert forall|i: int| 0 <= i < (left + row).len() implies cnf_clause_vars(
            #[trigger] (left + row)[i],
        ).subset_of(vs) by {
            if i < left.len() {
                assert((left + row)[i] == left[i]);
            } else {
                let j = i - left.len();
                assert((left + row)[i] == row[j]);
                assert(row[j] == PropositionCNF::Or(Box::new(x), Box::new(s2[j])));
                assert(cnf_clause_vars(s1[s1.len() - 1]).subset_of(vs));
            }
        }
    }
}


/// The atoms at the leaves of a CNF clause tree, left to right.
pub open spec fn atoms_of(c: PropositionCNF) -> Seq<Atom>
    decreases c,
{
    match c {
        PropositionCNF::Or(lhs, rhs) => atoms_of(*lhs) + atoms_of(*rhs),
        PropositionCNF::Value(v) => seq![Atom::Value(v)],
        PropositionCNF::Variable(name) => seq![Atom::Var(name)],
        PropositionCNF::NotVariable(name) => seq![Atom::NotVar(name)],
    }
}

/// Flattening a clause tree into its atoms preserves its truth value: the
/// disjunction of the atoms holds exactly when the tree holds.
pub proof fn lemma_atoms_of_sat(c: PropositionCNF, a: Map<Seq<char>, bool>)
    ensures
        clause_sat(atoms_of(c), a) == cnf_clause_sat(c, a),
    decreases c,
{
    match c {
        PropositionCNF::Or(lhs, rhs) => {
            lemma_atoms_of_sat(*lhs, a);
            lemma_atoms_of_sat(*rhs, a);
            let s1 = atoms_of(*lhs);
            let s2 = atoms_of(*rhs);
            if clause_sat(s1, a) {
                let i = choose|i: int| 0 <= i < s1.len() && atom_sat(#[trigger] s1[i], a);
                assert((s1 + s2)[i] == s1[i]);
                assert(clause_sat(s1 + s2, a));
            }
            if clause_sat(s2, a) {
                let i = choose|i: int| 0 <= i < s2.len() && atom_sat(#[trigger] s2[i], a);
                assert((s1 + s2)[i + s1.len()] == s2[i]);
                assert(clause_sat(s1 + s2, a));
            }
            if clause_sat(s1 + s2, a) {
                let i = choose|i: int|
                    0 <= i < (s1 + s2).len() && atom_sat(#[trigger] (s1 + s2)[i], a);
                if i < s1.len() {
                    assert(s1[i] == (s1 + s2)[i]);
                    assert(clause_sat(s1, a));
                } else {
                    assert(s2[i - s1.len()] == (s1 + s2)[i]);
                    assert(clause_sat(s2, a));
                }
            }
        },
        PropositionCNF::Value(v) => {
            assert(atoms_of(c)[0] == Atom::Value(v));
            assert(atom_sat(atoms_of(c)[0], a) == v);
        },
        PropositionCNF::Variable(name) => {
            assert(atoms_of(c)[0] == Atom::Var(name));
            assert(atom_sat(atoms_of(c)[0], a) == a[name@]);
        },
        PropositionCNF::NotVariable(name) => {
            assert(atoms_of(c)[0] == Atom::NotVar(name));
            assert(atom_sat(atoms_of(c)[0], a) == !a[name@]);
        },
    }
}

/// The atoms of a clause tree reference exactly the variables of the tree.
pub proof fn lemma_atoms_of_vars(c: PropositionCNF, v: Seq<char>)
    ensures
        (exists|j: int|
            0 <= j < atoms_of(c).len() && atom_vars(#[trigger] atoms_of(c)[j]).contains(v))
            == cnf_clause_vars(c).contains(v),
    decreases c,
{
    let s = atoms_of(c);
    match c {
        PropositionCNF::Or(lhs, rhs) => {
            lemma_atoms_of_vars(*lhs, v);
            lemma_atoms_of_vars(*rhs, v);
            let s1 = atoms_of(*lhs);
            let s2 = atoms_of(*rhs);
            if exists|j: int| 0 <= j < s1.len() && atom_vars(#[trigger] s1[j]).contains(v) {
                let j = choose|j: int| 0 <= j < s1.len() && atom_vars(#[trigger] s1[j]).contains(v);
                assert(s[j] == s1[j]);
                assert(atom_vars(s[j]).contains(v));
            }
            if exists|j: int| 0 <= j < s2.len() && atom_vars(#[trigger] s2[j]).contains(v) {
                let j = choose|j: int| 0 <= j < s2.len() && atom_vars(#[trigger] s2[j]).contains(v);
                assert(s[j + s1.len()] == s2[j]);
                assert(atom_vars(s[j + s1.len()]).contains(v));
            }
            if exists|j: int| 0 <= j < s.len() && atom_vars(#[trigger] s[j]).contains(v) {
                let j = choose|j: int| 0 <= j < s.len() && atom_vars(#[trigger] s[j]).contains(v);
                if j < s1.len() {
                    assert(s1[j] == s[j]);
                } else {
                    assert(s2[j - s1.len()] == s[j]);
                }
            }
        },
        PropositionCNF::Value(w) => {
            assert(s[0] == Atom::Value(w));
        },
        PropositionCNF::Variable(name) => {
            assert(s[0] == Atom::Var(name));
        },
        PropositionCNF::NotVariable(name) => {
            assert(s[0] == Atom::NotVar(name));
        },
    }
}

impl PropositionCNF {

    /// Renders the clause tree in standard logical notation.
    pub fn render(&self) -> (r: String)
        ensures
            r@ == cnf_clause_text(*self),
        decreases *self,
    {
        match self {
            PropositionCNF::Variable(name) => name.clone(),
            PropositionCNF::Value(v) => {
                if *v {
                    String::from_str("T")
                } else {
                    String::from_str("F")
                }
            },
            PropositionCNF::NotVariable(name) => {
                let mut s = String::from_str("¬");
                s.append(name.as_str());
                s
            },
            PropositionCNF::Or(lhs, rhs) => {
                let mut s = String::from_str("(");
                let left = lhs.render();
                s.append(left.as_str());
                s.append(" ∨ ");
                let right = rhs.render();
                s.append(right.as_str());
                s.append(")");
                s
            },
        }
    }

    /// Builds a structurally identical copy of this clause tree.
    pub fn dup(&self) -> (r: Self)
        ensures
            r == *self,
        decreases *self,
    {
        match self {
            PropositionCNF::Or(lhs, rhs) => PropositionCNF::Or(
                Box::new((**lhs).dup()),
                Box::new((**rhs).dup()),
            ),
            PropositionCNF::Value(v) => PropositionCNF::Value(*v),
            PropositionCNF::Variable(name) => PropositionCNF::Variable(name.clone()),
            PropositionCNF::NotVariable(name) => PropositionCNF::NotVariable(name.clone()),
        }
    }

    /// Converts a PropositionNNF into a vector of PropositionCNF clauses.
    pub fn from_nnf(value: PropositionNNF) -> (r: Vec<Self>)
        ensures
            r@ == cnf_of(value),
        decreases value,
    {
        match value {
            PropositionNNF::And(lhs, rhs) => {
                let mut clauses = PropositionCNF::from_nnf(*lhs);
                let mut more = PropositionCNF::from_nnf(*rhs);
                clauses.append(&mut more);
                clauses
            },
            PropositionNNF::Or(lhs, rhs) => {
                let left_clauses = PropositionCNF::from_nnf(*lhs);
                let right_clauses = PropositionCNF::from_nnf(*rhs);
                let ghost ls = left_clauses@;
                let ghost rs = right_clauses@;
                let mut result: Vec<PropositionCNF> = Vec::new();
                let mut i: usize = 0;
                while i < left_clauses.len()
                    invariant
                        0 <= i <= ls.len(),
                        left_clauses@ == ls,
                        right_clauses@ == rs,
                        result@ == cnf_cross(ls.take(i as int), rs),
                    decreases ls.len() - i,
                {
                    let mut j: usize = 0;
                    while j < right_clauses.len()
                        invariant
                            0 <= i < ls.len(),
                            0 <= j <= rs.len(),
                            left_clauses@ == ls,
                            right_clauses@ == rs,
                            result@ == cnf_cross(ls.take(i as int), rs)
                                + cnf_or_all(ls[i as int], rs).take(j as int),
                        decreases rs.len() - j,
                    {
                        let next = PropositionCNF::Or(
                            Box::new(left_clauses[i].dup()),
                            Box::new(right_clauses[j].dup()),
                        );
                        proof {
                            assert(cnf_or_all(ls[i as int], rs)[j as int]
                                == PropositionCNF::Or(Box::new(ls[i as int]), Box::new(rs[j as int])));
                            assert(cnf_or_all(ls[i as int], rs).take(j as int + 1)
                                =~= cnf_or_all(ls[i as int], rs).take(j as int)
                                    + seq![cnf_or_all(ls[i as int], rs)[j as int]]);
                        }
                        result.push(next);
                        j = j + 1;
                    }
                    proof {
                        assert(cnf_or_all(ls[i as int], rs).take(rs.len() as int)
                            =~= cnf_or_all(ls[i as int], rs));
                        let t = ls.take(i as int + 1);
                        assert(t.drop_last() =~= ls.take(i as int));
                        assert(t.last() == ls[i as int]);
                        assert(cnf_cross(t, rs) == cnf_cross(ls.take(i as int), rs)
                            + cnf_or_all(ls[i as int], rs));
                    }
                    i = i + 1;
                }
                proof {
                    assert(ls.take(ls.len() as int) =~= ls);
                }
                result
            },
            PropositionNNF::Value(v) => {
                let mut r: Vec<PropositionCNF> = Vec::new();
                r.push(PropositionCNF::Value(v));
                proof {
                    assert(r@ =~= cnf_of(PropositionNNF::Value(v)));
                }
                r
            },
            PropositionNNF::Variable(name) => {
                let ghost n0 = name@;
                let mut r: Vec<PropositionCNF> = Vec::new();
                r.push(PropositionCNF::Variable(name));
                proof {
                    assert(r@ =~= cnf_of(value));
                }
                r
            },
            PropositionNNF::Not(name) => {
                let mut r: Vec<PropositionCNF> = Vec::new();
                r.push(PropositionCNF::NotVariable(name));
                proof {
                    assert(r@ =~= cnf_of(value));
                }
                r
            },
        }
    }

    /// Extracts the atoms from a CNF expression.
    pub fn get_atoms(self) -> (r: Vec<Atom>)
        ensures
            r@ == atoms_of(self),
        decreases self,
    {
        match self {
            PropositionCNF::Or(lhs, rhs) => {
                let mut left = lhs.get_atoms();
                let mut right = rhs.get_atoms();
                left.append(&mut right);
                left
            },
            PropositionCNF::Value(v) => {
                let mut r: Vec<Atom> = Vec::new();
                r.push(Atom::Value(v));
                proof {
                    assert(r@ =~= atoms_of(PropositionCNF::Value(v)));
                }
                r
            },
            PropositionCNF::Variable(name) => {
                let mut r: Vec<Atom> = Vec::new();
                r.push(Atom::Var(name));
                proof {
                    assert(r@ =~= seq![Atom::Var(r@[0]->Var_0)]);
                }
                r
            },
            PropositionCNF::NotVariable(name) => {
                let mut r: Vec<Atom> = Vec::new();
                r.push(Atom::NotVar(name));
                proof {
                    assert(r@ =~= seq![Atom::NotVar(r@[0]->NotVar_0)]);
                }
                r
            },
        }
    }
}

} // verus!

