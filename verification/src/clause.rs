//! Clauses: flattened disjunctions of atoms, and their simplified form.

use vstd::prelude::*;

use crate::proposition::PropositionCNF;
use crate::proposition::atoms_of;

verus! {

/// Represents an atomic proposition, which can be a variable or its negation.
#[derive(Debug, Clone)]
pub enum Atom {
    /// A positive variable.
    Var(String),

    /// A negative variable.
    NotVar(String),

    /// Represents a boolean value in the expression.
    Value(bool),
}

/// The truth value of one atom under an assignment.
pub open spec fn atom_sat(t: Atom, a: Map<Seq<char>, bool>) -> bool {
    match t {
        Atom::Var(name) => a[name@],
        Atom::NotVar(name) => !a[name@],
        Atom::Value(v) => v,
    }
}

/// The variables referenced by one atom.
pub open spec fn atom_vars(t: Atom) -> Set<Seq<char>> {
    match t {
        Atom::Var(name) => Set::empty().insert(name@),
        Atom::NotVar(name) => Set::empty().insert(name@),
        Atom::Value(_) => Set::empty(),
    }
}


impl Atom {
    /// Renders the atom in standard logical notation.
    pub fn render(&self) -> (r: String)
        ensures
            r@ == atom_text(*self),
    {
        match self {
            Atom::Var(name) => name.clone(),
            Atom::NotVar(name) => {
                let mut s = String::from_str("¬");
                s.append(name.as_str());
                s
            },
            Atom::Value(v) => {
                if *v {
                    String::from_str("T")
                } else {
                    String::from_str("F")
                }
            },
        }
    }
}


/// The rendering of one atom in standard logical notation.
pub open spec fn atom_text(t: Atom) -> Seq<char> {
    match t {
        Atom::Var(name) => name@,
        Atom::NotVar(name) => "¬"@ + name@,
        Atom::Value(v) => if v {
            "T"@
        } else {
            "F"@
        },
    }
}

/// The rendering of a clause: its atoms joined as a disjunction.
pub open spec fn clause_text(c: Seq<Atom>) -> Seq<char>
    decreases c.len(),
{
    if c.len() == 0 {
        Seq::empty()
    } else if c.len() == 1 {
        atom_text(c[0])
    } else {
        clause_text(c.drop_last()) + " ∨ "@ + atom_text(c.last())
    }
}

/// A clause is a disjunction of atoms.
#[derive(Debug)]
pub struct Clause(pub Vec<Atom>);

/// The truth value of a clause under an assignment: a disjunction holds when
/// at least one of its atoms holds.
pub open spec fn clause_sat(c: Seq<Atom>, a: Map<Seq<char>, bool>) -> bool {
    exists|i: int| 0 <= i < c.len() && atom_sat(#[trigger] c[i], a)
}

/// The truth value of a list of clauses read as a conjunction.
pub open spec fn clauses_sat(cs: Seq<Clause>, a: Map<Seq<char>, bool>) -> bool {
    forall|i: int| 0 <= i < cs.len() ==> clause_sat((#[trigger] cs[i]).0@, a)
}

/// The variables referenced anywhere in a list of clauses.
pub open spec fn clauses_vars(cs: Seq<Clause>) -> Set<Seq<char>> {
    Set::new(
        |v: Seq<char>|
            exists|i: int, j: int|
                0 <= i < cs.len() && 0 <= j < cs[i].0@.len() && atom_vars(
                    #[trigger] cs[i].0@[j],
                ).contains(v),
    )
}

impl Clause {
    /// Converts a CNF expression into a vector of clauses, one clause per
    /// clause tree, holding exactly the tree's atoms.
    pub fn from_cnf(cnf: Vec<PropositionCNF>) -> (r: Vec<Self>)
        ensures
            r@.len() == cnf@.len(),
            forall|i: int| 0 <= i < cnf@.len() ==> (#[trigger] r@[i]).0@ == atoms_of(cnf@[i]),
    {
        let ghost orig = cnf@;
        let mut rest = cnf;
        let mut r: Vec<Clause> = Vec::new();
        while rest.len() > 0
            invariant
                r@.len() + rest@.len() == orig.len(),
                rest@ =~= orig.skip(r@.len() as int),
                forall|i: int| 0 <= i < r@.len() ==> (#[trigger] r@[i]).0@ == atoms_of(orig[i]),
            decreases rest@.len(),
        {
            let prop = rest.remove(0);
            proof {
                assert(prop == orig[r@.len() as int]);
            }
            let atoms = prop.get_atoms();
            r.push(Clause(atoms));
        }
        r
    }

    /// Renders the clause as a disjunction of its atoms.
    pub fn render(&self) -> (r: String)
        ensures
            r@ == clause_text(self.0@),
    {
        let mut s = String::new();
        let mut i: usize = 0;
        while i < self.0.len()
            invariant
                0 <= i <= self.0@.len(),
                s@ == clause_text(self.0@.take(i as int)),
            decreases self.0@.len() - i,
        {
            if i > 0 {
                s.append(" ∨ ");
            }
            let atom = self.0[i].render();
            s.append(atom.as_str());
            proof {
                let t1 = self.0@.take(i as int + 1);
                assert(t1.drop_last() =~= self.0@.take(i as int));
                assert(t1.last() == self.0@[i as int]);
                if i == 0 {
                    assert(t1 =~= seq![self.0@[0]]);
                    assert(t1[0] == self.0@[0]);
                    assert(s@ =~= atom_text(self.0@[0]));
                }
            }
            i = i + 1;
        }
        proof {
            assert(self.0@.take(self.0@.len() as int) =~= self.0@);
        }
        s
    }
}

/// A literal: a variable name, positive or negated, as a pure mathematical
/// value. Contracts over simplified clauses are stated over sets of
/// literals, which makes them independent of the order and duplication of
/// the stored atoms.
pub enum Lit {
    /// The variable itself.
    Pos(Seq<char>),

    /// The negation of the variable.
    Neg(Seq<char>),
}

/// The literal denoted by a simplified atom.
pub open spec fn lit_of(t: SimplificatedAtom) -> Lit {
    match t {
        SimplificatedAtom::Var(name) => Lit::Pos(name@),
        SimplificatedAtom::NotVar(name) => Lit::Neg(name@),
    }
}

/// The truth value of a literal under an assignment.
pub open spec fn lit_sat(l: Lit, a: Map<Seq<char>, bool>) -> bool {
    match l {
        Lit::Pos(v) => a[v],
        Lit::Neg(v) => !a[v],
    }
}

/// The variable of a literal.
pub open spec fn lit_var(l: Lit) -> Seq<char> {
    match l {
        Lit::Pos(v) => v,
        Lit::Neg(v) => v,
    }
}

/// The opposite literal over the same variable.
pub open spec fn lit_neg(l: Lit) -> Lit {
    match l {
        Lit::Pos(v) => Lit::Neg(v),
        Lit::Neg(v) => Lit::Pos(v),
    }
}

/// The set of literals denoted by a sequence of simplified atoms.
pub open spec fn satoms_lits(s: Seq<SimplificatedAtom>) -> Set<Lit> {
    Set::new(|l: Lit| exists|i: int| 0 <= i < s.len() && lit_of(#[trigger] s[i]) == l)
}

/// The truth value of a simplified clause, given as its set of literals,
/// under an assignment.
pub open spec fn sclause_sat(c: Set<Lit>, a: Map<Seq<char>, bool>) -> bool {
    exists|l: Lit| c.contains(l) && lit_sat(l, a)
}

/// The truth value of a list of simplified clauses read as a conjunction.
pub open spec fn sclauses_sat(cs: Seq<SimplificatedClause>, a: Map<Seq<char>, bool>) -> bool {
    forall|i: int| 0 <= i < cs.len() ==> sclause_sat((#[trigger] cs[i])@, a)
}

/// The variables referenced anywhere in a list of simplified clauses.
pub open spec fn sclauses_vars(cs: Seq<SimplificatedClause>) -> Set<Seq<char>> {
    Set::new(
        |v: Seq<char>|
            exists|i: int| 0 <= i < cs.len() && lits_vars((#[trigger] cs[i])@).contains(v),
    )
}

/// Whether a clause, given as its set of literals, contains both a variable
/// and its negation, which makes it hold under every assignment.
pub open spec fn sclause_tautological(c: Set<Lit>) -> bool {
    exists|l: Lit| c.contains(l) && c.contains(lit_neg(l))
}

/// The variables referenced by a set of literals.
pub open spec fn lits_vars(c: Set<Lit>) -> Set<Seq<char>> {
    Set::new(|v: Seq<char>| exists|l: Lit| c.contains(l) && lit_var(l) == v)
}


/// The rendering of one simplified atom in standard logical notation.
pub open spec fn satom_text(t: SimplificatedAtom) -> Seq<char> {
    match t {
        SimplificatedAtom::Var(name) => name@,
        SimplificatedAtom::NotVar(name) => "¬"@ + name@,
    }
}

/// The rendering of a simplified clause: its atoms joined as a
/// disjunction.
pub open spec fn sclause_text(c: Seq<SimplificatedAtom>) -> Seq<char>
    decreases c.len(),
{
    if c.len() == 0 {
        Seq::empty()
    } else if c.len() == 1 {
        satom_text(c[0])
    } else {
        sclause_text(c.drop_last()) + " ∨ "@ + satom_text(c.last())
    }
}

/// Represents an simplificated atomic proposition, which can be a variable
/// or its negation.
#[derive(Debug, Clone)]
pub enum SimplificatedAtom {
    /// A positive variable.
    Var(String),

    /// A negative variable.
    NotVar(String),
}

impl SimplificatedAtom {
    /// Builds an identical copy of this atom.
    pub fn dup(&self) -> (r: Self)
        ensures
            r == *self,
    {
        match self {
            SimplificatedAtom::Var(name) => SimplificatedAtom::Var(name.clone()),
            SimplificatedAtom::NotVar(name) => SimplificatedAtom::NotVar(name.clone()),
        }
    }


    /// Renders the atom in standard logical notation.
    pub fn render(&self) -> (r: String)
        ensures
            r@ == satom_text(*self),
    {
        match self {
            SimplificatedAtom::Var(name) => name.clone(),
            SimplificatedAtom::NotVar(name) => {
                let mut s = String::from_str("¬");
                s.append(name.as_str());
                s
            },
        }
    }

    /// The atom over the same variable with the opposite polarity.
    pub fn negate(&self) -> (r: Self)
        ensures
            lit_of(r) == lit_neg(lit_of(*self)),
    {
        match self {
            SimplificatedAtom::Var(name) => SimplificatedAtom::NotVar(name.clone()),
            SimplificatedAtom::NotVar(name) => SimplificatedAtom::Var(name.clone()),
        }
    }

    /// Whether two atoms denote the same literal.
    pub fn eq_atom(&self, other: &Self) -> (r: bool)
        ensures
            r == (lit_of(*self) == lit_of(*other)),
    {
        match self {
            SimplificatedAtom::Var(a) => match other {
                SimplificatedAtom::Var(b) => *a == *b,
                SimplificatedAtom::NotVar(_) => false,
            },
            SimplificatedAtom::NotVar(a) => match other {
                SimplificatedAtom::Var(_) => false,
                SimplificatedAtom::NotVar(b) => *a == *b,
            },
        }
    }
}

/// An simplificated clause is a disjunction of simplificated atoms.
#[derive(Debug, Clone)]
pub struct SimplificatedClause(pub Vec<SimplificatedAtom>);

impl View for SimplificatedClause {
    type V = Set<Lit>;

    open spec fn view(&self) -> Set<Lit> {
        satoms_lits(self.0@)
    }
}

impl SimplificatedClause {
    /// A well-formed simplified clause holds at least one atom and stores
    /// each literal once.
    pub open spec fn wf(&self) -> bool {
        &&& self.0@.len() >= 1
        &&& forall|i: int, j: int|
            0 <= i < j < self.0@.len() ==> lit_of(#[trigger] self.0@[i]) != lit_of(
                #[trigger] self.0@[j],
            )
    }


    /// Renders the clause as a disjunction of its atoms.
    pub fn render(&self) -> (r: String)
        ensures
            r@ == sclause_text(self.0@),
    {
        let mut s = String::new();
        let mut i: usize = 0;
        while i < self.0.len()
            invariant
                0 <= i <= self.0@.len(),
                s@ == sclause_text(self.0@.take(i as int)),
            decreases self.0@.len() - i,
        {
            if i > 0 {
                s.append(" ∨ ");
            }
            let atom = self.0[i].render();
            s.append(atom.as_str());
            proof {
                let t1 = self.0@.take(i as int + 1);
                assert(t1.drop_last() =~= self.0@.take(i as int));
                assert(t1.last() == self.0@[i as int]);
                if i == 0 {
                    assert(t1 =~= seq![self.0@[0]]);
                    assert(t1[0] == self.0@[0]);
                    assert(s@ =~= satom_text(self.0@[0]));
                }
            }
            i = i + 1;
        }
        proof {
            assert(self.0@.take(self.0@.len() as int) =~= self.0@);
        }
        s
    }

    /// Whether this clause contains the literal of the given atom.
    pub fn contains_atom(&self, t: &SimplificatedAtom) -> (r: bool)
        ensures
            r == self@.contains(lit_of(*t)),
    {
        atoms_contain(&self.0, t)
    }

    /// Whether every literal of this clause is a literal of the other.
    pub fn subset_of_clause(&self, other: &Self) -> (r: bool)
        ensures
            r == self@.subset_of(other@),
    {
        let mut i: usize = 0;
        while i < self.0.len()
            invariant
                0 <= i <= self.0@.len(),
                forall|q: int| 0 <= q < i ==> other@.contains(lit_of(#[trigger] self.0@[q])),
            decreases self.0@.len() - i,
        {
            if !other.contains_atom(&self.0[i]) {
                proof {
                    assert(self@.contains(lit_of(self.0@[i as int])));
                }
                return false;
            }
            i = i + 1;
        }
        proof {
            assert forall|l: Lit| self@.contains(l) implies other@.contains(l) by {
                let q = choose|q: int|
                    0 <= q < self.0@.len() && lit_of(#[trigger] self.0@[q]) == l;
                assert(other@.contains(lit_of(self.0@[q])));
            }
        }
        true
    }

    /// Whether two clauses hold exactly the same set of literals, whatever
    /// the order and duplication of their stored atoms.
    pub fn same_lits(&self, other: &Self) -> (r: bool)
        ensures
            r == (self@ == other@),
    {
        let r = self.subset_of_clause(other) && other.subset_of_clause(self);
        proof {
            if r {
                assert(self@ =~= other@);
            }
        }
        r
    }

}

/// Whether some atom of the clause is the constant true.
pub open spec fn clause_has_true(c: Seq<Atom>) -> bool {
    exists|i: int| 0 <= i < c.len() && #[trigger] c[i] == Atom::Value(true)
}

/// Whether an atom denotes the given literal. Constant atoms denote no
/// literal.
pub open spec fn atom_is_lit(t: Atom, l: Lit) -> bool {
    match t {
        Atom::Var(name) => l == Lit::Pos(name@),
        Atom::NotVar(name) => l == Lit::Neg(name@),
        Atom::Value(_) => false,
    }
}

/// The set of literals denoted by the variable atoms of a clause.
pub open spec fn clause_lits(c: Seq<Atom>) -> Set<Lit> {
    Set::new(|l: Lit| exists|i: int| 0 <= i < c.len() && atom_is_lit(#[trigger] c[i], l))
}

/// A clause containing the constant true holds under every assignment.
pub proof fn lemma_clause_with_true_sat(c: Seq<Atom>, a: Map<Seq<char>, bool>)
    requires
        clause_has_true(c),
    ensures
        clause_sat(c, a),
{
    let i = choose|i: int| 0 <= i < c.len() && #[trigger] c[i] == Atom::Value(true);
    assert(atom_sat(c[i], a));
}

/// When a clause holds no constant true, dropping its constant-false atoms
/// does not change its truth value: the clause holds exactly when its
/// literal set holds.
pub proof fn lemma_clause_lits_sat(c: Seq<Atom>, a: Map<Seq<char>, bool>)
    requires
        !clause_has_true(c),
    ensures
        clause_sat(c, a) == sclause_sat(clause_lits(c), a),
{
    if clause_sat(c, a) {
        let i = choose|i: int| 0 <= i < c.len() && atom_sat(#[trigger] c[i], a);
        match c[i] {
            Atom::Var(name) => {
                assert(atom_is_lit(c[i], Lit::Pos(name@)));
                assert(clause_lits(c).contains(Lit::Pos(name@)));
                assert(lit_sat(Lit::Pos(name@), a));
            },
            Atom::NotVar(name) => {
                assert(atom_is_lit(c[i], Lit::Neg(name@)));
                assert(clause_lits(c).contains(Lit::Neg(name@)));
                assert(lit_sat(Lit::Neg(name@), a));
            },
            Atom::Value(v) => {
                assert(c[i] == Atom::Value(true));
            },
        }
    }
    if sclause_sat(clause_lits(c), a) {
        let l = choose|l: Lit| clause_lits(c).contains(l) && lit_sat(l, a);
        let i = choose|i: int| 0 <= i < c.len() && atom_is_lit(#[trigger] c[i], l);
        assert(atom_sat(c[i], a));
    }
}

/// A clause containing both a variable and its negation holds under every
/// assignment.
pub proof fn lemma_tautological_sat(c: Set<Lit>, a: Map<Seq<char>, bool>)
    requires
        sclause_tautological(c),
    ensures
        sclause_sat(c, a),
{
    let l = choose|l: Lit| c.contains(l) && c.contains(lit_neg(l));
    if lit_sat(l, a) {
        assert(c.contains(l) && lit_sat(l, a));
    } else {
        assert(lit_sat(lit_neg(l), a));
        assert(c.contains(lit_neg(l)) && lit_sat(lit_neg(l), a));
    }
}

/// A conjunction over one more clause of a prefix holds exactly when the
/// shorter prefix and the added clause both hold.
proof fn lemma_clauses_sat_take_step(cs: Seq<Clause>, k: int, a: Map<Seq<char>, bool>)
    requires
        0 <= k < cs.len(),
    ensures
        clauses_sat(cs.take(k + 1), a) == (clauses_sat(cs.take(k), a) && clause_sat(cs[k].0@, a)),
{
    let p1 = cs.take(k + 1);
    let p0 = cs.take(k);
    if clauses_sat(p0, a) && clause_sat(cs[k].0@, a) {
        assert forall|i: int| 0 <= i < p1.len() implies clause_sat((#[trigger] p1[i]).0@, a) by {
            if i < k {
                assert(p1[i] == p0[i]);
            } else {
                assert(p1[i] == cs[k]);
            }
        }
    }
    if clauses_sat(p1, a) {
        assert forall|i: int| 0 <= i < p0.len() implies clause_sat((#[trigger] p0[i]).0@, a) by {
            assert(p0[i] == p1[i]);
        }
        assert(p1[k] == cs[k]);
        assert(clause_sat(p1[k].0@, a));
    }
}

/// A conjunction over a clause list with one clause appended holds exactly
/// when the list and the appended clause both hold.
pub proof fn lemma_sclauses_sat_push(
    cs: Seq<SimplificatedClause>,
    c: SimplificatedClause,
    a: Map<Seq<char>, bool>,
)
    ensures
        sclauses_sat(cs.push(c), a) == (sclauses_sat(cs, a) && sclause_sat(c@, a)),
{
    let p = cs.push(c);
    if sclauses_sat(cs, a) && sclause_sat(c@, a) {
        assert forall|i: int| 0 <= i < p.len() implies sclause_sat((#[trigger] p[i])@, a) by {
            if i < cs.len() {
                assert(p[i] == cs[i]);
            } else {
                assert(p[i] == c);
            }
        }
    }
    if sclauses_sat(p, a) {
        assert forall|i: int| 0 <= i < cs.len() implies sclause_sat((#[trigger] cs[i])@, a) by {
            assert(cs[i] == p[i]);
        }
        assert(p[cs.len() as int] == c);
        assert(sclause_sat(c@, a));
    }
}

/// Every literal of one clause of a clause list references a variable of
/// the list.
pub proof fn lemma_clause_lits_vars(cs: Seq<Clause>, k: int)
    requires
        0 <= k < cs.len(),
    ensures
        lits_vars(clause_lits(cs[k].0@)).subset_of(clauses_vars(cs)),
{
    let ls = clause_lits(cs[k].0@);
    assert forall|v: Seq<char>| lits_vars(ls).contains(v) implies clauses_vars(cs).contains(
        v,
    ) by {
        let l = choose|l: Lit| ls.contains(l) && lit_var(l) == v;
        let i = choose|i: int| 0 <= i < cs[k].0@.len() && atom_is_lit(#[trigger] cs[k].0@[i], l);
        assert(atom_vars(cs[k].0@[i]).contains(v));
    }
}

/// Whether the atoms of the vector include the literal of the given atom.
fn atoms_contain(atoms: &Vec<SimplificatedAtom>, t: &SimplificatedAtom) -> (r: bool)
    ensures
        r == satoms_lits(atoms@).contains(lit_of(*t)),
{
    let mut i: usize = 0;
    let mut found = false;
    while i < atoms.len()
        invariant
            0 <= i <= atoms@.len(),
            found == exists|k: int| 0 <= k < i && lit_of(#[trigger] atoms@[k]) == lit_of(*t),
        decreases atoms@.len() - i,
    {
        if atoms[i].eq_atom(t) {
            found = true;
        }
        i = i + 1;
    }
    proof {
        if found {
            let k = choose|k: int|
                0 <= k < atoms@.len() && lit_of(#[trigger] atoms@[k]) == lit_of(*t);
            assert(satoms_lits(atoms@).contains(lit_of(*t)));
        }
    }
    found
}

/// Whether the atoms of the vector include both a variable and its
/// negation.
fn has_complementary(atoms: &Vec<SimplificatedAtom>) -> (r: bool)
    ensures
        r == sclause_tautological(satoms_lits(atoms@)),
{
    let mut i: usize = 0;
    let mut found = false;
    while i < atoms.len()
        invariant
            0 <= i <= atoms@.len(),
            found == exists|k: int|
                0 <= k < i && satoms_lits(atoms@).contains(
                    lit_neg(lit_of(#[trigger] atoms@[k])),
                ),
        decreases atoms@.len() - i,
    {
        let neg = atoms[i].negate();
        if atoms_contain(atoms, &neg) {
            found = true;
        }
        i = i + 1;
    }
    proof {
        if found {
            let k = choose|k: int|
                0 <= k < atoms@.len() && satoms_lits(atoms@).contains(
                    lit_neg(lit_of(#[trigger] atoms@[k])),
                );
            assert(satoms_lits(atoms@).contains(lit_of(atoms@[k])));
        } else {
            if sclause_tautological(satoms_lits(atoms@)) {
                let l = choose|l: Lit|
                    satoms_lits(atoms@).contains(l) && satoms_lits(atoms@).contains(lit_neg(l));
                let k = choose|k: int|
                    0 <= k < atoms@.len() && lit_of(#[trigger] atoms@[k]) == l;
                assert(satoms_lits(atoms@).contains(lit_neg(lit_of(atoms@[k]))));
            }
        }
    }
    found
}

/// Whether the list already holds a clause with exactly the given clause's
/// literals.
fn contains_same_clause(list: &Vec<SimplificatedClause>, c: &SimplificatedClause) -> (r: bool)
    ensures
        r == exists|i: int| 0 <= i < list@.len() && (#[trigger] list@[i])@ == c@,
{
    let mut i: usize = 0;
    let mut found = false;
    while i < list.len()
        invariant
            0 <= i <= list@.len(),
            found == exists|k: int| 0 <= k < i && (#[trigger] list@[k])@ == c@,
        decreases list@.len() - i,
    {
        if list[i].same_lits(c) {
            found = true;
        }
        i = i + 1;
    }
    found
}

/// Scanning one more atom of a clause finds a constant true exactly when
/// the prefix had one or the new atom is one.
proof fn lemma_clause_has_true_step(c: Seq<Atom>, j: int)
    requires
        0 <= j < c.len(),
    ensures
        clause_has_true(c.take(j + 1)) == (clause_has_true(c.take(j)) || c[j]
            == Atom::Value(true)),
{
    let p1 = c.take(j + 1);
    let p0 = c.take(j);
    if clause_has_true(p0) {
        let k = choose|k: int| 0 <= k < p0.len() && #[trigger] p0[k] == Atom::Value(true);
        assert(p1[k] == p0[k]);
        assert(clause_has_true(p1));
    }
    if c[j] == Atom::Value(true) {
        assert(p1[j] == c[j]);
        assert(clause_has_true(p1));
    }
    if clause_has_true(p1) {
        let k = choose|k: int| 0 <= k < p1.len() && #[trigger] p1[k] == Atom::Value(true);
        if k < j {
            assert(p0[k] == p1[k]);
            assert(clause_has_true(p0));
        } else {
            assert(c[j] == p1[k]);
        }
    }
}

/// Scanning one more atom of a clause extends its literal set by whatever
/// literal that atom denotes.
proof fn lemma_clause_lits_step(c: Seq<Atom>, j: int)
    requires
        0 <= j < c.len(),
    ensures
        forall|l: Lit|
            clause_lits(c.take(j + 1)).contains(l) == (clause_lits(c.take(j)).contains(l)
                || atom_is_lit(c[j], l)),
{
    let p1 = c.take(j + 1);
    let p0 = c.take(j);
    assert forall|l: Lit|
        clause_lits(p1).contains(l) == (clause_lits(p0).contains(l) || atom_is_lit(
            c[j],
            l,
        )) by {
        if clause_lits(p0).contains(l) {
            let k = choose|k: int| 0 <= k < p0.len() && atom_is_lit(#[trigger] p0[k], l);
            assert(p1[k] == p0[k]);
            assert(atom_is_lit(p1[k], l));
            assert(clause_lits(p1).contains(l));
        }
        if atom_is_lit(c[j], l) {
            assert(p1[j] == c[j]);
            assert(atom_is_lit(p1[j], l));
            assert(clause_lits(p1).contains(l));
        }
        if clause_lits(p1).contains(l) {
            let k = choose|k: int| 0 <= k < p1.len() && atom_is_lit(#[trigger] p1[k], l);
            if k < j {
                assert(p0[k] == p1[k]);
                assert(clause_lits(p0).contains(l));
            } else {
                assert(c[j] == p1[k]);
            }
        }
    }
}

/// Appending an atom to a vector extends its literal set by exactly that
/// atom's literal.
pub proof fn lemma_satoms_lits_push(s: Seq<SimplificatedAtom>, t: SimplificatedAtom)
    ensures
        forall|l: Lit|
            satoms_lits(s.push(t)).contains(l) == (satoms_lits(s).contains(l) || lit_of(t) == l),
{
    let p = s.push(t);
    assert forall|l: Lit|
        satoms_lits(p).contains(l) == (satoms_lits(s).contains(l) || lit_of(t) == l) by {
        if satoms_lits(s).contains(l) {
            let k = choose|k: int| 0 <= k < s.len() && lit_of(#[trigger] s[k]) == l;
            assert(p[k] == s[k]);
            assert(lit_of(p[k]) == l);
            assert(satoms_lits(p).contains(l));
        }
        if lit_of(t) == l {
            assert(p[s.len() as int] == t);
            assert(satoms_lits(p).contains(l));
        }
        if satoms_lits(p).contains(l) {
            let k = choose|k: int| 0 <= k < p.len() && lit_of(#[trigger] p[k]) == l;
            if k < s.len() {
                assert(s[k] == p[k]);
                assert(satoms_lits(s).contains(l));
            } else {
                assert(p[k] == t);
            }
        }
    }
}

/// Optimizes a list of clauses by applying simplification rules.
///
/// Rule 1: a clause containing the constant true is always satisfied and
/// the whole clause is dropped. Rule 2: constant-false atoms are dropped
/// from their clause. Rule 3: a clause containing both a variable and its
/// negation is always satisfied and is dropped. The produced clauses are
/// deduplicated by literal-set equality.
///
/// A clause left empty by rule 2 can never be satisfied, which makes the
/// whole clause list a contradiction: that case is reported as `None`
/// rather than the clause being silently dropped.
pub fn simplificated_clauses_from_clauses(clauses: Vec<Clause>) -> (r: Option<
    Vec<SimplificatedClause>,
>)
    ensures
        match r {
            Some(scs) => {
                &&& forall|a: Map<Seq<char>, bool>|
                    #[trigger] sclauses_sat(scs@, a) == clauses_sat(clauses@, a)
                &&& forall|i: int| 0 <= i < scs@.len() ==> (#[trigger] scs@[i]).wf()
                &&& forall|i: int|
                    0 <= i < scs@.len() ==> !sclause_tautological((#[trigger] scs@[i])@)
                &&& forall|i: int|
                    0 <= i < scs@.len() ==> lits_vars((#[trigger] scs@[i])@).subset_of(
                        clauses_vars(clauses@),
                    )
                &&& forall|i: int, j: int|
                    0 <= i < j < scs@.len() ==> (#[trigger] scs@[i])@ != (#[trigger] scs@[j])@
            },
            None => forall|a: Map<Seq<char>, bool>| !(#[trigger] clauses_sat(clauses@, a)),
        },
{
    let mut out: Vec<SimplificatedClause> = Vec::new();
    let mut k: usize = 0;
    while k < clauses.len()
        invariant
            0 <= k <= clauses@.len(),
            forall|a: Map<Seq<char>, bool>|
                #[trigger] sclauses_sat(out@, a) == clauses_sat(clauses@.take(k as int), a),
            forall|i: int| 0 <= i < out@.len() ==> (#[trigger] out@[i]).wf(),
            forall|i: int| 0 <= i < out@.len() ==> !sclause_tautological((#[trigger] out@[i])@),
            forall|i: int|
                0 <= i < out@.len() ==> lits_vars((#[trigger] out@[i])@).subset_of(
                    clauses_vars(clauses@),
                ),
            forall|i: int, j: int|
                0 <= i < j < out@.len() ==> (#[trigger] out@[i])@ != (#[trigger] out@[j])@,
        decreases clauses@.len() - k,
    {
        let ghost ck = clauses@[k as int].0@;
        let clause = &clauses[k];
        let n = clause.0.len();
        let mut atoms: Vec<SimplificatedAtom> = Vec::new();
        let mut has_true = false;
        let mut j: usize = 0;
        while j < n
            invariant
                0 <= j <= ck.len(),
                n == ck.len(),
                clause.0@ == ck,
                has_true == clause_has_true(ck.take(j as int)),
                satoms_lits(atoms@) == clause_lits(ck.take(j as int)),
                forall|i1: int, i2: int|
                    0 <= i1 < i2 < atoms@.len() ==> lit_of(#[trigger] atoms@[i1]) != lit_of(
                        #[trigger] atoms@[i2],
                    ),
            decreases n - j,
        {
            proof {
                lemma_clause_has_true_step(ck, j as int);
                lemma_clause_lits_step(ck, j as int);
            }
            match &clause.0[j] {
                Atom::Value(v) => {
                    if *v {
                        has_true = true;
                    }
                    proof {
                        assert(satoms_lits(atoms@) =~= clause_lits(ck.take(j as int + 1)));
                    }
                },
                Atom::Var(name) => {
                    let t = SimplificatedAtom::Var(name.clone());
                    proof {
                        assert(lit_of(t) == Lit::Pos(name@));
                        assert(atom_is_lit(ck[j as int], lit_of(t)));
                    }
                    if !atoms_contain(&atoms, &t) {
                        let ghost old_atoms = atoms@;
                        proof {
                            lemma_satoms_lits_push(atoms@, t);
                        }
                        atoms.push(t);
                        proof {
                            assert(atoms@ == old_atoms.push(t));
                            assert forall|l: Lit|
                                satoms_lits(atoms@).contains(l) == clause_lits(
                                    ck.take(j as int + 1),
                                ).contains(l) by {
                                assert(satoms_lits(old_atoms.push(t)).contains(l) == (
                                satoms_lits(old_atoms).contains(l) || lit_of(t) == l));
                                assert(clause_lits(ck.take(j as int + 1)).contains(l) == (
                                clause_lits(ck.take(j as int)).contains(l) || atom_is_lit(
                                    ck[j as int],
                                    l,
                                )));
                                if atom_is_lit(ck[j as int], l) {
                                    assert(l == lit_of(t));
                                }
                            }
                            assert(satoms_lits(atoms@) =~= clause_lits(ck.take(j as int + 1)));
                        }
                    } else {
                        proof {
                            assert forall|l: Lit|
                                satoms_lits(atoms@).contains(l) == clause_lits(
                                    ck.take(j as int + 1),
                                ).contains(l) by {
                                assert(clause_lits(ck.take(j as int + 1)).contains(l) == (
                                clause_lits(ck.take(j as int)).contains(l) || atom_is_lit(
                                    ck[j as int],
                                    l,
                                )));
                                if atom_is_lit(ck[j as int], l) {
                                    assert(l == lit_of(t));
                                }
                            }
                            assert(satoms_lits(atoms@) =~= clause_lits(ck.take(j as int + 1)));
                        }
                    }
                },
                Atom::NotVar(name) => {
                    let t = SimplificatedAtom::NotVar(name.clone());
                    proof {
                        assert(lit_of(t) == Lit::Neg(name@));
                        assert(atom_is_lit(ck[j as int], lit_of(t)));
                    }
                    if !atoms_contain(&atoms, &t) {
                        let ghost old_atoms = atoms@;
                        proof {
                            lemma_satoms_lits_push(atoms@, t);
                        }
                        atoms.push(t);
                        proof {
                            assert(atoms@ == old_atoms.push(t));
                            assert forall|l: Lit|
                                satoms_lits(atoms@).contains(l) == clause_lits(
                                    ck.take(j as int + 1),
                                ).contains(l) by {
                                assert(satoms_lits(old_atoms.push(t)).contains(l) == (
                                satoms_lits(old_atoms).contains(l) || lit_of(t) == l));
                                assert(clause_lits(ck.take(j as int + 1)).contains(l) == (
                                clause_lits(ck.take(j as int)).contains(l) || atom_is_lit(
                                    ck[j as int],
                                    l,
                                )));
                                if atom_is_lit(ck[j as int], l) {
                                    assert(l == lit_of(t));
                                }
                            }
                            assert(satoms_lits(atoms@) =~= clause_lits(ck.take(j as int + 1)));
                        }
                    } else {
                        proof {
                            assert forall|l: Lit|
                                satoms_lits(atoms@).contains(l) == clause_lits(
                                    ck.take(j as int + 1),
                                ).contains(l) by {
                                assert(clause_lits(ck.take(j as int + 1)).contains(l) == (
                                clause_lits(ck.take(j as int)).contains(l) || atom_is_lit(
                                    ck[j as int],
                                    l,
                                )));
                                if atom_is_lit(ck[j as int], l) {
                                    assert(l == lit_of(t));
                                }
                            }
                            assert(satoms_lits(atoms@) =~= clause_lits(ck.take(j as int + 1)));
                        }
                    }
                },
            }
            j = j + 1;
        }
        proof {
            assert(ck.take(n as int) =~= ck);
        }
        if has_true {
            proof {
                assert forall|a: Map<Seq<char>, bool>|
                    #[trigger] sclauses_sat(out@, a) == clauses_sat(
                        clauses@.take(k as int + 1),
                        a,
                    ) by {
                    lemma_clauses_sat_take_step(clauses@, k as int, a);
                    lemma_clause_with_true_sat(ck, a);
                }
            }
        } else if atoms.len() == 0 {
            proof {
                assert forall|a: Map<Seq<char>, bool>| !(#[trigger] clauses_sat(
                    clauses@,
                    a,
                )) by {
                    lemma_clause_lits_sat(ck, a);
                    assert(clause_lits(ck) =~= satoms_lits(atoms@));
                    assert(!sclause_sat(clause_lits(ck), a));
                    if clauses_sat(clauses@, a) {
                        assert(clause_sat(clauses@[k as int].0@, a));
                    }
                }
            }
            return None;
        } else {
            let taut = has_complementary(&atoms);
            if taut {
                proof {
                    assert forall|a: Map<Seq<char>, bool>|
                        #[trigger] sclauses_sat(out@, a) == clauses_sat(
                            clauses@.take(k as int + 1),
                            a,
                        ) by {
                        lemma_clauses_sat_take_step(clauses@, k as int, a);
                        lemma_tautological_sat(satoms_lits(atoms@), a);
                        lemma_clause_lits_sat(ck, a);
                    }
                }
            } else {
                let newc = SimplificatedClause(atoms);
                if contains_same_clause(&out, &newc) {
                    proof {
                        let w = choose|i: int|
                            0 <= i < out@.len() && (#[trigger] out@[i])@ == newc@;
                        assert forall|a: Map<Seq<char>, bool>|
                            #[trigger] sclauses_sat(out@, a) == clauses_sat(
                                clauses@.take(k as int + 1),
                                a,
                            ) by {
                            lemma_clauses_sat_take_step(clauses@, k as int, a);
                            lemma_clause_lits_sat(ck, a);
                            if sclauses_sat(out@, a) {
                                assert(sclause_sat(out@[w]@, a));
                                assert(sclause_sat(newc@, a));
                            }
                        }
                    }
                } else {
                    let ghost old_out = out@;
                    proof {
                        lemma_clause_lits_vars(clauses@, k as int);
                    }
                    out.push(newc);
                    proof {
                        assert(out@ =~= old_out.push(newc));
                        assert(newc.wf());
                        assert(newc@ == clause_lits(ck));
                        assert forall|a: Map<Seq<char>, bool>|
                            #[trigger] sclauses_sat(out@, a) == clauses_sat(
                                clauses@.take(k as int + 1),
                                a,
                            ) by {
                            lemma_clauses_sat_take_step(clauses@, k as int, a);
                            lemma_clause_lits_sat(ck, a);
                            lemma_sclauses_sat_push(old_out, newc, a);
                        }
                        assert forall|i: int, j2: int|
                            0 <= i < j2 < out@.len() implies (#[trigger] out@[i])@ != (
                        #[trigger] out@[j2])@ by {
                            if j2 == out@.len() - 1 {
                                assert(out@[i] == old_out[i]);
                                assert(out@[j2] == newc);
                            } else {
                                assert(out@[i] == old_out[i]);
                                assert(out@[j2] == old_out[j2]);
                            }
                        }
                        assert forall|i: int| 0 <= i < out@.len() implies (
                        #[trigger] out@[i]).wf() by {
                            if i < out@.len() - 1 {
                                assert(out@[i] == old_out[i]);
                            }
                        }
                        assert forall|i: int| 0 <= i < out@.len() implies !sclause_tautological(
                            (#[trigger] out@[i])@,
                        ) by {
                            if i < out@.len() - 1 {
                                assert(out@[i] == old_out[i]);
                            }
                        }
                        assert forall|i: int| 0 <= i < out@.len() implies lits_vars(
                            (#[trigger] out@[i])@,
                        ).subset_of(clauses_vars(clauses@)) by {
                            if i < out@.len() - 1 {
                                assert(out@[i] == old_out[i]);
                            }
                        }
                    }
                }
            }
        }
        k = k + 1;
    }
    proof {
        assert(clauses@.take(clauses@.len() as int) =~= clauses@);
    }
    Some(out)
}

/// A conjunction over a concatenation of clause lists holds exactly when
/// both lists hold.
pub proof fn lemma_clauses_sat_concat(s1: Seq<Clause>, s2: Seq<Clause>, a: Map<Seq<char>, bool>)
    ensures
        clauses_sat(s1 + s2, a) == (clauses_sat(s1, a) && clauses_sat(s2, a)),
{
    if clauses_sat(s1, a) && clauses_sat(s2, a) {
        assert forall|i: int| 0 <= i < (s1 + s2).len() implies clause_sat(
            (#[trigger] (s1 + s2)[i]).0@,
            a,
        ) by {
            if i < s1.len() {
                assert((s1 + s2)[i] == s1[i]);
            } else {
                assert((s1 + s2)[i] == s2[i - s1.len()]);
            }
        }
    }
    if clauses_sat(s1 + s2, a) {
        assert forall|i: int| 0 <= i < s1.len() implies clause_sat((#[trigger] s1[i]).0@, a) by {
            assert(s1[i] == (s1 + s2)[i]);
        }
        assert forall|i: int| 0 <= i < s2.len() implies clause_sat((#[trigger] s2[i]).0@, a) by {
            assert(s2[i] == (s1 + s2)[i + s1.len()]);
        }
    }
}

/// A variable of a concatenation of clause lists is a variable of one of
/// the two lists, and conversely.
pub proof fn lemma_clauses_vars_concat(s1: Seq<Clause>, s2: Seq<Clause>)
    ensures
        forall|v: Seq<char>|
            clauses_vars(s1 + s2).contains(v) == (clauses_vars(s1).contains(v)
                || clauses_vars(s2).contains(v)),
{
    assert forall|v: Seq<char>|
        clauses_vars(s1 + s2).contains(v) == (clauses_vars(s1).contains(v) || clauses_vars(
            s2,
        ).contains(v)) by {
        if clauses_vars(s1).contains(v) {
            let (i, j) = choose|i: int, j: int|
                0 <= i < s1.len() && 0 <= j < s1[i].0@.len() && atom_vars(
                    #[trigger] s1[i].0@[j],
                ).contains(v);
            assert((s1 + s2)[i] == s1[i]);
            assert(atom_vars((s1 + s2)[i].0@[j]).contains(v));
            assert(clauses_vars(s1 + s2).contains(v));
        }
        if clauses_vars(s2).contains(v) {
            let (i, j) = choose|i: int, j: int|
                0 <= i < s2.len() && 0 <= j < s2[i].0@.len() && atom_vars(
                    #[trigger] s2[i].0@[j],
                ).contains(v);
            assert((s1 + s2)[i + s1.len()] == s2[i]);
            assert(atom_vars((s1 + s2)[i + s1.len()].0@[j]).contains(v));
            assert(clauses_vars(s1 + s2).contains(v));
        }
        if clauses_vars(s1 + s2).contains(v) {
            let (i, j) = choose|i: int, j: int|
                0 <= i < (s1 + s2).len() && 0 <= j < (s1 + s2)[i].0@.len() && atom_vars(
                    #[trigger] (s1 + s2)[i].0@[j],
                ).contains(v);
            if i < s1.len() {
                assert(s1[i] == (s1 + s2)[i]);
                assert(atom_vars(s1[i].0@[j]).contains(v));
                assert(clauses_vars(s1).contains(v));
            } else {
                assert(s2[i - s1.len()] == (s1 + s2)[i]);
                assert(atom_vars(s2[i - s1.len()].0@[j]).contains(v));
                assert(clauses_vars(s2).contains(v));
            }
        }
    }
}

} // verus!
