//! Solver module for evaluating logical propositions.

use vstd::prelude::*;

use crate::clause::Clause;
use crate::clause::Lit;
use crate::clause::SimplificatedAtom;
use crate::clause::SimplificatedClause;
use crate::clause::lit_neg;
use crate::clause::lit_of;
use crate::clause::lit_sat;
use crate::clause::lit_var;
use crate::clause::lemma_satoms_lits_push;
use crate::clause::lemma_sclauses_sat_push;
use crate::clause::lits_vars;
use crate::clause::satoms_lits;
use crate::clause::sclause_sat;
use crate::clause::sclauses_sat;
use crate::clause::sclauses_vars;
use crate::clause::clauses_sat;
use crate::clause::clauses_vars;
use crate::clause::atom_vars;
use crate::clause::clause_sat;
use crate::proposition::Proposition;
use crate::proposition::PropositionCNF;
use crate::proposition::PropositionNNF;
use crate::proposition::atoms_of;
use crate::proposition::cnf_clause_sat;
use crate::proposition::cnf_of;
use crate::proposition::cnf_seq_sat;
use crate::proposition::cnf_seq_vars_within;
use crate::proposition::lemma_atoms_of_sat;
use crate::proposition::lemma_atoms_of_vars;
use crate::proposition::lemma_cnf_of_sat;
use crate::proposition::lemma_cnf_of_vars;
use crate::proposition::lemma_nnf_of_preserves_sat;
use crate::proposition::lemma_nnf_of_vars;
use crate::proposition::names_of;
use crate::proposition::nnf_of;
use crate::proposition::prop_sat;
use crate::proposition::prop_vars;
use crate::clause::lemma_clauses_sat_concat;
use crate::clause::simplificated_clauses_from_clauses;
use crate::clause::lemma_clauses_vars_concat;

verus! {

/// Represents errors that can occur during the solving process.
#[derive(Debug, PartialEq, Eq, Structural)]
pub enum SolveError {
    /// The set of propositions is unsatisfiable.
    Unsatisfiable,
    /// No variables were found in the propositions.
    NoVariable,
}

/// Represents a possible assignment of boolean values to variables, stored
/// as name and value pairs with pairwise distinct names.
#[derive(Debug)]
pub struct Posibility(pub Vec<(String, bool)>);

/// The mapping from variable names to boolean values held by a list of name
/// and value pairs; a later pair overrides an earlier one with the same
/// name.
pub open spec fn map_of_entries(s: Seq<(String, bool)>) -> Map<Seq<char>, bool>
    decreases s.len(),
{
    if s.len() == 0 {
        Map::empty()
    } else {
        map_of_entries(s.drop_last()).insert(s.last().0@, s.last().1)
    }
}

impl View for Posibility {
    type V = Map<Seq<char>, bool>;

    open spec fn view(&self) -> Map<Seq<char>, bool> {
        map_of_entries(self.0@)
    }
}

/// A name of a map's domain is a name of the entry list, and conversely.
proof fn lemma_map_of_entries_dom(s: Seq<(String, bool)>, k: Seq<char>)
    ensures
        map_of_entries(s).dom().contains(k) == exists|i: int|
            0 <= i < s.len() && (#[trigger] s[i]).0@ == k,
    decreases s.len(),
{
    if s.len() == 0 {
    } else {
        lemma_map_of_entries_dom(s.drop_last(), k);
        let s0 = s.drop_last();
        if map_of_entries(s).dom().contains(k) {
            if s.last().0@ == k {
                assert(s[s.len() - 1].0@ == k);
            } else {
                let i = choose|i: int| 0 <= i < s0.len() && (#[trigger] s0[i]).0@ == k;
                assert(s[i].0@ == k);
            }
        }
        if exists|i: int| 0 <= i < s.len() && (#[trigger] s[i]).0@ == k {
            let i = choose|i: int| 0 <= i < s.len() && (#[trigger] s[i]).0@ == k;
            if i < s.len() - 1 {
                assert(s0[i].0@ == k);
            }
        }
    }
}

/// In an entry list with pairwise distinct names, each entry gives the
/// map's value at its name.
proof fn lemma_map_of_entries_get(s: Seq<(String, bool)>, i: int)
    requires
        forall|p: int, q: int| 0 <= p < q < s.len() ==> (#[trigger] s[p]).0@ != (#[trigger] s[q]).0@,
        0 <= i < s.len(),
    ensures
        map_of_entries(s)[(s[i]).0@] == (s[i]).1,
    decreases s.len(),
{
    if i == s.len() - 1 {
    } else {
        let s0 = s.drop_last();
        assert(s0[i] == s[i]);
        lemma_map_of_entries_get(s0, i);
        assert(s[s.len() - 1].0@ != s[i].0@);
    }
}

/// Appending an entry inserts its pair into the map.
proof fn lemma_map_of_entries_push(s: Seq<(String, bool)>, name: String, value: bool)
    ensures
        map_of_entries(s.push((name, value))) == map_of_entries(s).insert(name@, value),
{
    let p = s.push((name, value));
    assert(p.drop_last() =~= s);
    assert(p.last() == (name, value));
}

impl Posibility {
    /// A well-formed possibility names each variable at most once.
    pub open spec fn wf(&self) -> bool {
        forall|p: int, q: int|
            0 <= p < q < self.0@.len() ==> (#[trigger] self.0@[p]).0@ != (
            #[trigger] self.0@[q]).0@
    }

    /// Whether this possibility assigns a value to the given variable.
    pub fn contains_key(&self, name: &String) -> (r: bool)
        ensures
            r == self@.dom().contains(name@),
    {
        let mut i: usize = 0;
        let mut found = false;
        while i < self.0.len()
            invariant
                0 <= i <= self.0@.len(),
                found == exists|k: int| 0 <= k < i && (#[trigger] self.0@[k]).0@ == name@,
            decreases self.0@.len() - i,
        {
            if self.0[i].0 == *name {
                found = true;
            }
            i = i + 1;
        }
        proof {
            lemma_map_of_entries_dom(self.0@, name@);
        }
        found
    }

    /// The value this possibility assigns to the given variable, if any.
    pub fn get(&self, name: &String) -> (r: Option<bool>)
        requires
            self.wf(),
        ensures
            r == if self@.dom().contains(name@) {
                Some(self@[name@])
            } else {
                Option::<bool>::None
            },
    {
        let mut i: usize = 0;
        let mut r: Option<bool> = None;
        while i < self.0.len()
            invariant
                self.wf(),
                0 <= i <= self.0@.len(),
                r matches Some(v) ==> exists|k: int|
                    0 <= k < i && (#[trigger] self.0@[k]).0@ == name@ && self.0@[k].1 == v,
                r is None ==> forall|k: int| 0 <= k < i ==> (#[trigger] self.0@[k]).0@ != name@,
            decreases self.0@.len() - i,
        {
            if self.0[i].0 == *name {
                r = Some(self.0[i].1);
            }
            i = i + 1;
        }
        proof {
            lemma_map_of_entries_dom(self.0@, name@);
            match r {
                Some(v) => {
                    let k = choose|k: int|
                        0 <= k < self.0@.len() && (#[trigger] self.0@[k]).0@ == name@
                            && self.0@[k].1 == v;
                    lemma_map_of_entries_get(self.0@, k);
                },
                None => {},
            }
        }
        r
    }

    /// The number of variables this possibility assigns a value to.
    pub fn len(&self) -> (r: usize)
        ensures
            r == self.0@.len(),
    {
        self.0.len()
    }

    /// Builds an identical copy of this possibility.
    pub fn dup(&self) -> (r: Self)
        ensures
            r.0@ == self.0@,
            r@ == self@,
            r.wf() == self.wf(),
    {
        let mut entries: Vec<(String, bool)> = Vec::new();
        let mut i: usize = 0;
        while i < self.0.len()
            invariant
                0 <= i <= self.0@.len(),
                entries@ =~= self.0@.take(i as int),
            decreases self.0@.len() - i,
        {
            entries.push((self.0[i].0.clone(), self.0[i].1));
            proof {
                assert(entries@ =~= self.0@.take(i as int + 1));
            }
            i = i + 1;
        }
        proof {
            assert(entries@ =~= self.0@);
        }
        Posibility(entries)
    }

    /// Builds a copy of this possibility extended with one more variable.
    pub fn with_entry(&self, name: &String, value: bool) -> (r: Self)
        requires
            self.wf(),
            !self@.dom().contains(name@),
        ensures
            r.wf(),
            r@ == self@.insert(name@, value),
    {
        let mut r = self.dup();
        let ghost old_entries = r.0@;
        r.0.push((name.clone(), value));
        proof {
            let entry = r.0@[r.0@.len() - 1];
            assert(entry.0@ == name@);
            assert(r.0@ =~= old_entries.push(entry));
            lemma_map_of_entries_push(old_entries, entry.0, entry.1);
            assert forall|p: int, q: int| 0 <= p < q < r.0@.len() implies (
            #[trigger] r.0@[p]).0@ != (#[trigger] r.0@[q]).0@ by {
                if q == r.0@.len() - 1 {
                    lemma_map_of_entries_dom(self.0@, r.0@[p].0@);
                    assert(self.0@[p] == r.0@[p]);
                } else {
                    assert(self.0@[p] == r.0@[p]);
                    assert(self.0@[q] == r.0@[q]);
                }
            }
        }
        r
    }

    /// Whether every variable of this possibility is assigned the same
    /// value by the other.
    pub fn entries_in(&self, other: &Posibility) -> (r: bool)
        requires
            self.wf(),
            other.wf(),
        ensures
            r == self@.submap_of(other@),
    {
        let mut i: usize = 0;
        while i < self.0.len()
            invariant
                self.wf(),
                other.wf(),
                0 <= i <= self.0@.len(),
                forall|k: int|
                    0 <= k < i ==> other@.dom().contains((#[trigger] self.0@[k]).0@)
                        && other@[self.0@[k].0@] == self.0@[k].1,
            decreases self.0@.len() - i,
        {
            let value = other.get(&self.0[i].0);
            match value {
                Some(v) => {
                    if v != self.0[i].1 {
                        proof {
                            lemma_map_of_entries_get(self.0@, i as int);
                            lemma_map_of_entries_dom(self.0@, self.0@[i as int].0@);
                        }
                        return false;
                    }
                },
                None => {
                    proof {
                        lemma_map_of_entries_dom(self.0@, self.0@[i as int].0@);
                    }
                    return false;
                },
            }
            i = i + 1;
        }
        proof {
            assert forall|k: Seq<char>| #[trigger] self@.dom().contains(k) implies other@.dom().contains(k)
                && self@[k] == other@[k] by {
                lemma_map_of_entries_dom(self.0@, k);
                let q = choose|q: int| 0 <= q < self.0@.len() && (#[trigger] self.0@[q]).0@ == k;
                assert(other@.dom().contains(self.0@[q].0@));
                assert(other@[self.0@[q].0@] == self.0@[q].1);
                lemma_map_of_entries_get(self.0@, q);
                assert(self@[k] == self.0@[q].1);
            }
            assert(self@.submap_of(other@));
        }
        true
    }

    /// Whether two possibilities assign the same values to the same
    /// variables, whatever the order of their stored entries.
    pub fn same_assignment(&self, other: &Posibility) -> (r: bool)
        requires
            self.wf(),
            other.wf(),
        ensures
            r == (self@ == other@),
    {
        let r = self.entries_in(other) && other.entries_in(self);
        proof {
            if r {
                assert(self@.dom() =~= other@.dom());
                assert(self@ =~= other@);
            }
        }
        r
    }
}

/// Whether the list already holds a possibility with exactly the given
/// assignment.
fn contains_posibility(list: &Vec<Posibility>, p: &Posibility) -> (r: bool)
    requires
        forall|i: int| 0 <= i < list@.len() ==> (#[trigger] list@[i]).wf(),
        p.wf(),
    ensures
        r == exists|i: int| 0 <= i < list@.len() && (#[trigger] list@[i])@ == p@,
{
    let mut i: usize = 0;
    let mut found = false;
    while i < list.len()
        invariant
            forall|k: int| 0 <= k < list@.len() ==> (#[trigger] list@[k]).wf(),
            p.wf(),
            0 <= i <= list@.len(),
            found == exists|k: int| 0 <= k < i && (#[trigger] list@[k])@ == p@,
        decreases list@.len() - i,
    {
        if list[i].same_assignment(p) {
            found = true;
        }
        i = i + 1;
    }
    found
}

/// The truth value a literal demands of its variable.
spec fn lit_pol(l: Lit) -> bool {
    l is Pos
}

/// A literal holds under an assignment exactly when the assignment gives
/// its variable the literal's polarity.
proof fn lemma_lit_sat_pol(l: Lit, a: Map<Seq<char>, bool>)
    ensures
        lit_sat(l, a) == (a[lit_var(l)] == lit_pol(l)),
{
}

/// Opposite literals take opposite truth values under every assignment.
proof fn lemma_lit_neg_sat(l: Lit, a: Map<Seq<char>, bool>)
    ensures
        lit_sat(lit_neg(l), a) == !lit_sat(l, a),
{
}

/// Two literals over the same variable are the same or opposite.
proof fn lemma_lit_same_var(l: Lit, m: Lit)
    requires
        lit_var(l) == lit_var(m),
    ensures
        l == m || l == lit_neg(m),
{
}

/// Whether the literals on a search path bind pairwise distinct variables.
spec fn path_wf(s: Seq<SimplificatedAtom>) -> bool {
    forall|i: int, j: int|
        0 <= i < j < s.len() ==> lit_var(lit_of(#[trigger] s[i])) != lit_var(lit_of(
            #[trigger] s[j],
        ))
}

/// The variables bound by a search path.
spec fn path_vars(s: Seq<SimplificatedAtom>) -> Set<Seq<char>> {
    Set::new(
        |v: Seq<char>| exists|i: int| 0 <= i < s.len() && lit_var(lit_of(#[trigger] s[i])) == v,
    )
}

/// The partial assignment bound by a search path: each literal demands its
/// polarity of its variable.
spec fn path_map(s: Seq<SimplificatedAtom>) -> Map<Seq<char>, bool>
    decreases s.len(),
{
    if s.len() == 0 {
        Map::empty()
    } else {
        path_map(s.drop_last()).insert(
            lit_var(lit_of(s.last())),
            lit_pol(lit_of(s.last())),
        )
    }
}

/// A variable of a path's partial assignment is a variable of the path, and
/// conversely.
proof fn lemma_path_map_dom(s: Seq<SimplificatedAtom>, v: Seq<char>)
    ensures
        path_map(s).dom().contains(v) == path_vars(s).contains(v),
    decreases s.len(),
{
    if s.len() == 0 {
    } else {
        let s0 = s.drop_last();
        lemma_path_map_dom(s0, v);
        if path_map(s).dom().contains(v) {
            if lit_var(lit_of(s.last())) == v {
                assert(lit_var(lit_of(s[s.len() - 1])) == v);
            } else {
                let i = choose|i: int| 0 <= i < s0.len() && lit_var(lit_of(#[trigger] s0[i])) == v;
                assert(lit_var(lit_of(s[i])) == v);
            }
            assert(path_vars(s).contains(v));
        }
        if path_vars(s).contains(v) {
            let i = choose|i: int| 0 <= i < s.len() && lit_var(lit_of(#[trigger] s[i])) == v;
            if i < s.len() - 1 {
                assert(lit_var(lit_of(s0[i])) == v);
                assert(path_vars(s0).contains(v));
            }
        }
    }
}

/// Extending a path binds one more variable to the new literal's polarity.
proof fn lemma_path_map_push(s: Seq<SimplificatedAtom>, t: SimplificatedAtom)
    ensures
        path_map(s.push(t)) == path_map(s).insert(lit_var(lit_of(t)), lit_pol(lit_of(t))),
{
    let p = s.push(t);
    assert(p.drop_last() =~= s);
    assert(p.last() == t);
}

/// A partial assignment extended by one binding is contained in a total
/// assignment exactly when the unextended assignment is contained in it and
/// the total assignment agrees with the binding.
proof fn lemma_insert_submap(
    m: Map<Seq<char>, bool>,
    k: Seq<char>,
    v: bool,
    a: Map<Seq<char>, bool>,
)
    requires
        !m.dom().contains(k),
    ensures
        m.insert(k, v).submap_of(a) == (m.submap_of(a) && a.dom().contains(k) && a[k] == v),
{
    let mi = m.insert(k, v);
    if mi.submap_of(a) {
        assert(mi.dom().contains(k));
        assert(a.dom().contains(k) && mi[k] == a[k]);
        assert(mi[k] == v);
        assert forall|k2: Seq<char>| #[trigger] m.dom().contains(k2) implies a.dom().contains(k2)
            && m[k2] == a[k2] by {
            assert(mi.dom().contains(k2));
            assert(mi[k2] == m[k2]);
        }
        assert(m.submap_of(a));
    }
    if m.submap_of(a) && a.dom().contains(k) && a[k] == v {
        assert forall|k2: Seq<char>| #[trigger] mi.dom().contains(k2) implies a.dom().contains(k2)
            && mi[k2] == a[k2] by {
            if k2 == k {
            } else {
                assert(m.dom().contains(k2));
            }
        }
        assert(mi.submap_of(a));
    }
}

/// Converts the literals collected along a search path into the possibility
/// they describe.
fn path_to_posibility(path: &Vec<SimplificatedAtom>) -> (r: Posibility)
    requires
        path_wf(path@),
    ensures
        r.wf(),
        r@ == path_map(path@),
{
    let mut entries: Vec<(String, bool)> = Vec::new();
    let mut i: usize = 0;
    while i < path.len()
        invariant
            path_wf(path@),
            0 <= i <= path@.len(),
            entries@.len() == i,
            forall|k: int|
                0 <= k < i ==> (#[trigger] entries@[k]).0@ == lit_var(lit_of(path@[k]))
                    && entries@[k].1 == lit_pol(lit_of(path@[k])),
            map_of_entries(entries@) == path_map(path@.take(i as int)),
        decreases path@.len() - i,
    {
        let ghost old_entries = entries@;
        match &path[i] {
            SimplificatedAtom::Var(name) => {
                entries.push((name.clone(), true));
            },
            SimplificatedAtom::NotVar(name) => {
                entries.push((name.clone(), false));
            },
        }
        proof {
            let entry = entries@[entries@.len() - 1];
            assert(entries@ =~= old_entries.push(entry));
            assert(entry.0@ == lit_var(lit_of(path@[i as int])));
            assert(entry.1 == lit_pol(lit_of(path@[i as int])));
            lemma_map_of_entries_push(old_entries, entry.0, entry.1);
            let t1 = path@.take(i as int + 1);
            assert(t1.drop_last() =~= path@.take(i as int));
            assert(t1.last() == path@[i as int]);
        }
        i = i + 1;
    }
    proof {
        assert(path@.take(path@.len() as int) =~= path@);
    }
    Posibility(entries)
}

/// Checks if remove a atom is valid in the current context of clauses: no
/// clause of the context is a unit clause holding exactly the opposite
/// literal, which assigning the atom true would falsify.
pub fn is_valide(atom: &SimplificatedAtom, context: &Vec<SimplificatedClause>) -> (r: bool)
    requires
        forall|i: int| 0 <= i < context@.len() ==> (#[trigger] context@[i]).wf(),
    ensures
        r == forall|i: int|
            0 <= i < context@.len() ==> (#[trigger] context@[i])@ != Set::empty().insert(
                lit_neg(lit_of(*atom)),
            ),
{
    let ghost negl = lit_neg(lit_of(*atom));
    let neg = atom.negate();
    let mut i: usize = 0;
    while i < context.len()
        invariant
            forall|k: int| 0 <= k < context@.len() ==> (#[trigger] context@[k]).wf(),
            lit_of(neg) == negl,
            negl == lit_neg(lit_of(*atom)),
            0 <= i <= context@.len(),
            forall|k: int|
                0 <= k < i ==> (#[trigger] context@[k])@ != Set::empty().insert(negl),
        decreases context@.len() - i,
    {
        let is_unit = context[i].0.len() == 1;
        let has_neg = context[i].contains_atom(&neg);
        if is_unit && has_neg {
            proof {
                let c = context@[i as int];
                let k = choose|k: int| 0 <= k < c.0@.len() && lit_of(#[trigger] c.0@[k]) == negl;
                assert(k == 0);
                assert forall|l: Lit| c@.contains(l) implies Set::empty().insert(negl).contains(
                    l,
                ) by {
                    let q = choose|q: int| 0 <= q < c.0@.len() && lit_of(#[trigger] c.0@[q]) == l;
                    assert(q == 0);
                }
                assert(c@ =~= Set::empty().insert(negl));
                assert(context@[i as int]@ == Set::empty().insert(lit_neg(lit_of(*atom))));
            }
            return false;
        }
        proof {
            let c = context@[i as int];
            if c@ == Set::empty().insert(negl) {
                assert(c@.contains(lit_of(c.0@[0])));
                assert(lit_of(c.0@[0]) == negl);
                if c.0@.len() >= 2 {
                    assert(c@.contains(lit_of(c.0@[1])));
                    assert(lit_of(c.0@[1]) == negl);
                    assert(false);
                }
                assert(satoms_lits(c.0@).contains(negl));
                assert(false);
            }
        }
        i = i + 1;
    }
    true
}

/// The total number of stored atoms across a list of clauses: the measure
/// that shrinks with every step of the backtracking search.
spec fn total_atoms(cs: Seq<SimplificatedClause>) -> nat
    decreases cs.len(),
{
    if cs.len() == 0 {
        0
    } else {
        total_atoms(cs.drop_last()) + cs.last().0@.len()
    }
}

/// One more clause of a prefix adds its atom count to the measure.
proof fn lemma_total_atoms_take_step(cs: Seq<SimplificatedClause>, i: int)
    requires
        0 <= i < cs.len(),
    ensures
        total_atoms(cs.take(i + 1)) == total_atoms(cs.take(i)) + cs[i].0@.len(),
{
    let t1 = cs.take(i + 1);
    assert(t1.drop_last() =~= cs.take(i));
    assert(t1.last() == cs[i]);
}

/// A conjunction over one more clause of a prefix holds exactly when the
/// shorter prefix and the added clause both hold.
proof fn lemma_sclauses_sat_take_step(
    cs: Seq<SimplificatedClause>,
    k: int,
    a: Map<Seq<char>, bool>,
)
    requires
        0 <= k < cs.len(),
    ensures
        sclauses_sat(cs.take(k + 1), a) == (sclauses_sat(cs.take(k), a) && sclause_sat(
            cs[k]@,
            a,
        )),
{
    let p1 = cs.take(k + 1);
    let p0 = cs.take(k);
    if sclauses_sat(p0, a) && sclause_sat(cs[k]@, a) {
        assert forall|i: int| 0 <= i < p1.len() implies sclause_sat((#[trigger] p1[i])@, a) by {
            if i < k {
                assert(p1[i] == p0[i]);
            } else {
                assert(p1[i] == cs[k]);
            }
        }
    }
    if sclauses_sat(p1, a) {
        assert forall|i: int| 0 <= i < p0.len() implies sclause_sat((#[trigger] p0[i])@, a) by {
            assert(p0[i] == p1[i]);
        }
        assert(p1[k] == cs[k]);
        assert(sclause_sat(p1[k]@, a));
    }
}

/// Scanning one more atom extends the literal set by that atom's literal.
proof fn lemma_satoms_lits_take_step(s: Seq<SimplificatedAtom>, p: int)
    requires
        0 <= p < s.len(),
    ensures
        forall|l: Lit|
            satoms_lits(s.take(p + 1)).contains(l) == (satoms_lits(s.take(p)).contains(l)
                || lit_of(s[p]) == l),
{
    let t1 = s.take(p + 1);
    let t0 = s.take(p);
    assert forall|l: Lit|
        satoms_lits(t1).contains(l) == (satoms_lits(t0).contains(l) || lit_of(s[p]) == l) by {
        if satoms_lits(t0).contains(l) {
            let k = choose|k: int| 0 <= k < t0.len() && lit_of(#[trigger] t0[k]) == l;
            assert(t1[k] == t0[k]);
            assert(satoms_lits(t1).contains(l));
        }
        if lit_of(s[p]) == l {
            assert(t1[p] == s[p]);
            assert(satoms_lits(t1).contains(l));
        }
        if satoms_lits(t1).contains(l) {
            let k = choose|k: int| 0 <= k < t1.len() && lit_of(#[trigger] t1[k]) == l;
            if k < p {
                assert(t0[k] == t1[k]);
                assert(satoms_lits(t0).contains(l));
            } else {
                assert(t1[k] == s[p]);
            }
        }
    }
}

/// Derives the clause set that remains after assigning the given atom true:
/// every clause containing the atom's literal is satisfied and dropped, and
/// the opposite literal, which can no longer satisfy a clause, is removed
/// from the surviving clauses. Under the validity check performed before
/// each branch, no surviving clause can lose all of its atoms.
fn reduce_clauses(data: &Vec<SimplificatedClause>, atom: &SimplificatedAtom) -> (r: Vec<
    SimplificatedClause,
>)
    requires
        forall|i: int| 0 <= i < data@.len() ==> (#[trigger] data@[i]).wf(),
        forall|i: int|
            0 <= i < data@.len() ==> (#[trigger] data@[i])@ != Set::empty().insert(
                lit_neg(lit_of(*atom)),
            ),
    ensures
        forall|i: int| 0 <= i < r@.len() ==> (#[trigger] r@[i]).wf(),
        forall|i: int|
            0 <= i < r@.len() ==> lits_vars((#[trigger] r@[i])@).subset_of(sclauses_vars(data@))
                && !lits_vars(r@[i]@).contains(lit_var(lit_of(*atom))),
        total_atoms(r@) <= total_atoms(data@),
        sclauses_vars(data@).contains(lit_var(lit_of(*atom))) ==> total_atoms(r@) < total_atoms(
            data@,
        ),
        forall|a: Map<Seq<char>, bool>|
            lit_sat(lit_of(*atom), a) ==> (#[trigger] sclauses_sat(r@, a)) == sclauses_sat(
                data@,
                a,
            ),
{
    let ghost xl = lit_of(*atom);
    let ghost negl = lit_neg(xl);
    let ghost v0 = lit_var(xl);
    let neg = atom.negate();
    let mut r: Vec<SimplificatedClause> = Vec::new();
    let mut i: usize = 0;
    while i < data.len()
        invariant
            forall|q: int| 0 <= q < data@.len() ==> (#[trigger] data@[q]).wf(),
            forall|q: int|
                0 <= q < data@.len() ==> (#[trigger] data@[q])@ != Set::empty().insert(negl),
            xl == lit_of(*atom),
            negl == lit_neg(xl),
            v0 == lit_var(xl),
            lit_of(neg) == negl,
            0 <= i <= data@.len(),
            forall|q: int| 0 <= q < r@.len() ==> (#[trigger] r@[q]).wf(),
            forall|q: int|
                0 <= q < r@.len() ==> lits_vars((#[trigger] r@[q])@).subset_of(
                    sclauses_vars(data@),
                ) && !lits_vars(r@[q]@).contains(v0),
            total_atoms(r@) <= total_atoms(data@.take(i as int)),
            (exists|i2: int|
                0 <= i2 < i && lits_vars((#[trigger] data@[i2])@).contains(v0))
                ==> total_atoms(r@) < total_atoms(data@.take(i as int)),
            forall|a: Map<Seq<char>, bool>|
                lit_sat(xl, a) ==> (#[trigger] sclauses_sat(r@, a)) == sclauses_sat(
                    data@.take(i as int),
                    a,
                ),
        decreases data@.len() - i,
    {
        proof {
            lemma_total_atoms_take_step(data@, i as int);
        }
        let clause = &data[i];
        let ghost cl = clause@;
        if clause.contains_atom(atom) {
            proof {
                assert(clause.0@.len() >= 1);
                assert forall|a: Map<Seq<char>, bool>| lit_sat(xl, a) implies (
                #[trigger] sclauses_sat(r@, a)) == sclauses_sat(
                    data@.take(i as int + 1),
                    a,
                ) by {
                    lemma_sclauses_sat_take_step(data@, i as int, a);
                    assert(sclause_sat(cl, a));
                }
            }
        } else {
            let mut kept: Vec<SimplificatedAtom> = Vec::new();
            let mut p: usize = 0;
            while p < clause.0.len()
                invariant
                    clause.wf(),
                    xl == lit_of(*atom),
                    negl == lit_neg(xl),
                    lit_of(neg) == negl,
                    0 <= p <= clause.0@.len(),
                    forall|l: Lit|
                        satoms_lits(kept@).contains(l) == (satoms_lits(
                            clause.0@.take(p as int),
                        ).contains(l) && l != negl),
                    forall|q1: int, q2: int|
                        0 <= q1 < q2 < kept@.len() ==> lit_of(#[trigger] kept@[q1]) != lit_of(
                            #[trigger] kept@[q2],
                        ),
                    forall|q: int|
                        0 <= q < kept@.len() ==> exists|q2: int|
                            0 <= q2 < p && lit_of(#[trigger] kept@[q]) == lit_of(
                                #[trigger] clause.0@[q2],
                            ),
                    (exists|q: int| 0 <= q < p && lit_of(#[trigger] clause.0@[q]) == negl)
                        ==> kept@.len() < p,
                    (forall|q: int| 0 <= q < p ==> lit_of(#[trigger] clause.0@[q]) != negl)
                        ==> kept@.len() == p,
                decreases clause.0@.len() - p,
            {
                proof {
                    lemma_satoms_lits_take_step(clause.0@, p as int);
                }
                if clause.0[p].eq_atom(&neg) {
                    proof {
                        assert forall|l: Lit|
                            satoms_lits(kept@).contains(l) == (satoms_lits(
                                clause.0@.take(p as int + 1),
                            ).contains(l) && l != negl) by {}
                    }
                } else {
                    let ghost old_kept = kept@;
                    proof {
                        if satoms_lits(kept@).contains(lit_of(clause.0@[p as int])) {
                            let q2 = choose|q2: int|
                                0 <= q2 < p && lit_of(#[trigger] clause.0@[q2]) == lit_of(
                                    clause.0@[p as int],
                                );
                            assert(false);
                        }
                        lemma_satoms_lits_push(kept@, clause.0@[p as int]);
                    }
                    kept.push(clause.0[p].dup());
                    proof {
                        assert(kept@ =~= old_kept.push(clause.0@[p as int]));
                        assert forall|l: Lit|
                            satoms_lits(kept@).contains(l) == (satoms_lits(
                                clause.0@.take(p as int + 1),
                            ).contains(l) && l != negl) by {
                            assert(satoms_lits(old_kept.push(clause.0@[p as int])).contains(l)
                                == (satoms_lits(old_kept).contains(l) || lit_of(
                                clause.0@[p as int],
                            ) == l));
                        }
                        assert forall|q: int| 0 <= q < kept@.len() implies exists|q2: int|
                            0 <= q2 < p + 1 && lit_of(#[trigger] kept@[q]) == lit_of(
                                #[trigger] clause.0@[q2],
                            ) by {
                            if q < kept@.len() - 1 {
                                assert(kept@[q] == old_kept[q]);
                                let q2 = choose|q2: int|
                                    0 <= q2 < p && lit_of(#[trigger] old_kept[q]) == lit_of(
                                        #[trigger] clause.0@[q2],
                                    );
                                assert(lit_of(kept@[q]) == lit_of(clause.0@[q2]));
                            } else {
                                assert(lit_of(kept@[q]) == lit_of(clause.0@[p as int]));
                            }
                        }
                    }
                }
                p = p + 1;
            }
            proof {
                assert(clause.0@.take(clause.0@.len() as int) =~= clause.0@);
            }
            if kept.len() == 0 {
                proof {
                    assert(clause.0@.len() >= 1);
                    assert(cl.contains(lit_of(clause.0@[0])));
                    assert forall|l: Lit| cl.contains(l) implies Set::empty().insert(
                        negl,
                    ).contains(l) by {
                        assert(!satoms_lits(kept@).contains(l));
                    }
                    assert(Set::empty().insert(negl).contains(lit_of(clause.0@[0])));
                    assert(cl =~= Set::empty().insert(negl));
                    assert(data@[i as int]@ == Set::empty().insert(negl));
                    assert(false);
                }
            } else {
                let newc = SimplificatedClause(kept);
                let ghost old_r = r@;
                proof {
                    assert(newc@ =~= cl.remove(negl)) by {
                        assert forall|l: Lit|
                            newc@.contains(l) == cl.remove(negl).contains(l) by {}
                    }
                }
                r.push(newc);
                proof {
                    assert(r@ =~= old_r.push(newc));
                    assert(newc.wf());
                    assert forall|q: int| 0 <= q < r@.len() implies (#[trigger] r@[q]).wf() by {
                        if q < r@.len() - 1 {
                            assert(r@[q] == old_r[q]);
                        }
                    }
                    assert forall|q: int| 0 <= q < r@.len() implies lits_vars(
                        (#[trigger] r@[q])@,
                    ).subset_of(sclauses_vars(data@)) && !lits_vars(r@[q]@).contains(v0) by {
                        if q < r@.len() - 1 {
                            assert(r@[q] == old_r[q]);
                        } else {
                            assert(r@[q] == newc);
                            assert forall|v: Seq<char>|
                                lits_vars(newc@).contains(v) implies sclauses_vars(
                                data@,
                            ).contains(v) && v != v0 by {
                                let l = choose|l: Lit|
                                    newc@.contains(l) && lit_var(l) == v;
                                assert(cl.contains(l));
                                assert(lits_vars(data@[i as int]@).contains(v));
                                if v == v0 {
                                    lemma_lit_same_var(l, xl);
                                    assert(l == xl || l == negl);
                                    assert(!cl.contains(xl));
                                    assert(l != negl);
                                    assert(false);
                                }
                            }
                        }
                    }
                    assert forall|a: Map<Seq<char>, bool>| lit_sat(xl, a) implies (
                    #[trigger] sclauses_sat(r@, a)) == sclauses_sat(
                        data@.take(i as int + 1),
                        a,
                    ) by {
                        lemma_sclauses_sat_take_step(data@, i as int, a);
                        lemma_sclauses_sat_push(old_r, newc, a);
                        lemma_lit_neg_sat(xl, a);
                        if sclause_sat(cl, a) {
                            let l = choose|l: Lit| cl.contains(l) && lit_sat(l, a);
                            assert(l != negl);
                            assert(newc@.contains(l));
                            assert(sclause_sat(newc@, a));
                        }
                        if sclause_sat(newc@, a) {
                            let l = choose|l: Lit| newc@.contains(l) && lit_sat(l, a);
                            assert(cl.contains(l));
                            assert(sclause_sat(cl, a));
                        }
                    }
                    assert(r@.drop_last() =~= old_r);
                    assert(r@.last() == newc);
                    assert(total_atoms(r@) == total_atoms(old_r) + kept@.len());
                    assert(kept@.len() <= clause.0@.len());
                    assert forall|i2: int|
                        0 <= i2 < i + 1 && lits_vars((#[trigger] data@[i2])@).contains(
                            v0,
                        ) implies total_atoms(r@) < total_atoms(data@.take(i as int + 1)) by {
                        if i2 == i {
                            let l = choose|l: Lit| cl.contains(l) && lit_var(l) == v0;
                            lemma_lit_same_var(l, xl);
                            assert(!cl.contains(xl));
                            assert(l == negl);
                            let q = choose|q: int|
                                0 <= q < clause.0@.len() && lit_of(#[trigger] clause.0@[q])
                                    == negl;
                            assert(kept@.len() < clause.0@.len());
                        } else {
                            assert(lits_vars(data@[i2]@).contains(v0));
                        }
                    }
                }
            }
        }
        i = i + 1;
    }
    proof {
        assert(data@.take(data@.len() as int) =~= data@);
    }
    r
}

/// Whether some clause of the list contains the literal.
spec fn lit_in_clauses(l: Lit, cs: Seq<SimplificatedClause>) -> bool {
    exists|i: int| 0 <= i < cs.len() && (#[trigger] cs[i])@.contains(l)
}

/// A partial assignment is contained in its own extension by a new
/// binding.
proof fn lemma_submap_insert(m: Map<Seq<char>, bool>, k: Seq<char>, v: bool)
    requires
        !m.dom().contains(k),
    ensures
        m.submap_of(m.insert(k, v)),
{
    assert forall|k2: Seq<char>| #[trigger] m.dom().contains(k2) implies m.insert(
        k,
        v,
    ).dom().contains(k2) && m[k2] == m.insert(k, v)[k2] by {}
}

/// Containment of partial assignments is transitive.
proof fn lemma_submap_trans(
    x: Map<Seq<char>, bool>,
    y: Map<Seq<char>, bool>,
    z: Map<Seq<char>, bool>,
)
    requires
        x.submap_of(y),
        y.submap_of(z),
    ensures
        x.submap_of(z),
{
    assert forall|k: Seq<char>| #[trigger] x.dom().contains(k) implies z.dom().contains(k)
        && x[k] == z[k] by {
        assert(y.dom().contains(k));
        assert(x[k] == y[k]);
        assert(z.dom().contains(k));
        assert(y[k] == z[k]);
    }
}

/// Extending a path adds exactly the new literal's variable to the path's
/// variables.
proof fn lemma_path_vars_push(s: Seq<SimplificatedAtom>, t: SimplificatedAtom)
    ensures
        forall|v: Seq<char>|
            path_vars(s.push(t)).contains(v) == (path_vars(s).contains(v) || lit_var(lit_of(t))
                == v),
{
    let p = s.push(t);
    assert forall|v: Seq<char>|
        path_vars(p).contains(v) == (path_vars(s).contains(v) || lit_var(lit_of(t)) == v) by {
        if path_vars(s).contains(v) {
            let i = choose|i: int| 0 <= i < s.len() && lit_var(lit_of(#[trigger] s[i])) == v;
            assert(p[i] == s[i]);
            assert(lit_var(lit_of(p[i])) == v);
            assert(path_vars(p).contains(v));
        }
        if lit_var(lit_of(t)) == v {
            assert(p[s.len() as int] == t);
            assert(path_vars(p).contains(v));
        }
        if path_vars(p).contains(v) {
            let i = choose|i: int| 0 <= i < p.len() && lit_var(lit_of(#[trigger] p[i])) == v;
            if i < s.len() {
                assert(s[i] == p[i]);
                assert(path_vars(s).contains(v));
            } else {
                assert(p[i] == t);
            }
        }
    }
}

/// Builds an identical copy of a list of atoms.
fn dup_atoms(atoms: &Vec<SimplificatedAtom>) -> (r: Vec<SimplificatedAtom>)
    ensures
        r@ == atoms@,
{
    let mut r: Vec<SimplificatedAtom> = Vec::new();
    let mut i: usize = 0;
    while i < atoms.len()
        invariant
            0 <= i <= atoms@.len(),
            r@ =~= atoms@.take(i as int),
        decreases atoms@.len() - i,
    {
        r.push(atoms[i].dup());
        proof {
            assert(r@ =~= atoms@.take(i as int + 1));
        }
        i = i + 1;
    }
    proof {
        assert(r@ =~= atoms@);
    }
    r
}




/// The characterization of a finished search: the returned possibilities
/// are, up to containment, exactly the total assignments that satisfy the
/// clauses and agree with the path.
spec fn search_models(
    cs: Seq<SimplificatedClause>,
    path: Seq<SimplificatedAtom>,
    sols: Seq<Posibility>,
) -> bool {
    forall|a: Map<Seq<char>, bool>|
        #![trigger sclauses_sat(cs, a)]
        sclauses_vars(cs).union(path_vars(path)).subset_of(a.dom()) ==> ((sclauses_sat(cs, a)
            && path_map(path).submap_of(a)) == (exists|i: int|
            0 <= i < sols.len() && (#[trigger] sols[i])@.submap_of(a)))
}

/// What one branch of the search establishes about the solutions it
/// returns: each extends the path plus the branch literal, stays within the
/// clause and path variables plus the branch variable, they are pairwise
/// distinct, and together they match exactly the total assignments that
/// satisfy the clauses, agree with the path, and make the branch literal
/// true.
spec fn branch_facts(
    cs: Seq<SimplificatedClause>,
    path: Seq<SimplificatedAtom>,
    sols: Seq<Posibility>,
    l: Lit,
) -> bool {
    &&& forall|i: int| 0 <= i < sols.len() ==> (#[trigger] sols[i]).wf()
    &&& forall|i: int|
        0 <= i < sols.len() ==> path_map(path).insert(lit_var(l), lit_pol(l)).submap_of(
            (#[trigger] sols[i])@,
        )
    &&& forall|i: int|
        0 <= i < sols.len() ==> (#[trigger] sols[i])@.dom().subset_of(
            sclauses_vars(cs).union(path_vars(path)).insert(lit_var(l)),
        )
    &&& forall|i: int, j: int|
        0 <= i < j < sols.len() ==> (#[trigger] sols[i])@ != (#[trigger] sols[j])@
    &&& forall|a: Map<Seq<char>, bool>|
        #![trigger sclauses_sat(cs, a)]
        sclauses_vars(cs).union(path_vars(path)).subset_of(a.dom()) ==> ((sclauses_sat(cs, a)
            && path_map(path).submap_of(a) && lit_sat(l, a)) == (exists|i: int|
            0 <= i < sols.len() && (#[trigger] sols[i])@.submap_of(a)))
}

/// The preconditions of the recursive search call hold for the reduced
/// clause set and the extended path.
proof fn lemma_branch_preconditions(
    cs: Seq<SimplificatedClause>,
    path: Seq<SimplificatedAtom>,
    np: Seq<SimplificatedAtom>,
    nd: Seq<SimplificatedClause>,
    l: Lit,
)
    requires
        path_wf(path),
        forall|v: Seq<char>|
            #[trigger] sclauses_vars(cs).contains(v) ==> !path_vars(path).contains(v),
        sclauses_vars(cs).contains(lit_var(l)),
        np.len() == path.len() + 1,
        np == path.push(np.last()),
        lit_of(np.last()) == l,
        forall|i: int|
            0 <= i < nd.len() ==> lits_vars((#[trigger] nd[i])@).subset_of(sclauses_vars(cs))
                && !lits_vars(nd[i]@).contains(lit_var(l)),
    ensures
        path_wf(np),
        forall|v: Seq<char>|
            #[trigger] sclauses_vars(nd).contains(v) ==> !path_vars(np).contains(v),
{
    let v0 = lit_var(l);
    lemma_path_vars_push(path, np.last());
    assert forall|i: int, j: int| 0 <= i < j < np.len() implies lit_var(lit_of(
        #[trigger] np[i],
    )) != lit_var(lit_of(#[trigger] np[j])) by {
        if j == np.len() - 1 {
            assert(np[i] == path[i]);
            if lit_var(lit_of(path[i])) == v0 {
                assert(path_vars(path).contains(v0));
                assert(false);
            }
        } else {
            assert(np[i] == path[i]);
            assert(np[j] == path[j]);
        }
    }
    assert forall|v: Seq<char>| #[trigger] sclauses_vars(nd).contains(v) implies !path_vars(
        np,
    ).contains(v) by {
        let i = choose|i: int| 0 <= i < nd.len() && lits_vars((#[trigger] nd[i])@).contains(v);
        assert(sclauses_vars(cs).contains(v));
        assert(v != v0);
        assert(!path_vars(path).contains(v));
    }
}

/// A branch whose literal is refuted by a unit clause contributes no
/// solutions, and no satisfying assignment makes that literal true.
proof fn lemma_blocked_branch(
    cs: Seq<SimplificatedClause>,
    path: Seq<SimplificatedAtom>,
    i: int,
    l: Lit,
)
    requires
        0 <= i < cs.len(),
        cs[i]@ == Set::empty().insert(lit_neg(l)),
    ensures
        branch_facts(cs, path, Seq::empty(), l),
{
    assert forall|a: Map<Seq<char>, bool>|
        sclauses_vars(cs).union(path_vars(path)).subset_of(a.dom()) implies ((#[trigger]
    sclauses_sat(cs, a) && path_map(path).submap_of(a) && lit_sat(l, a)) == (exists|q: int|
        0 <= q < Seq::<Posibility>::empty().len() && (#[trigger] Seq::<
            Posibility,
        >::empty()[q])@.submap_of(a))) by {
        if sclauses_sat(cs, a) && lit_sat(l, a) {
            lemma_lit_neg_sat(l, a);
            assert(sclause_sat(cs[i]@, a));
            let w = choose|w: Lit| cs[i]@.contains(w) && lit_sat(w, a);
            assert(w == lit_neg(l));
            assert(false);
        }
    }
}

/// Transfers the guarantees of the recursive call on the reduced clause set
/// and extended path back to the original clause set and path.
proof fn lemma_branch_summary(
    cs: Seq<SimplificatedClause>,
    path: Seq<SimplificatedAtom>,
    nd: Seq<SimplificatedClause>,
    np: Seq<SimplificatedAtom>,
    sols: Seq<Posibility>,
    l: Lit,
)
    requires
        forall|v: Seq<char>|
            #[trigger] sclauses_vars(cs).contains(v) ==> !path_vars(path).contains(v),
        sclauses_vars(cs).contains(lit_var(l)),
        np.len() == path.len() + 1,
        np == path.push(np.last()),
        lit_of(np.last()) == l,
        forall|i: int|
            0 <= i < nd.len() ==> lits_vars((#[trigger] nd[i])@).subset_of(sclauses_vars(cs))
                && !lits_vars(nd[i]@).contains(lit_var(l)),
        forall|a: Map<Seq<char>, bool>|
            lit_sat(l, a) ==> (#[trigger] sclauses_sat(nd, a)) == sclauses_sat(cs, a),
        forall|i: int| 0 <= i < sols.len() ==> (#[trigger] sols[i]).wf(),
        forall|i: int| 0 <= i < sols.len() ==> path_map(np).submap_of((#[trigger] sols[i])@),
        forall|i: int|
            0 <= i < sols.len() ==> (#[trigger] sols[i])@.dom().subset_of(
                sclauses_vars(nd).union(path_vars(np)),
            ),
        forall|i: int, j: int|
            0 <= i < j < sols.len() ==> (#[trigger] sols[i])@ != (#[trigger] sols[j])@,
        forall|a: Map<Seq<char>, bool>|
            #![trigger sclauses_sat(nd, a)]
            sclauses_vars(nd).union(path_vars(np)).subset_of(a.dom()) ==> ((sclauses_sat(nd, a)
                && path_map(np).submap_of(a)) == (exists|i: int|
                0 <= i < sols.len() && (#[trigger] sols[i])@.submap_of(a))),
    ensures
        branch_facts(cs, path, sols, l),
{
    let v0 = lit_var(l);
    let pol = lit_pol(l);
    lemma_path_vars_push(path, np.last());
    lemma_path_map_push(path, np.last());
    assert(path_map(np) == path_map(path).insert(v0, pol));
    lemma_path_map_dom(path, v0);
    assert(!path_map(path).dom().contains(v0));
    assert forall|i: int| 0 <= i < sols.len() implies (#[trigger] sols[i])@.dom().subset_of(
        sclauses_vars(cs).union(path_vars(path)).insert(v0),
    ) by {
        assert forall|v: Seq<char>| #[trigger] sols[i]@.dom().contains(v) implies sclauses_vars(
            cs,
        ).union(path_vars(path)).insert(v0).contains(v) by {
            assert(sclauses_vars(nd).union(path_vars(np)).contains(v));
            if sclauses_vars(nd).contains(v) {
                let q = choose|q: int|
                    0 <= q < nd.len() && lits_vars((#[trigger] nd[q])@).contains(v);
                assert(sclauses_vars(cs).contains(v));
            } else {
                assert(path_vars(np).contains(v));
            }
        }
    }
    assert forall|a: Map<Seq<char>, bool>|
        sclauses_vars(cs).union(path_vars(path)).subset_of(a.dom()) implies ((#[trigger]
    sclauses_sat(cs, a) && path_map(path).submap_of(a) && lit_sat(l, a)) == (exists|i: int|
        0 <= i < sols.len() && (#[trigger] sols[i])@.submap_of(a))) by {
        assert(sclauses_vars(cs).union(path_vars(path)).contains(v0));
        assert(a.dom().contains(v0));
        assert forall|v: Seq<char>|
            #[trigger] sclauses_vars(nd).union(path_vars(np)).contains(v) implies a.dom().contains(
            v,
        ) by {
            if sclauses_vars(nd).contains(v) {
                let q = choose|q: int|
                    0 <= q < nd.len() && lits_vars((#[trigger] nd[q])@).contains(v);
                assert(sclauses_vars(cs).contains(v));
            } else {
                assert(path_vars(np).contains(v));
                if v != v0 {
                    assert(path_vars(path).contains(v));
                }
            }
        }
        assert(sclauses_vars(nd).union(path_vars(np)).subset_of(a.dom()));
        assert((sclauses_sat(nd, a) && path_map(np).submap_of(a)) == (exists|i: int|
            0 <= i < sols.len() && (#[trigger] sols[i])@.submap_of(a)));
        lemma_insert_submap(path_map(path), v0, pol, a);
        lemma_lit_sat_pol(l, a);
        if lit_sat(l, a) {
            assert(sclauses_sat(nd, a) == sclauses_sat(cs, a));
            assert(a[v0] == pol);
            assert(path_map(np).submap_of(a) == path_map(path).submap_of(a));
        } else {
            assert(a[v0] != pol);
            assert(!path_map(np).submap_of(a));
        }
    }
}


/// Reads the model characterization of one branch off its established
/// facts, for one given assignment.
proof fn lemma_branch_models(
    cs: Seq<SimplificatedClause>,
    path: Seq<SimplificatedAtom>,
    sols: Seq<Posibility>,
    l: Lit,
    a: Map<Seq<char>, bool>,
)
    requires
        branch_facts(cs, path, sols, l),
        sclauses_vars(cs).union(path_vars(path)).subset_of(a.dom()),
    ensures
        (sclauses_sat(cs, a) && path_map(path).submap_of(a) && lit_sat(l, a)) == (exists|i: int|
            0 <= i < sols.len() && (#[trigger] sols[i])@.submap_of(a)),
{
}

/// Joins the solutions of the two branches over a chosen literal: together
/// they are exactly the satisfying assignments compatible with the path.
#[verifier::rlimit(60)]
proof fn lemma_combine_branches(
    cs: Seq<SimplificatedClause>,
    path: Seq<SimplificatedAtom>,
    s1: Seq<Posibility>,
    s2: Seq<Posibility>,
    l: Lit,
)
    requires
        path_wf(path),
        forall|v: Seq<char>|
            #[trigger] sclauses_vars(cs).contains(v) ==> !path_vars(path).contains(v),
        sclauses_vars(cs).contains(lit_var(l)),
        branch_facts(cs, path, s1, l),
        branch_facts(cs, path, s2, lit_neg(l)),
    ensures
        forall|i: int| 0 <= i < (s1 + s2).len() ==> (#[trigger] (s1 + s2)[i]).wf(),
        forall|i: int|
            0 <= i < (s1 + s2).len() ==> path_map(path).submap_of((#[trigger] (s1 + s2)[i])@),
        forall|i: int|
            0 <= i < (s1 + s2).len() ==> (#[trigger] (s1 + s2)[i])@.dom().subset_of(
                sclauses_vars(cs).union(path_vars(path)),
            ),
        forall|i: int, j: int|
            0 <= i < j < (s1 + s2).len() ==> (#[trigger] (s1 + s2)[i])@ != (#[trigger] (s1
                + s2)[j])@,
{
    let v0 = lit_var(l);
    let pol = lit_pol(l);
    let negl = lit_neg(l);
    let pmap = path_map(path);
    let m1 = pmap.insert(v0, pol);
    let m2 = pmap.insert(v0, !pol);
    assert(lit_var(negl) == v0);
    assert(lit_pol(negl) == !pol);
    lemma_path_map_dom(path, v0);
    assert(!pmap.dom().contains(v0));
    lemma_submap_insert(pmap, v0, pol);
    lemma_submap_insert(pmap, v0, !pol);
    assert forall|i: int| 0 <= i < (s1 + s2).len() implies (#[trigger] (s1 + s2)[i]).wf()
        && path_map(path).submap_of((s1 + s2)[i]@) && (s1 + s2)[i]@.dom().subset_of(
        sclauses_vars(cs).union(path_vars(path)),
    ) by {
        let e = (s1 + s2)[i];
        if i < s1.len() {
            assert(e == s1[i]);
            lemma_submap_trans(pmap, m1, e@);
        } else {
            assert(e == s2[i - s1.len()]);
            lemma_submap_trans(pmap, m2, e@);
        }
        assert(sclauses_vars(cs).union(path_vars(path)).insert(v0) =~= sclauses_vars(cs).union(
            path_vars(path),
        ));
    }
    assert forall|i: int, j: int| 0 <= i < j < (s1 + s2).len() implies (#[trigger] (s1
        + s2)[i])@ != (#[trigger] (s1 + s2)[j])@ by {
        let x = (s1 + s2)[i];
        let y = (s1 + s2)[j];
        if i < s1.len() && j >= s1.len() {
            assert(x == s1[i]);
            assert(y == s2[j - s1.len()]);
            assert(m1.submap_of(x@));
            assert(m2.submap_of(y@));
            assert(m1.dom().contains(v0));
            assert(m2.dom().contains(v0));
            assert(x@.dom().contains(v0));
            assert(x@[v0] == m1[v0]);
            assert(y@.dom().contains(v0));
            assert(y@[v0] == m2[v0]);
            assert(m1[v0] == pol);
            assert(m2[v0] == !pol);
            assert(x@[v0] != y@[v0]);
        } else if j < s1.len() {
            assert(x == s1[i]);
            assert(y == s1[j]);
        } else {
            assert(x == s2[i - s1.len()]);
            assert(y == s2[j - s1.len()]);
        }
    }
}

/// Together the two branches over a chosen literal enumerate exactly the
/// satisfying assignments compatible with the path: every total assignment
/// sets the chosen variable one way or the other.
#[verifier::rlimit(60)]
proof fn lemma_combine_models(
    cs: Seq<SimplificatedClause>,
    path: Seq<SimplificatedAtom>,
    s1: Seq<Posibility>,
    s2: Seq<Posibility>,
    ss: Seq<Posibility>,
    l: Lit,
)
    requires
        ss == s1 + s2,
        branch_facts(cs, path, s1, l),
        branch_facts(cs, path, s2, lit_neg(l)),
    ensures
        search_models(cs, path, ss),
{
    let negl = lit_neg(l);
    assert forall|a: Map<Seq<char>, bool>|
        #![trigger sclauses_sat(cs, a)]
        sclauses_vars(cs).union(path_vars(path)).subset_of(a.dom()) implies ((sclauses_sat(cs, a)
            && path_map(path).submap_of(a)) == (exists|i: int|
            0 <= i < ss.len() && (#[trigger] ss[i])@.submap_of(a))) by {
        lemma_lit_neg_sat(l, a);
        lemma_branch_models(cs, path, s1, l, a);
        lemma_branch_models(cs, path, s2, negl, a);
        if sclauses_sat(cs, a) && path_map(path).submap_of(a) {
            if lit_sat(l, a) {
                let i = choose|i: int| 0 <= i < s1.len() && (#[trigger] s1[i])@.submap_of(a);
                assert(ss[i] == s1[i]);
                assert(ss[i]@.submap_of(a));
            } else {
                let i = choose|i: int| 0 <= i < s2.len() && (#[trigger] s2[i])@.submap_of(a);
                assert(ss[i + s1.len()] == s2[i]);
                assert(ss[i + s1.len()]@.submap_of(a));
            }
        }
        if exists|i: int| 0 <= i < ss.len() && (#[trigger] ss[i])@.submap_of(a) {
            let i = choose|i: int| 0 <= i < ss.len() && (#[trigger] ss[i])@.submap_of(a);
            if i < s1.len() {
                assert(s1[i] == ss[i]);
                assert(s1[i]@.submap_of(a));
            } else {
                assert(s2[i - s1.len()] == ss[i]);
                assert(s2[i - s1.len()]@.submap_of(a));
            }
        }
    }
}

/// The backtracking search: collects every extension of the path that
/// satisfies the clause set. A literal is chosen, preferring the forced
/// literal of a unit clause, and both polarities are explored
/// independently; a branch is pruned when a unit clause forces the
/// opposite literal, and otherwise the clause set is reduced under the
/// chosen literal before recursing. The clause set becoming empty records
/// the path as one solution.
#[verifier::rlimit(100)]
#[verifier::spinoff_prover]
fn backtrack(data: Vec<SimplificatedClause>, path: Vec<SimplificatedAtom>) -> (sols: Vec<
    Posibility,
>)
    requires
        forall|i: int| 0 <= i < data@.len() ==> (#[trigger] data@[i]).wf(),
        path_wf(path@),
        forall|v: Seq<char>|
            #[trigger] sclauses_vars(data@).contains(v) ==> !path_vars(path@).contains(v),
    ensures
        forall|i: int| 0 <= i < sols@.len() ==> (#[trigger] sols@[i]).wf(),
        forall|i: int|
            0 <= i < sols@.len() ==> path_map(path@).submap_of((#[trigger] sols@[i])@),
        forall|i: int|
            0 <= i < sols@.len() ==> (#[trigger] sols@[i])@.dom().subset_of(
                sclauses_vars(data@).union(path_vars(path@)),
            ),
        forall|i: int, j: int|
            0 <= i < j < sols@.len() ==> (#[trigger] sols@[i])@ != (#[trigger] sols@[j])@,
        search_models(data@, path@, sols@),
    decreases total_atoms(data@),
{
    if data.len() == 0 {
        let sol = path_to_posibility(&path);
        let mut sols: Vec<Posibility> = Vec::new();
        sols.push(sol);
        proof {
            assert forall|v: Seq<char>| #[trigger] sol@.dom().contains(v) implies sclauses_vars(
                data@,
            ).union(path_vars(path@)).contains(v) by {
                lemma_path_map_dom(path@, v);
            }
            assert forall|a: Map<Seq<char>, bool>|
                #![trigger sclauses_sat(data@, a)]
                sclauses_vars(data@).union(path_vars(path@)).subset_of(a.dom()) implies ((
            sclauses_sat(data@, a) && path_map(path@).submap_of(a)) == (exists|i: int|
                0 <= i < sols@.len() && (#[trigger] sols@[i])@.submap_of(a))) by {
                assert(sclauses_sat(data@, a));
                if path_map(path@).submap_of(a) {
                    assert(sols@[0]@.submap_of(a));
                }
                if exists|i: int| 0 <= i < sols@.len() && (#[trigger] sols@[i])@.submap_of(a) {
                    let i = choose|i: int|
                        0 <= i < sols@.len() && (#[trigger] sols@[i])@.submap_of(a);
                    assert(sols@[i] == sol);
                }
            }
            assert(forall|i: int| 0 <= i < sols@.len() ==> (#[trigger] sols@[i]).wf());
            assert(forall|i: int|
                0 <= i < sols@.len() ==> path_map(path@).submap_of((#[trigger] sols@[i])@));
            assert forall|i: int| 0 <= i < sols@.len() implies (
            #[trigger] sols@[i])@.dom().subset_of(
                sclauses_vars(data@).union(path_vars(path@)),
            ) by {
                assert(sols@[i] == sol);
            }
            assert(forall|i: int, j: int|
                0 <= i < j < sols@.len() ==> (#[trigger] sols@[i])@ != (#[trigger] sols@[j])@);
            assert(search_models(data@, path@, sols@));
        }
        return sols;
    }
    // Choose a branching atom, preferring the forced literal of a unit
    // clause; otherwise the first atom of the first clause stands.
    proof {
        assert(data@[0].wf());
    }
    let mut chosen = data[0].0[0].dup();
    proof {
        assert(data@[0]@.contains(lit_of(chosen)));
    }
    let mut u: usize = 0;
    while u < data.len()
        invariant
            forall|i: int| 0 <= i < data@.len() ==> (#[trigger] data@[i]).wf(),
            0 <= u <= data@.len(),
            lit_in_clauses(lit_of(chosen), data@),
        decreases data@.len() - u,
    {
        if data[u].0.len() == 1 {
            chosen = data[u].0[0].dup();
            proof {
                assert(data@[u as int]@.contains(lit_of(chosen)));
            }
        }
        u = u + 1;
    }
    let inverted = chosen.negate();
    let ghost xl = lit_of(chosen);
    let ghost negl = lit_neg(xl);
    let ghost v0 = lit_var(xl);
    let ghost dvars = sclauses_vars(data@);
    let ghost pvars = path_vars(path@);
    let ghost pmap = path_map(path@);
    proof {
        // the chosen variable occurs in the clause set
        let i = choose|i: int| 0 <= i < data@.len() && (#[trigger] data@[i])@.contains(xl);
        assert(lits_vars(data@[i]@).contains(v0));
        assert(dvars.contains(v0));
        assert(!pvars.contains(v0));
        lemma_path_map_dom(path@, v0);
        assert(!pmap.dom().contains(v0));
        assert(lit_var(negl) == v0);
        assert(lit_pol(negl) == !lit_pol(xl));
    }
    let valid_pos = is_valide(&chosen, &data);
    let valid_neg = is_valide(&inverted, &data);
    let mut sols: Vec<Posibility> = Vec::new();
    let ghost mut s1: Seq<Posibility> = Seq::empty();
    let ghost mut s2: Seq<Posibility> = Seq::empty();
    if valid_pos {
        let new_data = reduce_clauses(&data, &chosen);
        let mut new_path = dup_atoms(&path);
        let ghost nd = new_data@;
        new_path.push(chosen);
        let ghost np = new_path@;
        proof {
            assert(np =~= path@.push(np[np.len() - 1]));
            assert(np.last() == np[np.len() - 1]);
            assert(lit_of(np.last()) == xl);
            lemma_branch_preconditions(data@, path@, np, nd, xl);
        }
        let mut sub = backtrack(new_data, new_path);
        let ghost subv = sub@;
        proof {
            lemma_branch_summary(data@, path@, nd, np, subv, xl);
            s1 = subv;
        }
        sols.append(&mut sub);
        proof {
            assert(sols@ =~= s1);
        }
    } else {
        proof {
            let i = choose|i: int|
                0 <= i < data@.len() && (#[trigger] data@[i])@ == Set::empty().insert(negl);
            lemma_blocked_branch(data@, path@, i, xl);
            assert(sols@ =~= s1);
        }
    }
    proof {
        assert(sols@ == s1);
        assert(branch_facts(data@, path@, s1, xl));
    }
    if valid_neg {
        let new_data = reduce_clauses(&data, &inverted);
        let mut new_path = path;
        let ghost nd = new_data@;
        new_path.push(inverted);
        let ghost np = new_path@;
        proof {
            assert(np =~= path@.push(np[np.len() - 1]));
            assert(np.last() == np[np.len() - 1]);
            assert(lit_of(np.last()) == negl);
            assert(lit_var(negl) == v0);
            lemma_branch_preconditions(data@, path@, np, nd, negl);
        }
        let mut sub = backtrack(new_data, new_path);
        let ghost subv = sub@;
        proof {
            lemma_branch_summary(data@, path@, nd, np, subv, negl);
            s2 = subv;
        }
        sols.append(&mut sub);
        proof {
            assert(sols@ =~= s1 + s2);
        }
    } else {
        proof {
            let i = choose|i: int|
                0 <= i < data@.len() && (#[trigger] data@[i])@ == Set::empty().insert(
                    lit_neg(negl),
                );
            lemma_blocked_branch(data@, path@, i, negl);
            assert(sols@ =~= s1 + s2);
        }
    }
    proof {
        assert(sols@ == s1 + s2);
        assert(branch_facts(data@, path@, s2, negl));
        lemma_combine_branches(data@, path@, s1, s2, xl);
        lemma_combine_models(data@, path@, s1, s2, sols@, xl);
        assert(search_models(data@, path@, sols@));
    }
    sols
}


/// The set of variable names referenced anywhere across a list of
/// propositions.
pub open spec fn props_vars(ps: Seq<Proposition>) -> Set<Seq<char>> {
    Set::new(
        |v: Seq<char>|
            exists|i: int| 0 <= i < ps.len() && prop_vars(#[trigger] ps[i]).contains(v),
    )
}

/// The truth value of a list of propositions read as a conjunction.
pub open spec fn props_sat(ps: Seq<Proposition>, a: Map<Seq<char>, bool>) -> bool {
    forall|i: int| 0 <= i < ps.len() ==> prop_sat(#[trigger] ps[i], a)
}

/// A conjunction over one more proposition of a prefix holds exactly when
/// the shorter prefix and the added proposition both hold.
proof fn lemma_props_sat_take_step(ps: Seq<Proposition>, k: int, a: Map<Seq<char>, bool>)
    requires
        0 <= k < ps.len(),
    ensures
        props_sat(ps.take(k + 1), a) == (props_sat(ps.take(k), a) && prop_sat(ps[k], a)),
{
    let p1 = ps.take(k + 1);
    let p0 = ps.take(k);
    if props_sat(p0, a) && prop_sat(ps[k], a) {
        assert forall|i: int| 0 <= i < p1.len() implies prop_sat(#[trigger] p1[i], a) by {
            if i < k {
                assert(p1[i] == p0[i]);
            } else {
                assert(p1[i] == ps[k]);
            }
        }
    }
    if props_sat(p1, a) {
        assert forall|i: int| 0 <= i < p0.len() implies prop_sat(#[trigger] p0[i], a) by {
            assert(p0[i] == p1[i]);
        }
        assert(p1[k] == ps[k]);
        assert(prop_sat(p1[k], a));
    }
}

/// Scanning one more name of a list extends its name set by that name.
proof fn lemma_names_of_take_step(s: Seq<String>, i: int)
    requires
        0 <= i < s.len(),
    ensures
        forall|v: Seq<char>|
            names_of(s.take(i + 1)).contains(v) == (names_of(s.take(i)).contains(v) || s[i]@
                == v),
{
    let t1 = s.take(i + 1);
    let t0 = s.take(i);
    assert forall|v: Seq<char>|
        names_of(t1).contains(v) == (names_of(t0).contains(v) || s[i]@ == v) by {
        if names_of(t0).contains(v) {
            let k = choose|k: int| 0 <= k < t0.len() && (#[trigger] t0[k])@ == v;
            assert(t1[k] == t0[k]);
            assert(names_of(t1).contains(v));
        }
        if s[i]@ == v {
            assert(t1[i] == s[i]);
            assert(names_of(t1).contains(v));
        }
        if names_of(t1).contains(v) {
            let k = choose|k: int| 0 <= k < t1.len() && (#[trigger] t1[k])@ == v;
            if k < i {
                assert(t0[k] == t1[k]);
                assert(names_of(t0).contains(v));
            } else {
                assert(t1[k] == s[i]);
            }
        }
    }
}

/// Whether the list holds the given name.
fn names_contain(list: &Vec<String>, name: &String) -> (r: bool)
    ensures
        r == names_of(list@).contains(name@),
{
    let mut i: usize = 0;
    let mut found = false;
    while i < list.len()
        invariant
            0 <= i <= list@.len(),
            found == exists|k: int| 0 <= k < i && (#[trigger] list@[k])@ == name@,
        decreases list@.len() - i,
    {
        if list[i] == *name {
            found = true;
        }
        i = i + 1;
    }
    found
}

/// Adds a possibility to the list unless an equal assignment is already
/// present, keeping the list free of duplicates.
fn insert_posibility(list: &mut Vec<Posibility>, p: Posibility)
    requires
        forall|i: int| 0 <= i < old(list)@.len() ==> (#[trigger] old(list)@[i]).wf(),
        p.wf(),
    ensures
        (exists|j: int| 0 <= j < old(list)@.len() && (#[trigger] old(list)@[j])@ == p@)
            ==> final(list)@ == old(list)@,
        !(exists|j: int| 0 <= j < old(list)@.len() && (#[trigger] old(list)@[j])@ == p@)
            ==> final(list)@ == old(list)@.push(p),
{
    if !contains_posibility(list, &p) {
        list.push(p);
    }
}

/// One more proposition of a prefix contributes exactly its variables.
proof fn lemma_props_vars_take_step(ps: Seq<Proposition>, i: int)
    requires
        0 <= i < ps.len(),
    ensures
        forall|v: Seq<char>|
            props_vars(ps.take(i + 1)).contains(v) == (props_vars(ps.take(i)).contains(v)
                || prop_vars(ps[i]).contains(v)),
{
    let t1 = ps.take(i + 1);
    let t0 = ps.take(i);
    assert forall|v: Seq<char>|
        props_vars(t1).contains(v) == (props_vars(t0).contains(v) || prop_vars(ps[i]).contains(
            v,
        )) by {
        if props_vars(t0).contains(v) {
            let k = choose|k: int| 0 <= k < t0.len() && prop_vars(#[trigger] t0[k]).contains(v);
            assert(t1[k] == t0[k]);
            assert(props_vars(t1).contains(v));
        }
        if prop_vars(ps[i]).contains(v) {
            assert(t1[i] == ps[i]);
            assert(prop_vars(t1[i]).contains(v));
            assert(props_vars(t1).contains(v));
        }
        if props_vars(t1).contains(v) {
            let k = choose|k: int| 0 <= k < t1.len() && prop_vars(#[trigger] t1[k]).contains(v);
            if k < i {
                assert(t0[k] == t1[k]);
                assert(props_vars(t0).contains(v));
            } else {
                assert(t1[k] == ps[i]);
            }
        }
    }
}

/// Appending a name to a list extends its name set by exactly that name.
proof fn lemma_names_of_push(s: Seq<String>, x: String)
    ensures
        forall|v: Seq<char>|
            names_of(s.push(x)).contains(v) == (names_of(s).contains(v) || x@ == v),
{
    let p = s.push(x);
    assert forall|v: Seq<char>|
        names_of(p).contains(v) == (names_of(s).contains(v) || x@ == v) by {
        if names_of(s).contains(v) {
            let k = choose|k: int| 0 <= k < s.len() && (#[trigger] s[k])@ == v;
            assert(p[k] == s[k]);
            assert(names_of(p).contains(v));
        }
        if x@ == v {
            assert(p[s.len() as int] == x);
            assert(names_of(p).contains(v));
        }
        if names_of(p).contains(v) {
            let k = choose|k: int| 0 <= k < p.len() && (#[trigger] p[k])@ == v;
            if k < s.len() {
                assert(s[k] == p[k]);
                assert(names_of(s).contains(v));
            } else {
                assert(p[k] == x);
            }
        }
    }
}

/// Collects the name of every variable referenced across the propositions,
/// each name once.
fn collect_variables(propositions: &Vec<Proposition>) -> (r: Vec<String>)
    ensures
        names_of(r@) == props_vars(propositions@),
        forall|p: int, q: int| 0 <= p < q < r@.len() ==> (#[trigger] r@[p])@ != (#[trigger] r@[q])@,
{
    let ghost ps = propositions@;
    let mut all: Vec<String> = Vec::new();
    let mut i: usize = 0;
    while i < propositions.len()
        invariant
            propositions@ == ps,
            0 <= i <= ps.len(),
            names_of(all@) == props_vars(ps.take(i as int)),
            forall|p: int, q: int|
                0 <= p < q < all@.len() ==> (#[trigger] all@[p])@ != (#[trigger] all@[q])@,
        decreases ps.len() - i,
    {
        let vs = propositions[i].get_variables();
        let ghost vs0 = vs@;
        let mut j: usize = 0;
        while j < vs.len()
            invariant
                vs@ == vs0,
                names_of(vs0) == prop_vars(ps[i as int]),
                0 <= i < ps.len(),
                0 <= j <= vs0.len(),
                names_of(all@) =~= props_vars(ps.take(i as int)).union(
                    names_of(vs0.take(j as int)),
                ),
                forall|p: int, q: int|
                    0 <= p < q < all@.len() ==> (#[trigger] all@[p])@ != (#[trigger] all@[q])@,
            decreases vs0.len() - j,
        {
            proof {
                lemma_names_of_take_step(vs0, j as int);
            }
            if !names_contain(&all, &vs[j]) {
                let ghost a0 = all@;
                all.push(vs[j].clone());
                proof {
                    let x = all@[all@.len() - 1];
                    assert(all@ =~= a0.push(x));
                    assert(x@ == vs0[j as int]@);
                    lemma_names_of_push(a0, x);
                    assert forall|v: Seq<char>|
                        names_of(all@).contains(v) == props_vars(ps.take(i as int)).union(
                            names_of(vs0.take(j as int + 1)),
                        ).contains(v) by {
                        assert(names_of(a0.push(x)).contains(v) == (names_of(a0).contains(v)
                            || x@ == v));
                        assert(names_of(vs0.take(j as int + 1)).contains(v) == (names_of(
                            vs0.take(j as int),
                        ).contains(v) || vs0[j as int]@ == v));
                    }
                    assert(names_of(all@) =~= props_vars(ps.take(i as int)).union(
                        names_of(vs0.take(j as int + 1)),
                    ));
                    assert forall|p: int, q: int|
                        0 <= p < q < all@.len() implies (#[trigger] all@[p])@ != (
                    #[trigger] all@[q])@ by {
                        if q == all@.len() - 1 {
                            assert(all@[p] == a0[p]);
                            if a0[p]@ == vs0[j as int]@ {
                                assert(names_of(a0).contains(vs0[j as int]@));
                                assert(false);
                            }
                        } else {
                            assert(all@[p] == a0[p]);
                            assert(all@[q] == a0[q]);
                        }
                    }
                }
            } else {
                proof {
                    assert(names_of(all@) =~= props_vars(ps.take(i as int)).union(
                        names_of(vs0.take(j as int + 1)),
                    ));
                }
            }
            j = j + 1;
        }
        proof {
            assert(vs0.take(vs0.len() as int) =~= vs0);
            lemma_props_vars_take_step(ps, i as int);
            assert(names_of(all@) =~= props_vars(ps.take(i as int + 1)));
        }
        i = i + 1;
    }
    proof {
        assert(ps.take(ps.len() as int) =~= ps);
    }
    all
}

/// Rewrites every proposition through negation normal form into CNF clause
/// trees, flattens them into clauses, and concatenates everything into one
/// clause list equivalent to the conjunction of the propositions.
fn build_clauses(propositions: Vec<Proposition>) -> (r: Vec<Clause>)
    ensures
        forall|a: Map<Seq<char>, bool>|
            #[trigger] clauses_sat(r@, a) == props_sat(propositions@, a),
        forall|v: Seq<char>|
            #[trigger] clauses_vars(r@).contains(v) ==> props_vars(propositions@).contains(v),
{
    let ghost ps = propositions@;
    let mut clauses: Vec<Clause> = Vec::new();
    let mut rest = propositions;
    let ghost mut k: int = 0;
    while rest.len() > 0
        invariant
            0 <= k <= ps.len(),
            rest@ =~= ps.skip(k),
            rest@.len() == ps.len() - k,
            forall|a: Map<Seq<char>, bool>|
                #[trigger] clauses_sat(clauses@, a) == props_sat(ps.take(k), a),
            forall|v: Seq<char>|
                #[trigger] clauses_vars(clauses@).contains(v) ==> props_vars(ps).contains(v),
        decreases rest@.len(),
    {
        let proposition = rest.remove(0);
        proof {
            assert(proposition == ps[k]);
        }
        let nnf = PropositionNNF::from(proposition);
        let cnf = PropositionCNF::from_nnf(nnf);
        let ghost cnfv = cnf@;
        let mut new_clauses = Clause::from_cnf(cnf);
        let ghost ncv = new_clauses@;
        let ghost c0 = clauses@;
        clauses.append(&mut new_clauses);
        proof {
            assert(clauses@ =~= c0 + ncv);
            assert(cnfv == cnf_of(nnf_of(ps[k])));
            assert forall|a: Map<Seq<char>, bool>|
                #[trigger] clauses_sat(clauses@, a) == props_sat(ps.take(k + 1), a) by {
                lemma_clauses_sat_concat(c0, ncv, a);
                lemma_props_sat_take_step(ps, k, a);
                lemma_nnf_of_preserves_sat(ps[k], a);
                lemma_cnf_of_sat(nnf_of(ps[k]), a);
                assert forall|ci: int| 0 <= ci < ncv.len() implies clause_sat(
                    (#[trigger] ncv[ci]).0@,
                    a,
                ) == cnf_clause_sat(cnfv[ci], a) by {
                    lemma_atoms_of_sat(cnfv[ci], a);
                }
                if clauses_sat(ncv, a) {
                    assert forall|ci: int| 0 <= ci < cnfv.len() implies cnf_clause_sat(
                        #[trigger] cnfv[ci],
                        a,
                    ) by {
                        assert(clause_sat(ncv[ci].0@, a));
                    }
                }
                if cnf_seq_sat(cnfv, a) {
                    assert forall|ci: int| 0 <= ci < ncv.len() implies clause_sat(
                        (#[trigger] ncv[ci]).0@,
                        a,
                    ) by {
                        assert(cnf_clause_sat(cnfv[ci], a));
                    }
                }
                assert(clauses_sat(ncv, a) == cnf_seq_sat(cnfv, a));
            }
            assert forall|v: Seq<char>|
                #[trigger] clauses_vars(clauses@).contains(v) implies props_vars(ps).contains(
                v,
            ) by {
                lemma_clauses_vars_concat(c0, ncv);
                if clauses_vars(ncv).contains(v) {
                    let (ci, j) = choose|ci: int, j: int|
                        0 <= ci < ncv.len() && 0 <= j < ncv[ci].0@.len() && atom_vars(
                            #[trigger] ncv[ci].0@[j],
                        ).contains(v);
                    lemma_atoms_of_vars(cnfv[ci], v);
                    lemma_cnf_of_vars(nnf_of(ps[k]));
                    lemma_nnf_of_vars(ps[k]);
                    assert(prop_vars(ps[k]).contains(v));
                    assert(props_vars(ps).contains(v));
                }
            }
            k = k + 1;
        }
    }
    proof {
        assert(ps.take(ps.len() as int) =~= ps);
    }
    clauses
}

/// Inserting a possibility if absent keeps the list's assignments
/// pairwise distinct and extends what the list covers by exactly the new
/// assignment.
proof fn lemma_insert_pos(olds: Seq<Posibility>, news: Seq<Posibility>, cand: Posibility)
    requires
        (exists|j: int| 0 <= j < olds.len() && (#[trigger] olds[j])@ == cand@) ==> news == olds,
        !(exists|j: int| 0 <= j < olds.len() && (#[trigger] olds[j])@ == cand@) ==> news
            == olds.push(cand),
        forall|i: int| 0 <= i < olds.len() ==> (#[trigger] olds[i]).wf(),
        cand.wf(),
        forall|i: int, j: int| 0 <= i < j < olds.len() ==> (#[trigger] olds[i])@ != (
        #[trigger] olds[j])@,
    ensures
        forall|i: int| 0 <= i < news.len() ==> (#[trigger] news[i]).wf(),
        forall|i: int, j: int| 0 <= i < j < news.len() ==> (#[trigger] news[i])@ != (
        #[trigger] news[j])@,
        forall|i: int|
            0 <= i < news.len() ==> (#[trigger] news[i])@ == cand@ || exists|j: int|
                0 <= j < olds.len() && (#[trigger] olds[j])@ == news[i]@,
{
    if exists|j: int| 0 <= j < olds.len() && (#[trigger] olds[j])@ == cand@ {
        assert forall|i: int| 0 <= i < news.len() implies (#[trigger] news[i])@ == cand@
            || exists|j: int| 0 <= j < olds.len() && (#[trigger] olds[j])@ == news[i]@ by {
            assert(olds[i]@ == news[i]@);
        }
    } else {
        assert(news == olds.push(cand));
        assert forall|i: int| 0 <= i < news.len() implies (#[trigger] news[i]).wf() by {
            if i < olds.len() {
                assert(news[i] == olds[i]);
            } else {
                assert(news[i] == cand);
            }
        }
        assert forall|i: int, j: int| 0 <= i < j < news.len() implies (#[trigger] news[i])@ != (
        #[trigger] news[j])@ by {
            if j == news.len() - 1 {
                assert(news[i] == olds[i]);
                assert(news[j] == cand);
            } else {
                assert(news[i] == olds[i]);
                assert(news[j] == olds[j]);
            }
        }
        assert forall|i: int| 0 <= i < news.len() implies (#[trigger] news[i])@ == cand@
            || exists|j: int| 0 <= j < olds.len() && (#[trigger] olds[j])@ == news[i]@ by {
            if i < olds.len() {
                assert(olds[i]@ == news[i]@);
            } else {
                assert(news[i] == cand);
            }
        }
    }
}

/// What the insertion covers, for one given assignment: the new list has
/// an element contained in the assignment exactly when the old list had
/// one or the inserted possibility is contained in it.
proof fn lemma_insert_pos_covers(
    olds: Seq<Posibility>,
    news: Seq<Posibility>,
    cand: Posibility,
    a: Map<Seq<char>, bool>,
)
    requires
        (exists|j: int| 0 <= j < olds.len() && (#[trigger] olds[j])@ == cand@) ==> news == olds,
        !(exists|j: int| 0 <= j < olds.len() && (#[trigger] olds[j])@ == cand@) ==> news
            == olds.push(cand),
    ensures
        (exists|i: int| 0 <= i < news.len() && (#[trigger] news[i])@.submap_of(a)) == ((exists|
        i: int| 0 <= i < olds.len() && (#[trigger] olds[i])@.submap_of(a)) || cand@.submap_of(
            a,
        )),
{
    if exists|j: int| 0 <= j < olds.len() && (#[trigger] olds[j])@ == cand@ {
        let j0 = choose|j: int| 0 <= j < olds.len() && (#[trigger] olds[j])@ == cand@;
        if cand@.submap_of(a) {
            assert(olds[j0]@.submap_of(a));
        }
    } else {
        assert(news == olds.push(cand));
        if exists|i: int| 0 <= i < news.len() && (#[trigger] news[i])@.submap_of(a) {
            let i = choose|i: int| 0 <= i < news.len() && (#[trigger] news[i])@.submap_of(a);
            if i < olds.len() {
                assert(olds[i] == news[i]);
                assert(olds[i]@.submap_of(a));
            } else {
                assert(news[i] == cand);
            }
        }
        if exists|i: int| 0 <= i < olds.len() && (#[trigger] olds[i])@.submap_of(a) {
            let i = choose|i: int| 0 <= i < olds.len() && (#[trigger] olds[i])@.submap_of(a);
            assert(news[i] == olds[i]);
            assert(news[i]@.submap_of(a));
        }
        if cand@.submap_of(a) {
            assert(news[olds.len() as int] == cand);
            assert(news[olds.len() as int]@.submap_of(a));
        }
    }
}

/// Expands every partial assignment over the missing variables: a variable
/// absent from a possibility is unconstrained, so the possibility is
/// replaced by its two extensions, until every possibility binds every
/// variable. Equal assignments arising from different expansions collapse
/// to one entry.
#[verifier::rlimit(100)]
#[verifier::spinoff_prover]
fn complete_assignments(partial: Vec<Posibility>, all_variables: &Vec<String>) -> (r: Vec<
    Posibility,
>)
    requires
        forall|i: int| 0 <= i < partial@.len() ==> (#[trigger] partial@[i]).wf(),
        forall|i: int|
            0 <= i < partial@.len() ==> (#[trigger] partial@[i])@.dom().subset_of(
                names_of(all_variables@),
            ),
        forall|i: int, j: int|
            0 <= i < j < partial@.len() ==> (#[trigger] partial@[i])@ != (
            #[trigger] partial@[j])@,
    ensures
        forall|i: int| 0 <= i < r@.len() ==> (#[trigger] r@[i]).wf(),
        forall|i: int| 0 <= i < r@.len() ==> (#[trigger] r@[i])@.dom() == names_of(all_variables@),
        forall|i: int, j: int|
            0 <= i < j < r@.len() ==> (#[trigger] r@[i])@ != (#[trigger] r@[j])@,
        forall|a: Map<Seq<char>, bool>|
            #![trigger a.dom()]
            a.dom() == names_of(all_variables@) ==> ((exists|i: int|
                0 <= i < r@.len() && (#[trigger] r@[i])@.submap_of(a)) == (exists|i: int|
                0 <= i < partial@.len() && (#[trigger] partial@[i])@.submap_of(a))),
        r@.len() > 0 ==> partial@.len() > 0,
        partial@.len() > 0 ==> r@.len() > 0,
{
    let ghost p0 = partial@;
    let ghost av = all_variables@;
    let mut models = partial;
    let mut w: usize = 0;
    while w < all_variables.len()
        invariant
            all_variables@ == av,
            0 <= w <= av.len(),
            forall|i: int| 0 <= i < models@.len() ==> (#[trigger] models@[i]).wf(),
            forall|i: int|
                0 <= i < models@.len() ==> (#[trigger] models@[i])@.dom().subset_of(
                    names_of(av),
                ),
            forall|i: int|
                0 <= i < models@.len() ==> names_of(av.take(w as int)).subset_of(
                    (#[trigger] models@[i])@.dom(),
                ),
            forall|i: int, j: int|
                0 <= i < j < models@.len() ==> (#[trigger] models@[i])@ != (
                #[trigger] models@[j])@,
            forall|a: Map<Seq<char>, bool>|
                #![trigger a.dom()]
                a.dom() == names_of(av) ==> ((exists|i: int|
                    0 <= i < models@.len() && (#[trigger] models@[i])@.submap_of(a)) == (
                exists|i: int| 0 <= i < p0.len() && (#[trigger] p0[i])@.submap_of(a))),
            models@.len() > 0 ==> p0.len() > 0,
            p0.len() > 0 ==> models@.len() > 0,
        decreases av.len() - w,
    {
        proof {
            lemma_names_of_take_step(av, w as int);
        }
        let mut next: Vec<Posibility> = Vec::new();
        let mut t: usize = 0;
        while t < models.len()
            invariant
                all_variables@ == av,
                0 <= w < av.len(),
                0 <= t <= models@.len(),
                forall|i: int| 0 <= i < models@.len() ==> (#[trigger] models@[i]).wf(),
                forall|i: int|
                    0 <= i < models@.len() ==> (#[trigger] models@[i])@.dom().subset_of(
                        names_of(av),
                    ),
                forall|i: int|
                    0 <= i < models@.len() ==> names_of(av.take(w as int)).subset_of(
                        (#[trigger] models@[i])@.dom(),
                    ),
                forall|v: Seq<char>|
                    names_of(av.take(w as int + 1)).contains(v) == (names_of(
                        av.take(w as int),
                    ).contains(v) || av[w as int]@ == v),
                forall|i: int| 0 <= i < next@.len() ==> (#[trigger] next@[i]).wf(),
                forall|i: int|
                    0 <= i < next@.len() ==> (#[trigger] next@[i])@.dom().subset_of(
                        names_of(av),
                    ),
                forall|i: int|
                    0 <= i < next@.len() ==> names_of(av.take(w as int + 1)).subset_of(
                        (#[trigger] next@[i])@.dom(),
                    ),
                forall|i: int, j: int|
                    0 <= i < j < next@.len() ==> (#[trigger] next@[i])@ != (
                    #[trigger] next@[j])@,
                forall|a: Map<Seq<char>, bool>|
                    #![trigger a.dom()]
                    a.dom() == names_of(av) ==> ((exists|i: int|
                        0 <= i < next@.len() && (#[trigger] next@[i])@.submap_of(a)) == (
                    exists|i: int| 0 <= i < t && (#[trigger] models@[i])@.submap_of(a))),
                next@.len() > 0 ==> models@.len() > 0,
                t > 0 ==> next@.len() > 0,
            decreases models@.len() - t,
        {
            let name = &all_variables[w];
            let ghost vw = av[w as int]@;
            let ghost m = models@[t as int]@;
            if models[t].contains_key(name) {
                let cand = models[t].dup();
                let ghost old_next = next@;
                insert_posibility(&mut next, cand);
                proof {
                    lemma_insert_pos(old_next, next@, cand);
                    assert(cand@ == m);
                    assert forall|v: Seq<char>|
                        names_of(av.take(w as int + 1)).contains(v) implies cand@.dom().contains(
                        v,
                    ) by {
                        if v != vw {
                            assert(names_of(av.take(w as int)).contains(v));
                        }
                    }
                    assert forall|i: int| 0 <= i < next@.len() implies (
                    #[trigger] next@[i])@.dom().subset_of(names_of(av)) && names_of(
                        av.take(w as int + 1),
                    ).subset_of(next@[i]@.dom()) by {
                        if next@[i]@ == cand@ {
                        } else {
                            let j = choose|j: int|
                                0 <= j < old_next.len() && (#[trigger] old_next[j])@
                                    == next@[i]@;
                        }
                    }
                    assert forall|a: Map<Seq<char>, bool>|
                        #![trigger a.dom()]
                        a.dom() == names_of(av) implies ((exists|i: int|
                            0 <= i < next@.len() && (#[trigger] next@[i])@.submap_of(a)) == (
                        exists|i: int|
                            0 <= i < t + 1 && (#[trigger] models@[i])@.submap_of(a))) by {
                        lemma_insert_pos_covers(old_next, next@, cand, a);
                        if exists|i: int|
                            0 <= i < t && (#[trigger] models@[i])@.submap_of(a) {
                            let i = choose|i: int|
                                0 <= i < t && (#[trigger] models@[i])@.submap_of(a);
                            assert(0 <= i < t + 1);
                        }
                        if exists|i: int|
                            0 <= i < t + 1 && (#[trigger] models@[i])@.submap_of(a) {
                            let i = choose|i: int|
                                0 <= i < t + 1 && (#[trigger] models@[i])@.submap_of(a);
                            if i < t {
                            } else {
                                assert(cand@.submap_of(a));
                            }
                        }
                    }
                }
            } else {
                proof {
                    assert(!m.dom().contains(vw));
                }
                let cand_t = models[t].with_entry(name, true);
                let ghost old1 = next@;
                insert_posibility(&mut next, cand_t);
                proof {
                    lemma_insert_pos(old1, next@, cand_t);
                }
                let ghost mid = next@;
                let cand_f = models[t].with_entry(name, false);
                insert_posibility(&mut next, cand_f);
                proof {
                    lemma_insert_pos(mid, next@, cand_f);
                    assert(cand_t@ == m.insert(vw, true));
                    assert(cand_f@ == m.insert(vw, false));
                    assert forall|i: int| 0 <= i < next@.len() implies (
                    #[trigger] next@[i])@.dom().subset_of(names_of(av)) && names_of(
                        av.take(w as int + 1),
                    ).subset_of(next@[i]@.dom()) by {
                        assert(names_of(av).contains(vw)) by {
                            assert(av[w as int]@ == vw);
                        }
                        if next@[i]@ == cand_f@ || next@[i]@ == cand_t@ {
                            assert forall|v: Seq<char>|
                                names_of(av.take(w as int + 1)).contains(v) implies next@[
                                i]@.dom().contains(v) by {
                                if v != vw {
                                    assert(names_of(av.take(w as int)).contains(v));
                                }
                            }
                            assert forall|v: Seq<char>|
                                #[trigger] next@[i]@.dom().contains(v) implies names_of(
                                av,
                            ).contains(v) by {
                                if v != vw {
                                    assert(m.dom().contains(v));
                                }
                            }
                        } else {
                            let j = choose|j: int|
                                0 <= j < mid.len() && (#[trigger] mid[j])@ == next@[i]@;
                            if mid[j]@ == cand_t@ {
                                assert forall|v: Seq<char>|
                                    names_of(av.take(w as int + 1)).contains(v) implies next@[
                                    i]@.dom().contains(v) by {
                                    if v != vw {
                                        assert(names_of(av.take(w as int)).contains(v));
                                    }
                                }
                                assert forall|v: Seq<char>|
                                    #[trigger] next@[i]@.dom().contains(v) implies names_of(
                                    av,
                                ).contains(v) by {
                                    if v != vw {
                                        assert(m.dom().contains(v));
                                    }
                                }
                            } else {
                                let j2 = choose|j2: int|
                                    0 <= j2 < old1.len() && (#[trigger] old1[j2])@ == mid[j]@;
                            }
                        }
                    }
                    assert forall|a: Map<Seq<char>, bool>|
                        #![trigger a.dom()]
                        a.dom() == names_of(av) implies ((exists|i: int|
                            0 <= i < next@.len() && (#[trigger] next@[i])@.submap_of(a)) == (
                        exists|i: int|
                            0 <= i < t + 1 && (#[trigger] models@[i])@.submap_of(a))) by {
                        lemma_insert_pos_covers(old1, mid, cand_t, a);
                        lemma_insert_pos_covers(mid, next@, cand_f, a);
                        assert(names_of(av).contains(vw)) by {
                            assert(av[w as int]@ == vw);
                        }
                        assert(a.dom().contains(vw));
                        lemma_insert_submap(m, vw, true, a);
                        lemma_insert_submap(m, vw, false, a);
                        assert((cand_t@.submap_of(a) || cand_f@.submap_of(a)) == m.submap_of(
                            a,
                        ));
                        if exists|i: int|
                            0 <= i < t && (#[trigger] models@[i])@.submap_of(a) {
                            let i = choose|i: int|
                                0 <= i < t && (#[trigger] models@[i])@.submap_of(a);
                            assert(0 <= i < t + 1);
                        }
                        if exists|i: int|
                            0 <= i < t + 1 && (#[trigger] models@[i])@.submap_of(a) {
                            let i = choose|i: int|
                                0 <= i < t + 1 && (#[trigger] models@[i])@.submap_of(a);
                            if i < t {
                            } else {
                                assert(m.submap_of(a));
                            }
                        }
                    }
                }
            }
            t = t + 1;
        }
        let ghost old_models = models@;
        models = next;
        proof {
            assert forall|a: Map<Seq<char>, bool>|
                #![trigger a.dom()]
                a.dom() == names_of(av) implies ((exists|i: int|
                    0 <= i < models@.len() && (#[trigger] models@[i])@.submap_of(a)) == (
                exists|i: int| 0 <= i < p0.len() && (#[trigger] p0[i])@.submap_of(a))) by {
                assert((exists|i: int|
                    0 <= i < models@.len() && (#[trigger] models@[i])@.submap_of(a)) == (
                exists|i: int|
                    0 <= i < old_models.len() && (#[trigger] old_models[i])@.submap_of(a)));
                assert((exists|i: int|
                    0 <= i < old_models.len() && (#[trigger] old_models[i])@.submap_of(a)) == (
                exists|i: int| 0 <= i < p0.len() && (#[trigger] p0[i])@.submap_of(a)));
            }
        }
        w = w + 1;
    }
    proof {
        assert(av.take(av.len() as int) =~= av);
        assert forall|i: int| 0 <= i < models@.len() implies (#[trigger] models@[i])@.dom()
            == names_of(av) by {
            assert(models@[i]@.dom() =~= names_of(av));
        }
        assert forall|a: Map<Seq<char>, bool>|
            #![trigger a.dom()]
            a.dom() == names_of(all_variables@) implies ((exists|i: int|
                0 <= i < models@.len() && (#[trigger] models@[i])@.submap_of(a)) == (exists|
            i: int| 0 <= i < p0.len() && (#[trigger] p0[i])@.submap_of(a))) by {
        }
    }
    models
}

/// Solves a set of logical propositions, read as one conjunction, and
/// returns every assignment of truth values to every referenced variable
/// that makes all of them true at once.
///
/// `NoVariable` reports an input without any variable; `Unsatisfiable`
/// reports that no assignment over the referenced variables satisfies the
/// propositions. Otherwise the returned possibilities are pairwise
/// distinct, each covers exactly the referenced variables, each satisfies
/// every proposition, and every satisfying assignment appears among them.
#[verifier::rlimit(100)]
#[verifier::spinoff_prover]
pub fn solve(propositions: Vec<Proposition>) -> (r: Result<Vec<Posibility>, SolveError>)
    ensures
        match r {
            Ok(models) => {
                &&& props_vars(propositions@) != Set::<Seq<char>>::empty()
                &&& models@.len() > 0
                &&& forall|i: int| 0 <= i < models@.len() ==> (#[trigger] models@[i]).wf()
                &&& forall|i: int|
                    0 <= i < models@.len() ==> (#[trigger] models@[i])@.dom() == props_vars(
                        propositions@,
                    )
                &&& forall|i: int|
                    0 <= i < models@.len() ==> props_sat(propositions@, (#[trigger] models@[i])@)
                &&& forall|a: Map<Seq<char>, bool>|
                    #![trigger a.dom()]
                    a.dom() == props_vars(propositions@) && props_sat(propositions@, a)
                        ==> exists|i: int|
                        0 <= i < models@.len() && (#[trigger] models@[i])@ == a
                &&& forall|i: int, j: int|
                    0 <= i < j < models@.len() ==> (#[trigger] models@[i])@ != (
                    #[trigger] models@[j])@
            },
            Err(SolveError::NoVariable) => props_vars(propositions@) == Set::<Seq<char>>::empty(),
            Err(SolveError::Unsatisfiable) => {
                &&& props_vars(propositions@) != Set::<Seq<char>>::empty()
                &&& forall|a: Map<Seq<char>, bool>|
                    #![trigger a.dom()]
                    a.dom() == props_vars(propositions@) ==> !props_sat(propositions@, a)
            },
        },
{
    let ghost ps = propositions@;
    let all_variables = collect_variables(&propositions);
    let ghost av = all_variables@;
    if all_variables.len() == 0 {
        proof {
            assert(names_of(av) =~= Set::<Seq<char>>::empty());
        }
        return Err(SolveError::NoVariable);
    }
    proof {
        assert(names_of(av).contains(av[0]@));
        assert(props_vars(ps).contains(av[0]@));
        assert(props_vars(ps) != Set::<Seq<char>>::empty()) by {
            if props_vars(ps) == Set::<Seq<char>>::empty() {
                assert(!Set::<Seq<char>>::empty().contains(av[0]@));
            }
        }
    }
    let clauses = build_clauses(propositions);
    let ghost cls = clauses@;
    let simplified = simplificated_clauses_from_clauses(clauses);
    match simplified {
        None => {
            proof {
                assert forall|a: Map<Seq<char>, bool>| #![trigger a.dom()]
                    a.dom() == props_vars(ps) implies !props_sat(ps, a) by {
                    assert(!clauses_sat(cls, a));
                }
            }
            Err(SolveError::Unsatisfiable)
        },
        Some(scs) => {
            let ghost scsv = scs@;
            let ghost epath = Seq::<SimplificatedAtom>::empty();
            proof {
                assert(path_wf(epath));
                assert forall|v: Seq<char>| #[trigger]
                    sclauses_vars(scsv).contains(v) implies !path_vars(epath).contains(v) by {
                    if path_vars(epath).contains(v) {
                        let i = choose|i: int|
                            0 <= i < epath.len() && lit_var(lit_of(#[trigger] epath[i])) == v;
                        assert(false);
                    }
                }
                assert forall|v: Seq<char>| #[trigger] sclauses_vars(scsv).contains(
                    v,
                ) implies names_of(av).contains(v) by {
                    let i = choose|i: int|
                        0 <= i < scsv.len() && lits_vars((#[trigger] scsv[i])@).contains(v);
                    assert(lits_vars(scsv[i]@).subset_of(clauses_vars(cls)));
                    assert(clauses_vars(cls).contains(v));
                    assert(props_vars(ps).contains(v));
                }
            }
            let empty_path: Vec<SimplificatedAtom> = Vec::new();
            let partial = backtrack(scs, empty_path);
            let ghost pt = partial@;
            proof {
                assert forall|i: int| 0 <= i < pt.len() implies (
                #[trigger] pt[i])@.dom().subset_of(names_of(av)) by {
                    assert(pt[i]@.dom().subset_of(sclauses_vars(scsv).union(path_vars(epath))));
                    assert forall|v: Seq<char>| #[trigger] pt[i]@.dom().contains(
                        v,
                    ) implies names_of(av).contains(v) by {
                        assert(sclauses_vars(scsv).union(path_vars(epath)).contains(v));
                        if path_vars(epath).contains(v) {
                            let q = choose|q: int|
                                0 <= q < epath.len() && lit_var(lit_of(#[trigger] epath[q]))
                                    == v;
                            assert(false);
                        }
                    }
                }
                assert(path_map(epath) == Map::<Seq<char>, bool>::empty());
            }
            let models = complete_assignments(partial, &all_variables);
            if models.len() == 0 {
                proof {
                    assert forall|a: Map<Seq<char>, bool>| #![trigger a.dom()]
                        a.dom() == props_vars(ps) implies !props_sat(ps, a) by {
                        assert(a.dom() == names_of(av));
                        assert(!(exists|i: int|
                            0 <= i < models@.len() && (#[trigger] models@[i])@.submap_of(a)));
                        assert(!(exists|i: int|
                            0 <= i < pt.len() && (#[trigger] pt[i])@.submap_of(a)));
                        assert forall|v: Seq<char>| #[trigger]
                            sclauses_vars(scsv).union(path_vars(epath)).contains(
                            v,
                        ) implies a.dom().contains(v) by {
                            if path_vars(epath).contains(v) {
                                let q = choose|q: int|
                                    0 <= q < epath.len() && lit_var(
                                        lit_of(#[trigger] epath[q]),
                                    ) == v;
                                assert(false);
                            }
                        }
                        assert(sclauses_vars(scsv).union(path_vars(epath)).subset_of(a.dom()));
                        assert(Map::<Seq<char>, bool>::empty().submap_of(a));
                        assert(!(sclauses_sat(scsv, a) && path_map(epath).submap_of(a)));
                        assert(!sclauses_sat(scsv, a));
                        assert(!clauses_sat(cls, a));
                    }
                }
                Err(SolveError::Unsatisfiable)
            } else {
                proof {
                    assert forall|i: int| 0 <= i < models@.len() implies (
                    #[trigger] models@[i])@.dom() == props_vars(ps) by {
                        assert(models@[i]@.dom() == names_of(av));
                        assert(names_of(av) == props_vars(ps));
                    }
                    assert forall|i: int| 0 <= i < models@.len() implies props_sat(
                        ps,
                        (#[trigger] models@[i])@,
                    ) by {
                        let a = models@[i]@;
                        assert(a.dom() == names_of(av));
                        assert(a.submap_of(a));
                        assert(exists|q: int|
                            0 <= q < models@.len() && (#[trigger] models@[q])@.submap_of(a));
                        assert(exists|q: int|
                            0 <= q < pt.len() && (#[trigger] pt[q])@.submap_of(a));
                        assert forall|v: Seq<char>| #[trigger]
                            sclauses_vars(scsv).union(path_vars(epath)).contains(
                            v,
                        ) implies a.dom().contains(v) by {
                            if path_vars(epath).contains(v) {
                                let q2 = choose|q2: int|
                                    0 <= q2 < epath.len() && lit_var(
                                        lit_of(#[trigger] epath[q2]),
                                    ) == v;
                                assert(false);
                            }
                        }
                        assert(sclauses_vars(scsv).union(path_vars(epath)).subset_of(a.dom()));
                        assert(sclauses_sat(scsv, a) && path_map(epath).submap_of(a));
                        assert(clauses_sat(cls, a));
                    }
                    assert forall|a: Map<Seq<char>, bool>| #![trigger a.dom()]
                        a.dom() == props_vars(ps) && props_sat(ps, a) implies exists|i: int|
                        0 <= i < models@.len() && (#[trigger] models@[i])@ == a by {
                        assert(clauses_sat(cls, a));
                        assert(sclauses_sat(scsv, a));
                        assert forall|v: Seq<char>| #[trigger]
                            sclauses_vars(scsv).union(path_vars(epath)).contains(
                            v,
                        ) implies a.dom().contains(v) by {
                            if path_vars(epath).contains(v) {
                                let q2 = choose|q2: int|
                                    0 <= q2 < epath.len() && lit_var(
                                        lit_of(#[trigger] epath[q2]),
                                    ) == v;
                                assert(false);
                            }
                        }
                        assert(sclauses_vars(scsv).union(path_vars(epath)).subset_of(a.dom()));
                        assert(Map::<Seq<char>, bool>::empty().submap_of(a));
                        assert(exists|q: int|
                            0 <= q < pt.len() && (#[trigger] pt[q])@.submap_of(a));
                        assert(a.dom() == names_of(av));
                        assert(exists|q: int|
                            0 <= q < models@.len() && (#[trigger] models@[q])@.submap_of(a));
                        let i = choose|i: int|
                            0 <= i < models@.len() && (#[trigger] models@[i])@.submap_of(a);
                        assert(models@[i]@.dom() == names_of(av));
                        assert forall|k: Seq<char>| #[trigger] a.dom().contains(k) implies
                            models@[i]@.dom().contains(k) && models@[i]@[k] == a[k] by {}
                        assert(models@[i]@ =~= a);
                    }
                }
                Ok(models)
            }
        },
    }
}

} // verus!
