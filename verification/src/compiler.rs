//! Compilation of a Bayesian network to a CNF with per-literal weights.
//!
//! [`BayesianNetworkCNF::from_bayesian_network`] walks the variables in
//! topological order and, for every variable value, allocates an indicator
//! literal and, for every joint parent assignment, a parameter literal whose
//! weight carries the matching CPT entry; clauses tie each parameter literal
//! to the conjunction of its indicators, and an exactly-one constraint ranges
//! over every variable's indicators.

use vstd::prelude::*;

use crate::bayesian_network::{
    index_result_matches, lemma_assignment_cols, lemma_assignments_len, lemma_assoc_find_first,
    lemma_topo_from_sound, lemma_wf_parents_doms_ok, lemma_width_nonneg, table_width,
    BayesianNetwork, NetworkModel,
};
use crate::text::{
    distinct_names, find_name, lemma_find_name, lemma_find_name_first, lemma_find_name_self,
    str_eq,
};
use crate::{NetworkError, Prob, PROB_ONE_BITS};

verus! {

/// A signed propositional literal over the encoder's dense literal-id space.
#[derive(Clone, Copy, Debug, PartialEq, Eq, Structural, Hash)]
pub struct Literal {
    /// Identifier of the propositional variable.
    pub var: usize,
    /// `true` for the positive literal, `false` for the negated one.
    pub positive: bool,
}

/// The weights a literal contributes to a weighted model count when it is
/// assigned false and when it is assigned true.
#[derive(Clone, Copy, Debug, PartialEq, Eq, Structural, Hash)]
pub struct WeightPair {
    /// Weight of models that set the literal's variable to false.
    pub when_false: Prob,
    /// Weight of models that set the literal's variable to true.
    pub when_true: Prob,
}

/// The weight pair `(1, 1)`, which leaves a model count unchanged.
pub open spec fn unit_weights() -> WeightPair {
    WeightPair {
        when_false: Prob { bits: PROB_ONE_BITS },
        when_true: Prob { bits: PROB_ONE_BITS },
    }
}

/// The literal of variable `v`, positive when `positive`.
pub open spec fn slit(v: int, positive: bool) -> Literal {
    Literal { var: v as usize, positive }
}

/// The same literal with the opposite sign.
pub open spec fn negate(l: Literal) -> Literal {
    Literal { var: l.var, positive: !l.positive }
}

/// Every literal of `c`, with the opposite sign.
pub open spec fn negate_all(c: Seq<Literal>) -> Seq<Literal> {
    Seq::new(c.len(), |i: int| negate(c[i]))
}

/// The CNF of `lhs ==> rhs` for two conjunctions of literals: one clause per
/// literal of `rhs`, each the negation of all of `lhs` followed by that
/// literal.
pub open spec fn implies_spec(lhs: Seq<Literal>, rhs: Seq<Literal>) -> Seq<Seq<Literal>> {
    Seq::new(rhs.len(), |k: int| negate_all(lhs).push(rhs[k]))
}

/// The pairwise exclusion clauses `[!lits[x], !lits[y]]` for `x < y`, with
/// `x` fixed and `y` ranging over `(y0, len)`.
pub open spec fn pairwise_inner(lits: Seq<Literal>, x: int, y0: int) -> Seq<Seq<Literal>>
    decreases lits.len() - y0,
{
    if y0 >= lits.len() || y0 < 0 {
        Seq::empty()
    } else {
        seq![seq![negate(lits[x]), negate(lits[y0])]] + pairwise_inner(lits, x, y0 + 1)
    }
}

/// The pairwise exclusion clauses for every pair `x < y` with `x >= x0`, in
/// ascending order of `x`, then `y`.
pub open spec fn pairwise_from(lits: Seq<Literal>, x0: int) -> Seq<Seq<Literal>>
    decreases lits.len() - x0,
{
    if x0 >= lits.len() || x0 < 0 {
        Seq::empty()
    } else {
        pairwise_inner(lits, x0, x0 + 1) + pairwise_from(lits, x0 + 1)
    }
}

/// The exactly-one constraint over `lits`: the disjunction of all of them,
/// then one exclusion clause per unordered pair.
pub open spec fn exactly_one_spec(lits: Seq<Literal>) -> Seq<Seq<Literal>> {
    seq![lits] + pairwise_from(lits, 0)
}

/// Number of exclusion clauses with first index `x0` or later:
/// `(n-x0) * (n-x0-1) / 2`.
pub proof fn lemma_pairwise_inner_len(lits: Seq<Literal>, x: int, y0: int)
    requires
        0 <= y0 <= lits.len(),
    ensures
        pairwise_inner(lits, x, y0).len() == lits.len() - y0,
    decreases lits.len() - y0,
{
    if y0 < lits.len() {
        lemma_pairwise_inner_len(lits, x, y0 + 1);
    }
}

/// A product of two consecutive integers halves exactly.
proof fn lemma_half_mult(a: int)
    ensures
        2 * (a * (a - 1) / 2) == a * (a - 1),
{
    let q = a / 2;
    let r = a % 2;
    vstd::arithmetic::div_mod::lemma_fundamental_div_mod(a, 2);
    if r == 0 {
        assert(a * (a - 1) == 2 * (q * (a - 1))) by (nonlinear_arith)
            requires
                a == 2 * q,
        ;
        vstd::arithmetic::div_mod::lemma_div_multiples_vanish(q * (a - 1), 2);
    } else {
        assert(a * (a - 1) == 2 * (a * q)) by (nonlinear_arith)
            requires
                a - 1 == 2 * q,
        ;
        vstd::arithmetic::div_mod::lemma_div_multiples_vanish(a * q, 2);
    }
}

/// The exclusion clauses number `n * (n-1) / 2` for `n` literals.
pub proof fn lemma_pairwise_from_len(lits: Seq<Literal>, x0: int)
    requires
        0 <= x0 <= lits.len(),
    ensures
        pairwise_from(lits, x0).len() == (lits.len() - x0) * (lits.len() - x0 - 1) / 2,
    decreases lits.len() - x0,
{
    if x0 < lits.len() {
        lemma_pairwise_inner_len(lits, x0, x0 + 1);
        lemma_pairwise_from_len(lits, x0 + 1);
        let k = lits.len() - x0;
        lemma_half_mult(k);
        lemma_half_mult(k - 1);
        assert(pairwise_from(lits, x0).len() == (k - 1) + pairwise_from(lits, x0 + 1).len());
        assert(pairwise_from(lits, x0 + 1).len() == (k - 1) * ((k - 1) - 1) / 2);
        assert(k * (k - 1) == (k - 1) * ((k - 1) - 1) + 2 * (k - 1)) by (nonlinear_arith);
        assert((k - 1) + (k - 1) * ((k - 1) - 1) / 2 == k * (k - 1) / 2);
        assert(pairwise_from(lits, x0).len() == (lits.len() - x0) * (lits.len() - x0 - 1) / 2);
    } else {
        assert(pairwise_from(lits, x0).len() == 0);
        assert((lits.len() - x0) * (lits.len() - x0 - 1) == 0) by (nonlinear_arith)
            requires
                lits.len() - x0 == 0,
        ;
    }
}

/// The exactly-one constraint over `n` literals has `1 + n*(n-1)/2` clauses.
pub proof fn lemma_exactly_one_count(lits: Seq<Literal>)
    ensures
        exactly_one_spec(lits).len() == 1 + lits.len() * (lits.len() - 1) / 2,
{
    lemma_pairwise_from_len(lits, 0);
}

/// Whether the truth assignment `f` satisfies the literal.
pub open spec fn lit_sat(f: spec_fn(int) -> bool, l: Literal) -> bool {
    f(l.var as int) == l.positive
}

/// Whether the truth assignment `f` satisfies the clause: some literal of it
/// holds.
pub open spec fn clause_sat(f: spec_fn(int) -> bool, c: Seq<Literal>) -> bool {
    exists|i: int| 0 <= i < c.len() && lit_sat(f, #[trigger] c[i])
}

/// Whether the truth assignment `f` satisfies every clause.
pub open spec fn all_sat(f: spec_fn(int) -> bool, cs: Seq<Seq<Literal>>) -> bool {
    forall|i: int| 0 <= i < cs.len() ==> clause_sat(f, #[trigger] cs[i])
}

/// The biconditional law: the two implication blocks between a single
/// positive literal and a conjunction of literals are all satisfied exactly
/// when the literal is true precisely where the whole conjunction is.  The
/// parameter clauses of the encoding are such blocks, so in every model of
/// the CNF a parameter literal is true exactly when its indicators all are.
pub proof fn lemma_biconditional_sat(p: Literal, c: Seq<Literal>, f: spec_fn(int) -> bool)
    requires
        p.positive,
    ensures
        all_sat(f, implies_spec(seq![p], c) + implies_spec(c, seq![p])) <==> (f(p.var as int)
            <==> (forall|l: int| 0 <= l < c.len() ==> lit_sat(f, #[trigger] c[l]))),
{
    let fwd = implies_spec(seq![p], c);
    let bwd = implies_spec(c, seq![p]);
    let both = fwd + bwd;
    assert(negate_all(seq![p]).len() == 1);
    assert(negate_all(seq![p])[0] == negate(p));
    assert(bwd.len() == 1);
    assert(bwd[0] == negate_all(c).push(p));
    if all_sat(f, both) {
        // forward: if the literal holds, each conjunct holds
        if f(p.var as int) {
            assert forall|l: int| 0 <= l < c.len() implies lit_sat(f, #[trigger] c[l]) by {
                assert(clause_sat(f, both[l]));
                assert(both[l] == negate_all(seq![p]).push(c[l]));
                let q = choose|q: int| 0 <= q < both[l].len() && lit_sat(f, #[trigger] both[l][q]);
                assert(q == 0 || q == 1);
                assert(!lit_sat(f, negate(p)));
            }
        }
        // backward: if each conjunct holds, the literal holds
        if forall|l: int| 0 <= l < c.len() ==> lit_sat(f, #[trigger] c[l]) {
            assert(clause_sat(f, both[fwd.len() as int]));
            assert(both[fwd.len() as int] == negate_all(c).push(p));
            let q = choose|q: int|
                0 <= q < negate_all(c).push(p).len() && lit_sat(
                    f,
                    #[trigger] negate_all(c).push(p)[q],
                );
            if q < c.len() {
                assert(lit_sat(f, negate(c[q])));
                assert(lit_sat(f, c[q]));
                assert(false);
            }
            assert(f(p.var as int));
        }
    }
    if f(p.var as int) <==> (forall|l: int| 0 <= l < c.len() ==> lit_sat(f, #[trigger] c[l])) {
        assert forall|q: int| 0 <= q < both.len() implies clause_sat(f, #[trigger] both[q]) by {
            if q < fwd.len() {
                assert(both[q] == negate_all(seq![p]).push(c[q]));
                if f(p.var as int) {
                    assert(lit_sat(f, c[q]));
                    assert(both[q][1] == c[q]);
                } else {
                    assert(lit_sat(f, negate(p)));
                    assert(both[q][0] == negate(p));
                }
            } else {
                assert(both[q] == negate_all(c).push(p));
                if forall|l: int| 0 <= l < c.len() ==> lit_sat(f, #[trigger] c[l]) {
                    assert(f(p.var as int));
                    assert(lit_sat(f, both[q][c.len() as int]));
                } else {
                    let l = choose|l: int| 0 <= l < c.len() && !lit_sat(f, #[trigger] c[l]);
                    assert(lit_sat(f, negate(c[l])));
                    assert(both[q][l] == negate(c[l]));
                }
            }
        }
    }
}

/// The exclusion clause of the pair `(x, y)` sits at position `y - y0` of
/// its inner block.
proof fn lemma_pairwise_inner_at(lits: Seq<Literal>, x: int, y0: int, y: int)
    requires
        0 <= y0 <= y < lits.len(),
    ensures
        pairwise_inner(lits, x, y0)[y - y0] == seq![negate(lits[x]), negate(lits[y])],
    decreases y - y0,
{
    if y > y0 {
        lemma_pairwise_inner_at(lits, x, y0 + 1, y);
        lemma_pairwise_inner_len(lits, x, y0 + 1);
    }
}

/// Every unordered pair has its exclusion clause somewhere in the pairwise
/// block; returns its position.
proof fn lemma_pairwise_from_at(lits: Seq<Literal>, x0: int, i: int, j: int) -> (c: int)
    requires
        0 <= x0 <= i < j < lits.len(),
    ensures
        0 <= c < pairwise_from(lits, x0).len(),
        pairwise_from(lits, x0)[c] == seq![negate(lits[i]), negate(lits[j])],
    decreases i - x0,
{
    lemma_pairwise_inner_len(lits, x0, x0 + 1);
    if i == x0 {
        lemma_pairwise_inner_at(lits, x0, x0 + 1, j);
        j - (x0 + 1)
    } else {
        let c0 = lemma_pairwise_from_at(lits, x0 + 1, i, j);
        (lits.len() - x0 - 1) + c0
    }
}

/// Every clause of the pairwise block is the exclusion clause of some pair.
proof fn lemma_pairwise_from_elem(lits: Seq<Literal>, x0: int, c: int)
    requires
        0 <= x0,
        0 <= c < pairwise_from(lits, x0).len(),
    ensures
        exists|i: int, j: int|
            x0 <= i < j < lits.len() && pairwise_from(lits, x0)[c] == seq![
                negate(lits[i]),
                negate(lits[j]),
            ],
    decreases lits.len() - x0,
{
    lemma_pairwise_inner_len(lits, x0, x0 + 1);
    if c < lits.len() - x0 - 1 {
        lemma_pairwise_inner_at(lits, x0, x0 + 1, x0 + 1 + c);
        let i = x0;
        let j = x0 + 1 + c;
        assert(x0 <= i < j < lits.len() && pairwise_from(lits, x0)[c] == seq![
            negate(lits[i]),
            negate(lits[j]),
        ]);
    } else {
        lemma_pairwise_from_elem(lits, x0 + 1, c - (lits.len() - x0 - 1));
        let (i, j) = choose|i: int, j: int|
            x0 + 1 <= i < j < lits.len() && pairwise_from(lits, x0 + 1)[c - (lits.len() - x0 - 1)]
                == seq![negate(lits[i]), negate(lits[j])];
        assert(x0 <= i < j < lits.len() && pairwise_from(lits, x0)[c] == seq![
            negate(lits[i]),
            negate(lits[j]),
        ]);
    }
}

/// The defining law of the exactly-one constraint: a truth assignment
/// satisfies all of its clauses exactly when it makes at least one of the
/// literals true and no two of them true.
pub proof fn lemma_exactly_one_sat(lits: Seq<Literal>, f: spec_fn(int) -> bool)
    requires
        forall|i: int| 0 <= i < lits.len() ==> (#[trigger] lits[i]).positive,
    ensures
        all_sat(f, exactly_one_spec(lits)) <==> ((exists|i: int|
            0 <= i < lits.len() && f(#[trigger] lits[i].var as int)) && (forall|i: int, j: int|
            0 <= i < j < lits.len() ==> !(f(#[trigger] lits[i].var as int) && f(
                #[trigger] lits[j].var as int,
            )))),
{
    let eo = exactly_one_spec(lits);
    if all_sat(f, eo) {
        assert(clause_sat(f, eo[0]));
        assert(eo[0] == lits);
        let w = choose|w: int| 0 <= w < lits.len() && lit_sat(f, #[trigger] lits[w]);
        assert(f(lits[w].var as int));
        assert forall|i: int, j: int| 0 <= i < j < lits.len() implies !(f(
            #[trigger] lits[i].var as int,
        ) && f(#[trigger] lits[j].var as int)) by {
            let c = lemma_pairwise_from_at(lits, 0, i, j);
            assert(eo[c + 1] == seq![negate(lits[i]), negate(lits[j])]);
            assert(clause_sat(f, eo[c + 1]));
            let q = choose|q: int| 0 <= q < eo[c + 1].len() && lit_sat(f, #[trigger] eo[c + 1][q]);
            assert(q == 0 || q == 1);
        }
    }
    if (exists|i: int| 0 <= i < lits.len() && f(#[trigger] lits[i].var as int)) && (forall|
        i: int,
        j: int,
    |
        0 <= i < j < lits.len() ==> !(f(#[trigger] lits[i].var as int) && f(
            #[trigger] lits[j].var as int,
        ))) {
        assert forall|q: int| 0 <= q < eo.len() implies clause_sat(f, #[trigger] eo[q]) by {
            if q == 0 {
                let w = choose|w: int| 0 <= w < lits.len() && f(#[trigger] lits[w].var as int);
                assert(lit_sat(f, lits[w]));
                assert(clause_sat(f, eo[0]));
            } else {
                lemma_pairwise_from_elem(lits, 0, q - 1);
                let (i, j) = choose|i: int, j: int|
                    0 <= i < j < lits.len() && pairwise_from(lits, 0)[q - 1] == seq![
                        negate(lits[i]),
                        negate(lits[j]),
                    ];
                assert(!(f(lits[i].var as int) && f(lits[j].var as int)));
                if f(lits[i].var as int) {
                    assert(lit_sat(f, eo[q][1]));
                } else {
                    assert(lit_sat(f, eo[q][0]));
                }
                assert(clause_sat(f, eo[q]));
            }
        }
    }
}

/// The CNF asserting that the conjunction of `t1` implies the conjunction of
/// `t2`.
pub fn implies(t1: &Vec<Literal>, t2: &Vec<Literal>) -> (r: Vec<Vec<Literal>>)
    ensures
        r@.len() == implies_spec(t1@, t2@).len(),
        forall|k: int| 0 <= k < r@.len() ==> (#[trigger] r@[k])@ == implies_spec(t1@, t2@)[k],
{
    let mut r: Vec<Vec<Literal>> = Vec::new();
    // negate the left-hand side
    let mut lhs: Vec<Literal> = Vec::new();
    let mut i: usize = 0;
    while i < t1.len()
        invariant
            0 <= i <= t1@.len(),
            lhs@.len() == i,
            forall|k: int| 0 <= k < i ==> lhs@[k] == negate_all(t1@)[k],
        decreases t1@.len() - i,
    {
        let l = t1[i];
        lhs.push(Literal { var: l.var, positive: !l.positive });
        i += 1;
    }
    proof {
        assert(lhs@ =~= negate_all(t1@));
    }
    let mut k: usize = 0;
    while k < t2.len()
        invariant
            0 <= k <= t2@.len(),
            lhs@ == negate_all(t1@),
            r@.len() == k,
            forall|q: int| 0 <= q < k ==> (#[trigger] r@[q])@ == implies_spec(t1@, t2@)[q],
        decreases t2@.len() - k,
    {
        let mut new_clause: Vec<Literal> = lhs.clone();
        proof {
            assert(new_clause@ =~= lhs@);
        }
        new_clause.push(t2[k]);
        r.push(new_clause);
        k += 1;
    }
    r
}

/// The CNF asserting that exactly one of `lits` is true.
#[verifier::loop_isolation(false)]
pub fn exactly_one(lits: Vec<Literal>) -> (r: Vec<Vec<Literal>>)
    ensures
        r@.len() == exactly_one_spec(lits@).len(),
        forall|k: int| 0 <= k < r@.len() ==> (#[trigger] r@[k])@ == exactly_one_spec(lits@)[k],
{
    let ghost whole = pairwise_from(lits@, 0);
    let mut r: Vec<Vec<Literal>> = Vec::new();
    // at least one is true
    let first = lits.clone();
    proof {
        assert(first@ =~= lits@);
        assert(whole.take(0) =~= Seq::<Seq<Literal>>::empty());
        assert(whole.take(0) + whole =~= whole);
    }
    r.push(first);
    // no two are both true
    let mut x: usize = 0;
    while x < lits.len()
        invariant
            0 <= x <= lits@.len(),
            1 <= r@.len(),
            r@.len() - 1 <= whole.len(),
            forall|q: int| 0 <= q < r@.len() ==> (#[trigger] r@[q])@ == exactly_one_spec(lits@)[q],
            whole.take(r@.len() - 1) + pairwise_from(lits@, x as int) == whole,
        decreases lits@.len() - x,
    {
        proof {
            assert(whole.take(r@.len() - 1) + (pairwise_inner(lits@, x as int, x as int + 1)
                + pairwise_from(lits@, x as int + 1)) =~= whole.take(r@.len() - 1)
                + pairwise_inner(lits@, x as int, x as int + 1) + pairwise_from(
                lits@,
                x as int + 1,
            ));
        }
        let mut y: usize = x + 1;
        while y < lits.len()
            invariant
                x < y <= lits@.len(),
                1 <= r@.len(),
                r@.len() - 1 <= whole.len(),
                forall|q: int| 0 <= q < r@.len() ==> (#[trigger] r@[q])@ == exactly_one_spec(
                    lits@,
                )[q],
                whole.take(r@.len() - 1) + pairwise_inner(lits@, x as int, y as int)
                    + pairwise_from(lits@, x as int + 1) == whole,
            decreases lits@.len() - y,
        {
            let ghost dc = r@.len() - 1;
            let lx = lits[x];
            let ly = lits[y];
            let clause = vec![
                Literal { var: lx.var, positive: !lx.positive },
                Literal { var: ly.var, positive: !ly.positive },
            ];
            proof {
                assert(clause@ =~= seq![negate(lits@[x as int]), negate(lits@[y as int])]);
                lemma_pairwise_inner_len(lits@, x as int, y as int);
                // the identity forces the consumed prefix to be exactly dc long
                assert(whole.len() == whole.take(dc).len() + pairwise_inner(
                    lits@,
                    x as int,
                    y as int,
                ).len() + pairwise_from(lits@, x as int + 1).len());
                assert(whole.take(dc).len() == dc);
                assert(dc < whole.len());
                assert(whole[dc] == pairwise_inner(lits@, x as int, y as int)[0]);
                assert(whole[dc] == clause@);
                assert(exactly_one_spec(lits@)[dc + 1] == whole[dc]);
            }
            r.push(clause);
            proof {
                assert(whole.take(dc + 1) =~= whole.take(dc).push(whole[dc]));
                assert(pairwise_inner(lits@, x as int, y as int) == seq![clause@]
                    + pairwise_inner(lits@, x as int, y as int + 1));
                assert(whole.take(dc + 1) + pairwise_inner(lits@, x as int, y as int + 1)
                    + pairwise_from(lits@, x as int + 1) =~= whole);
            }
            y += 1;
        }
        x += 1;
    }
    proof {
        assert(pairwise_from(lits@, lits@.len() as int).len() == 0);
        assert(whole.take(r@.len() - 1) =~= whole);
        assert(r@.len() == exactly_one_spec(lits@).len());
    }
    r
}

/// Number of joint parent assignments — and hence CPT columns — of variable
/// `v`.
pub open spec fn n_cols(m: NetworkModel, v: int) -> int {
    table_width(m.variables, m.states, m.parents[v])
}

/// Number of literals the encoder allocates for variable `v`: one indicator
/// and one parameter literal per column, for each value.
pub open spec fn block_size(m: NetworkModel, v: int) -> int {
    m.states[v].len() * (1 + n_cols(m, v))
}

/// First literal id of the variable at position `t` of the processing order.
pub open spec fn base_of(m: NetworkModel, order: Seq<int>, t: int) -> int
    decreases t,
{
    if t <= 0 {
        0
    } else {
        base_of(m, order, t - 1) + block_size(m, order[t - 1])
    }
}

/// Literal id of the indicator of value `s` of the variable at position `t`.
pub open spec fn indicator_id(m: NetworkModel, order: Seq<int>, t: int, s: int) -> int {
    base_of(m, order, t) + s * (1 + n_cols(m, order[t]))
}

/// Literal id of the parameter literal of value `s` and column `j` of the
/// variable at position `t`: allocated right after its indicator.
pub open spec fn param_id(m: NetworkModel, order: Seq<int>, t: int, s: int, j: int) -> int {
    indicator_id(m, order, t, s) + 1 + j
}

/// Weights of the literals of value `s` of variable `v`: `(1, 1)` for the
/// indicator, then `(1, cpt(v)[s][j])` for the parameter literal of each
/// column `j`.
pub open spec fn value_weights(m: NetworkModel, v: int, s: int) -> Seq<WeightPair> {
    seq![unit_weights()] + Seq::new(
        n_cols(m, v) as nat,
        |j: int|
            WeightPair {
                when_false: Prob { bits: PROB_ONE_BITS },
                when_true: m.cpts[v][s][j],
            },
    )
}

/// Weights of the literals of the first `s` values of variable `v`.
pub open spec fn var_weights_upto(m: NetworkModel, v: int, s: int) -> Seq<WeightPair>
    decreases s,
{
    if s <= 0 {
        Seq::empty()
    } else {
        var_weights_upto(m, v, s - 1) + value_weights(m, v, s - 1)
    }
}

/// Weights of every literal of the first `t` variables of the order, in
/// allocation order.
pub open spec fn weights_upto(m: NetworkModel, order: Seq<int>, t: int) -> Seq<WeightPair>
    decreases t,
{
    if t <= 0 {
        Seq::empty()
    } else {
        weights_upto(m, order, t - 1) + var_weights_upto(
            m,
            order[t - 1],
            m.states[order[t - 1]].len() as int,
        )
    }
}

/// Each value block holds one weight per literal of the block.
pub proof fn lemma_var_weights_len(m: NetworkModel, v: int, s: int)
    requires
        s >= 0,
    ensures
        var_weights_upto(m, v, s).len() == s * (1 + n_cols(m, v)),
    decreases s,
{
    if s > 0 {
        lemma_var_weights_len(m, v, s - 1);
        lemma_width_nonneg(m.variables, m.states, m.parents[v]);
        assert(n_cols(m, v) >= 0);
        assert(value_weights(m, v, s - 1).len() == 1 + n_cols(m, v));
        assert(var_weights_upto(m, v, s).len() == (s - 1) * (1 + n_cols(m, v)) + 1 + n_cols(
            m,
            v,
        ));
        assert(s * (1 + n_cols(m, v)) == (s - 1) * (1 + n_cols(m, v)) + (1 + n_cols(m, v)))
            by (nonlinear_arith);
    } else {
        assert(var_weights_upto(m, v, s).len() == 0);
        assert(s * (1 + n_cols(m, v)) == 0) by (nonlinear_arith)
            requires
                s == 0,
        ;
    }
}

/// The weight list of a processed prefix is exactly as long as the ids it
/// has allocated.
pub proof fn lemma_weights_len(m: NetworkModel, order: Seq<int>, t: int)
    requires
        t >= 0,
    ensures
        weights_upto(m, order, t).len() == base_of(m, order, t),
    decreases t,
{
    if t > 0 {
        lemma_weights_len(m, order, t - 1);
        lemma_var_weights_len(m, order[t - 1], m.states[order[t - 1]].len() as int);
    }
}

/// Every part of a satisfied concatenation is satisfied.
proof fn lemma_all_sat_middle(
    f: spec_fn(int) -> bool,
    a: Seq<Seq<Literal>>,
    b: Seq<Seq<Literal>>,
    c: Seq<Seq<Literal>>,
)
    requires
        all_sat(f, a + b + c),
    ensures
        all_sat(f, b),
{
    assert forall|i: int| 0 <= i < b.len() implies clause_sat(f, #[trigger] b[i]) by {
        assert((a + b + c)[a.len() + i] == b[i]);
        assert(clause_sat(f, (a + b + c)[a.len() + i]));
    }
}

/// The parameter clauses of column `j` stand somewhere inside the value's
/// clause block.
proof fn lemma_vcu_split(m: NetworkModel, order: Seq<int>, t: int, s: int, jcap: int, j: int)
    requires
        0 <= j < jcap,
    ensures
        exists|pre: Seq<Seq<Literal>>, suf: Seq<Seq<Literal>>|
            value_clauses_upto(m, order, t, s, jcap) == pre + param_clauses(m, order, t, s, j)
                + suf,
    decreases jcap,
{
    if j == jcap - 1 {
        let pre = value_clauses_upto(m, order, t, s, j);
        let suf = Seq::<Seq<Literal>>::empty();
        assert(value_clauses_upto(m, order, t, s, jcap) =~= pre + param_clauses(
            m,
            order,
            t,
            s,
            j,
        ) + suf);
    } else {
        lemma_vcu_split(m, order, t, s, jcap - 1, j);
        let (pre, suf) = choose|pre: Seq<Seq<Literal>>, suf: Seq<Seq<Literal>>|
            value_clauses_upto(m, order, t, s, jcap - 1) == pre + param_clauses(
                m,
                order,
                t,
                s,
                j,
            ) + suf;
        assert(value_clauses_upto(m, order, t, s, jcap) =~= pre + param_clauses(m, order, t, s, j)
            + (suf + param_clauses(m, order, t, s, jcap - 1)));
    }
}

/// The clause block of value `s` stands somewhere inside the variable's
/// parameter clauses.
proof fn lemma_var_split(m: NetworkModel, order: Seq<int>, t: int, scap: int, s: int)
    requires
        0 <= s < scap,
    ensures
        exists|pre: Seq<Seq<Literal>>, suf: Seq<Seq<Literal>>|
            var_clauses_upto(m, order, t, scap) == pre + value_clauses_upto(
                m,
                order,
                t,
                s,
                n_cols(m, order[t]),
            ) + suf,
    decreases scap,
{
    if s == scap - 1 {
        let pre = var_clauses_upto(m, order, t, s);
        let suf = Seq::<Seq<Literal>>::empty();
        assert(var_clauses_upto(m, order, t, scap) =~= pre + value_clauses_upto(
            m,
            order,
            t,
            s,
            n_cols(m, order[t]),
        ) + suf);
    } else {
        lemma_var_split(m, order, t, scap - 1, s);
        let (pre, suf) = choose|pre: Seq<Seq<Literal>>, suf: Seq<Seq<Literal>>|
            var_clauses_upto(m, order, t, scap - 1) == pre + value_clauses_upto(
                m,
                order,
                t,
                s,
                n_cols(m, order[t]),
            ) + suf;
        assert(var_clauses_upto(m, order, t, scap) =~= pre + value_clauses_upto(
            m,
            order,
            t,
            s,
            n_cols(m, order[t]),
        ) + (suf + value_clauses_upto(m, order, t, scap - 1, n_cols(m, order[t]))));
    }
}

/// Every variable's clause block stands somewhere inside the whole CNF.
proof fn lemma_clauses_split(m: NetworkModel, order: Seq<int>, tcap: int, t: int)
    requires
        0 <= t < tcap,
    ensures
        exists|pre: Seq<Seq<Literal>>, suf: Seq<Seq<Literal>>|
            clauses_upto(m, order, tcap) == pre + var_clauses(m, order, t) + suf,
    decreases tcap,
{
    if t == tcap - 1 {
        let pre = clauses_upto(m, order, t);
        let suf = Seq::<Seq<Literal>>::empty();
        assert(clauses_upto(m, order, tcap) =~= pre + var_clauses(m, order, t) + suf);
    } else {
        lemma_clauses_split(m, order, tcap - 1, t);
        let (pre, suf) = choose|pre: Seq<Seq<Literal>>, suf: Seq<Seq<Literal>>|
            clauses_upto(m, order, tcap - 1) == pre + var_clauses(m, order, t) + suf;
        assert(clauses_upto(m, order, tcap) =~= pre + var_clauses(m, order, t) + (suf
            + var_clauses(m, order, tcap - 1)));
    }
}

/// The model law of the parameter literals: in every model of the compiled
/// CNF, the parameter literal of value `s` and column `j` of the variable at
/// position `t` is true exactly when that column's parent indicators and the
/// value's own indicator all are.  Together with the weight law, a model's
/// weight multiplies exactly the CPT entries selected by its indicators.
pub proof fn lemma_model_param_iff(
    m: NetworkModel,
    order: Seq<int>,
    f: spec_fn(int) -> bool,
    t: int,
    s: int,
    j: int,
)
    requires
        all_sat(f, clauses_upto(m, order, order.len() as int)),
        0 <= t < order.len(),
        0 <= s < m.states[order[t]].len(),
        0 <= j < n_cols(m, order[t]),
    ensures
        lit_sat(f, slit(param_id(m, order, t, s, j), true)) <==> (forall|l: int|
            0 <= l < cvec_spec(m, order, t, s, j).len() ==> lit_sat(
                f,
                #[trigger] cvec_spec(m, order, t, s, j)[l],
            )),
{
    let ns = m.states[order[t]].len() as int;
    lemma_clauses_split(m, order, order.len() as int, t);
    let (pre1, suf1) = choose|pre: Seq<Seq<Literal>>, suf: Seq<Seq<Literal>>|
        clauses_upto(m, order, order.len() as int) == pre + var_clauses(m, order, t) + suf;
    lemma_all_sat_middle(f, pre1, var_clauses(m, order, t), suf1);
    let vcu = var_clauses_upto(m, order, t, ns);
    let eo = exactly_one_spec(ind_lits(m, order, t));
    assert(var_clauses(m, order, t) =~= Seq::<Seq<Literal>>::empty() + vcu + eo);
    lemma_all_sat_middle(f, Seq::<Seq<Literal>>::empty(), vcu, eo);
    lemma_var_split(m, order, t, ns, s);
    let (pre2, suf2) = choose|pre: Seq<Seq<Literal>>, suf: Seq<Seq<Literal>>|
        vcu == pre + value_clauses_upto(m, order, t, s, n_cols(m, order[t])) + suf;
    lemma_all_sat_middle(f, pre2, value_clauses_upto(m, order, t, s, n_cols(m, order[t])), suf2);
    lemma_vcu_split(m, order, t, s, n_cols(m, order[t]), j);
    let (pre3, suf3) = choose|pre: Seq<Seq<Literal>>, suf: Seq<Seq<Literal>>|
        value_clauses_upto(m, order, t, s, n_cols(m, order[t])) == pre + param_clauses(
            m,
            order,
            t,
            s,
            j,
        ) + suf;
    lemma_all_sat_middle(f, pre3, param_clauses(m, order, t, s, j), suf3);
    lemma_biconditional_sat(slit(param_id(m, order, t, s, j), true), cvec_spec(m, order, t, s, j), f);
}

/// The model law of the indicators: in every model of the compiled CNF, at
/// least one indicator of each variable is true and no two are — a model
/// picks exactly one value per variable.
pub proof fn lemma_model_exactly_one(
    m: NetworkModel,
    order: Seq<int>,
    f: spec_fn(int) -> bool,
    t: int,
)
    requires
        all_sat(f, clauses_upto(m, order, order.len() as int)),
        0 <= t < order.len(),
    ensures
        exists|s: int|
            0 <= s < m.states[order[t]].len() && lit_sat(
                f,
                #[trigger] ind_lits(m, order, t)[s],
            ),
        forall|s1: int, s2: int|
            0 <= s1 < s2 < m.states[order[t]].len() ==> !(lit_sat(
                f,
                #[trigger] ind_lits(m, order, t)[s1],
            ) && lit_sat(f, #[trigger] ind_lits(m, order, t)[s2])),
{
    let ns = m.states[order[t]].len() as int;
    let lits = ind_lits(m, order, t);
    lemma_clauses_split(m, order, order.len() as int, t);
    let (pre1, suf1) = choose|pre: Seq<Seq<Literal>>, suf: Seq<Seq<Literal>>|
        clauses_upto(m, order, order.len() as int) == pre + var_clauses(m, order, t) + suf;
    lemma_all_sat_middle(f, pre1, var_clauses(m, order, t), suf1);
    let vcu = var_clauses_upto(m, order, t, ns);
    let eo = exactly_one_spec(lits);
    assert(var_clauses(m, order, t) =~= vcu + eo + Seq::<Seq<Literal>>::empty());
    lemma_all_sat_middle(f, vcu, eo, Seq::<Seq<Literal>>::empty());
    assert(forall|i: int| 0 <= i < lits.len() ==> (#[trigger] lits[i]).positive);
    lemma_exactly_one_sat(lits, f);
    let w = choose|w: int| 0 <= w < lits.len() && f(#[trigger] lits[w].var as int);
    assert(lit_sat(f, lits[w]));
}

/// A variable's block of literals is never of negative size.
proof fn lemma_block_nonneg(m: NetworkModel, v: int)
    ensures
        block_size(m, v) >= 0,
{
    lemma_width_nonneg(m.variables, m.states, m.parents[v]);
    let ns = m.states[v].len() as int;
    let w = 1 + n_cols(m, v);
    assert(ns * w >= 0) by (nonlinear_arith)
        requires
            ns >= 0,
            w >= 0,
    ;
}

/// Extending the processed prefix never changes the weights already listed.
proof fn lemma_weights_prefix(m: NetworkModel, order: Seq<int>, t1: int, t2: int)
    requires
        0 <= t1 <= t2,
    ensures
        forall|i: int|
            0 <= i < weights_upto(m, order, t1).len() ==> weights_upto(m, order, t2)[i]
                == weights_upto(m, order, t1)[i],
    decreases t2 - t1,
{
    if t2 > t1 {
        lemma_weights_prefix(m, order, t1, t2 - 1);
        lemma_weights_len(m, order, t1);
        lemma_weights_len(m, order, t2 - 1);
        lemma_weights_monotone(m, order, t1, t2 - 1);
    }
}

/// Bases only grow along the order.
proof fn lemma_weights_monotone(m: NetworkModel, order: Seq<int>, t1: int, t2: int)
    requires
        0 <= t1 <= t2,
    ensures
        base_of(m, order, t1) <= base_of(m, order, t2),
    decreases t2 - t1,
{
    if t2 > t1 {
        lemma_weights_monotone(m, order, t1, t2 - 1);
        lemma_block_nonneg(m, order[t2 - 1]);
    }
}

/// Within one variable's weight block: the entry at a value's first id is
/// the unit pair, and the following entries carry the value's CPT row.
proof fn lemma_var_weights_at(m: NetworkModel, v: int, cap: int, s: int)
    requires
        0 <= s < cap,
    ensures
        var_weights_upto(m, v, cap)[s * (1 + n_cols(m, v))] == unit_weights(),
        forall|j: int|
            0 <= j < n_cols(m, v) ==> var_weights_upto(m, v, cap)[s * (1 + n_cols(m, v)) + 1 + j]
                == (WeightPair {
                when_false: Prob { bits: PROB_ONE_BITS },
                when_true: m.cpts[v][s][j],
            }),
    decreases cap,
{
    lemma_width_nonneg(m.variables, m.states, m.parents[v]);
    let w = 1 + n_cols(m, v);
    lemma_var_weights_len(m, v, cap - 1);
    if s < cap - 1 {
        lemma_var_weights_at(m, v, cap - 1, s);
        assert((s + 1) * w <= (cap - 1) * w) by (nonlinear_arith)
            requires
                s + 1 <= cap - 1,
                w >= 1,
        ;
        assert((s + 1) * w == s * w + w) by (nonlinear_arith);
    } else {
        assert(s == cap - 1);
        assert(var_weights_upto(m, v, cap) == var_weights_upto(m, v, cap - 1) + value_weights(
            m,
            v,
            s,
        ));
        assert(value_weights(m, v, s)[0] == unit_weights());
        assert(forall|j: int|
            0 <= j < n_cols(m, v) ==> value_weights(m, v, s)[1 + j] == (WeightPair {
                when_false: Prob { bits: PROB_ONE_BITS },
                when_true: m.cpts[v][s][j],
            }));
        assert(value_weights(m, v, s).len() == w);
    }
}

/// The weight law of the encoding: in the compiled weight list, the literal
/// at an indicator id weighs `(1, 1)`, and the parameter literal of value
/// `s` and column `j` weighs `(1, cpt(v)[s][j])` — the weighted count of a
/// model multiplies exactly the CPT entries of its true parameter literals.
pub proof fn lemma_weights_of_literals(m: NetworkModel, order: Seq<int>, t: int, s: int)
    requires
        0 <= t < order.len(),
        0 <= s < m.states[order[t]].len(),
    ensures
        weights_upto(m, order, order.len() as int)[indicator_id(m, order, t, s)]
            == unit_weights(),
        forall|j: int|
            0 <= j < n_cols(m, order[t]) ==> weights_upto(m, order, order.len() as int)[param_id(
                m,
                order,
                t,
                s,
                j,
            )] == (WeightPair {
                when_false: Prob { bits: PROB_ONE_BITS },
                when_true: m.cpts[order[t]][s][j],
            }),
{
    let v = order[t];
    let w = 1 + n_cols(m, v);
    let ns = m.states[v].len() as int;
    lemma_width_nonneg(m.variables, m.states, m.parents[v]);
    lemma_weights_prefix(m, order, t + 1, order.len() as int);
    lemma_weights_len(m, order, t as int);
    lemma_weights_len(m, order, t + 1);
    lemma_var_weights_len(m, v, ns);
    lemma_var_weights_at(m, v, ns, s);
    assert((s + 1) * w <= ns * w) by (nonlinear_arith)
        requires
            s + 1 <= ns,
            w >= 1,
    ;
    assert((s + 1) * w == s * w + w) by (nonlinear_arith);
    assert(weights_upto(m, order, t + 1) == weights_upto(m, order, t as int) + var_weights_upto(
        m,
        v,
        ns,
    ));
    assert(weights_upto(m, order, t + 1)[indicator_id(m, order, t, s)] == var_weights_upto(
        m,
        v,
        ns,
    )[s * w]);
    assert forall|j: int| 0 <= j < n_cols(m, v) implies weights_upto(m, order, t + 1)[param_id(
        m,
        order,
        t,
        s,
        j,
    )] == (WeightPair {
        when_false: Prob { bits: PROB_ONE_BITS },
        when_true: m.cpts[v][s][j],
    }) by {
        assert(weights_upto(m, order, t + 1)[param_id(m, order, t, s, j)] == var_weights_upto(
            m,
            v,
            ns,
        )[s * w + 1 + j]);
    }
}

/// The indicator table of the full encoding: per variable of the order, its
/// name and, per domain value, the value's label and indicator id.
pub open spec fn indicators_spec(m: NetworkModel, order: Seq<int>) -> Seq<
    (Seq<char>, Seq<(Seq<char>, int)>),
> {
    Seq::new(
        order.len(),
        |t: int|
            (
                m.variables[order[t]],
                Seq::new(
                    m.states[order[t]].len(),
                    |s: int| (m.states[order[t]][s], indicator_id(m, order, t, s)),
                ),
            ),
    )
}

/// Position of the first occurrence of `v` in `order`, `-1` if absent.
pub open spec fn order_pos(order: Seq<int>, v: int) -> int
    decreases order.len(),
{
    if order.len() == 0 {
        -1
    } else if order[0] == v {
        0
    } else {
        let r = order_pos(order.drop_first(), v);
        if r < 0 {
            -1
        } else {
            r + 1
        }
    }
}

/// `order_pos` returns `i` when `order[i] == v` and no earlier entry is `v`.
pub proof fn lemma_order_pos_first(order: Seq<int>, v: int, i: int)
    requires
        0 <= i < order.len(),
        order[i] == v,
        forall|k: int| 0 <= k < i ==> order[k] != v,
    ensures
        order_pos(order, v) == i,
    decreases order.len(),
{
    if i > 0 {
        assert(order.drop_first()[i - 1] == v);
        assert(forall|k: int| 0 <= k < i - 1 ==> order.drop_first()[k] == order[k + 1]);
        lemma_order_pos_first(order.drop_first(), v, i - 1);
    }
}

/// The positive indicator literals of the variable at position `t`, in
/// domain order: what its exactly-one constraint ranges over.
pub open spec fn ind_lits(m: NetworkModel, order: Seq<int>, t: int) -> Seq<Literal> {
    Seq::new(
        m.states[order[t]].len(),
        |s: int| slit(indicator_id(m, order, t, s), true),
    )
}

/// Indicator id of the pair `(name, value)` under the order: the id of the
/// value's position in the domain of the variable called `name`.
pub open spec fn ind_id_of(m: NetworkModel, order: Seq<int>, name: Seq<char>, value: Seq<char>) -> int {
    indicator_id(
        m,
        order,
        order_pos(order, m.var_idx(name)),
        find_name(m.states[m.var_idx(name)], value),
    )
}

/// The conjunction tied to the parameter literal of `(t, s, j)`: one parent
/// indicator per pair of the assignment of column `j`, then the variable's
/// own indicator of value `s`.
pub open spec fn cvec_spec(m: NetworkModel, order: Seq<int>, t: int, s: int, j: int) -> Seq<
    Literal,
> {
    let a = m.assignments_of(m.parents[order[t]])[j];
    Seq::new(a.len(), |k: int| slit(ind_id_of(m, order, a[k].0, a[k].1), true)).push(
        slit(indicator_id(m, order, t, s), true),
    )
}

/// The clauses of the biconditional between the parameter literal of
/// `(t, s, j)` and its conjunction.
pub open spec fn param_clauses(m: NetworkModel, order: Seq<int>, t: int, s: int, j: int) -> Seq<
    Seq<Literal>,
> {
    let pl = seq![slit(param_id(m, order, t, s, j), true)];
    implies_spec(pl, cvec_spec(m, order, t, s, j)) + implies_spec(cvec_spec(m, order, t, s, j), pl)
}

/// The parameter clauses of the first `j` columns of value `s`.
pub open spec fn value_clauses_upto(
    m: NetworkModel,
    order: Seq<int>,
    t: int,
    s: int,
    j: int,
) -> Seq<Seq<Literal>>
    decreases j,
{
    if j <= 0 {
        Seq::empty()
    } else {
        value_clauses_upto(m, order, t, s, j - 1) + param_clauses(m, order, t, s, j - 1)
    }
}

/// The parameter clauses of the first `s` values of the variable at `t`.
pub open spec fn var_clauses_upto(m: NetworkModel, order: Seq<int>, t: int, s: int) -> Seq<
    Seq<Literal>,
>
    decreases s,
{
    if s <= 0 {
        Seq::empty()
    } else {
        var_clauses_upto(m, order, t, s - 1) + value_clauses_upto(
            m,
            order,
            t,
            s - 1,
            n_cols(m, order[t]),
        )
    }
}

/// All clauses of the variable at position `t`: its parameter clauses, then
/// its exactly-one constraint.
pub open spec fn var_clauses(m: NetworkModel, order: Seq<int>, t: int) -> Seq<Seq<Literal>> {
    var_clauses_upto(m, order, t, m.states[order[t]].len() as int) + exactly_one_spec(
        ind_lits(m, order, t),
    )
}

/// All clauses of the first `t` variables of the order.
pub open spec fn clauses_upto(m: NetworkModel, order: Seq<int>, t: int) -> Seq<Seq<Literal>>
    decreases t,
{
    if t <= 0 {
        Seq::empty()
    } else {
        clauses_upto(m, order, t - 1) + var_clauses(m, order, t - 1)
    }
}

/// The clause sequences a clause list denotes.
pub open spec fn clauses_of(c: Seq<Vec<Literal>>) -> Seq<Seq<Literal>> {
    Seq::new(c.len(), |i: int| c[i]@)
}

/// Index of the first entry with label `x` in a value list, `-1` if none.
pub open spec fn entry_find(s: Seq<(Seq<char>, int)>, x: Seq<char>) -> int
    decreases s.len(),
{
    if s.len() == 0 {
        -1
    } else if s[0].0 == x {
        0
    } else {
        let r = entry_find(s.drop_first(), x);
        if r < 0 {
            -1
        } else {
            r + 1
        }
    }
}

/// `entry_find` returns `i` when `s[i]` carries `x` and no earlier entry
/// does.
pub proof fn lemma_entry_find_first(s: Seq<(Seq<char>, int)>, x: Seq<char>, i: int)
    requires
        0 <= i < s.len(),
        s[i].0 == x,
        forall|k: int| 0 <= k < i ==> s[k].0 != x,
    ensures
        entry_find(s, x) == i,
    decreases s.len(),
{
    if i > 0 {
        assert(s.drop_first()[i - 1].0 == x);
        assert(forall|k: int| 0 <= k < i - 1 ==> s.drop_first()[k] == s[k + 1]);
        lemma_entry_find_first(s.drop_first(), x, i - 1);
    }
}

/// What `entry_find` returns, in the usual first-match form.
pub proof fn lemma_entry_find(s: Seq<(Seq<char>, int)>, x: Seq<char>)
    ensures
        entry_find(s, x) >= 0 ==> 0 <= entry_find(s, x) < s.len() && s[entry_find(s, x)].0 == x,
        entry_find(s, x) < 0 ==> entry_find(s, x) == -1 && (forall|k: int|
            0 <= k < s.len() ==> s[k].0 != x),
    decreases s.len(),
{
    if s.len() > 0 && s[0].0 != x {
        lemma_entry_find(s.drop_first(), x);
        assert(forall|k: int| 1 <= k < s.len() ==> s[k] == s.drop_first()[k - 1]);
    }
}

/// Index of the first group with name `x` in an indicator table, `-1` if
/// none.
pub open spec fn group_find(s: Seq<(Seq<char>, Seq<(Seq<char>, int)>)>, x: Seq<char>) -> int
    decreases s.len(),
{
    if s.len() == 0 {
        -1
    } else if s[0].0 == x {
        0
    } else {
        let r = group_find(s.drop_first(), x);
        if r < 0 {
            -1
        } else {
            r + 1
        }
    }
}

/// `group_find` returns `i` when group `i` carries `x` and no earlier group
/// does.
pub proof fn lemma_group_find_first(
    s: Seq<(Seq<char>, Seq<(Seq<char>, int)>)>,
    x: Seq<char>,
    i: int,
)
    requires
        0 <= i < s.len(),
        s[i].0 == x,
        forall|k: int| 0 <= k < i ==> s[k].0 != x,
    ensures
        group_find(s, x) == i,
    decreases s.len(),
{
    if i > 0 {
        assert(s.drop_first()[i - 1].0 == x);
        assert(forall|k: int| 0 <= k < i - 1 ==> s.drop_first()[k] == s[k + 1]);
        lemma_group_find_first(s.drop_first(), x, i - 1);
    }
}

/// What `group_find` returns, in the usual first-match form.
pub proof fn lemma_group_find(s: Seq<(Seq<char>, Seq<(Seq<char>, int)>)>, x: Seq<char>)
    ensures
        group_find(s, x) >= 0 ==> 0 <= group_find(s, x) < s.len() && s[group_find(s, x)].0 == x,
        group_find(s, x) < 0 ==> group_find(s, x) == -1 && (forall|k: int|
            0 <= k < s.len() ==> s[k].0 != x),
    decreases s.len(),
{
    if s.len() > 0 && s[0].0 != x {
        lemma_group_find(s.drop_first(), x);
        assert(forall|k: int| 1 <= k < s.len() ==> s[k] == s.drop_first()[k - 1]);
    }
}

/// The id an indicator table maps `(var, value)` to, or the failing lookup.
pub open spec fn table_lookup(
    tab: Seq<(Seq<char>, Seq<(Seq<char>, int)>)>,
    var: Seq<char>,
    value: Seq<char>,
) -> Result<int, NetworkError> {
    let g = group_find(tab, var);
    if g < 0 {
        Err(NetworkError::UnknownVariable)
    } else {
        let e = entry_find(tab[g].1, value);
        if e < 0 {
            Err(NetworkError::UnknownValue)
        } else {
            Ok(tab[g].1[e].1)
        }
    }
}

/// The mathematical table an executable indicator table denotes.
pub open spec fn table_view(t: Seq<(String, Vec<(String, usize)>)>) -> Seq<
    (Seq<char>, Seq<(Seq<char>, int)>),
> {
    Seq::new(
        t.len(),
        |i: int|
            (
                t[i].0@,
                Seq::new(t[i].1@.len(), |s: int| (t[i].1@[s].0@, t[i].1@[s].1 as int)),
            ),
    )
}

/// Look an indicator id up by variable name and value label.
#[verifier::loop_isolation(false)]
fn lookup_indicator(
    table: &Vec<(String, Vec<(String, usize)>)>,
    var: &str,
    value: &str,
) -> (r: Result<usize, NetworkError>)
    ensures
        index_result_matches(r, table_lookup(table_view(table@), var@, value@)),
{
    let ghost tab = table_view(table@);
    let mut g: usize = 0;
    while g < table.len()
        invariant
            0 <= g <= table@.len(),
            forall|k: int| 0 <= k < g ==> (#[trigger] tab[k]).0 != var@,
        decreases table@.len() - g,
    {
        if str_eq(table[g].0.as_str(), var) {
            proof {
                lemma_group_find_first(tab, var@, g as int);
            }
            let list: &Vec<(String, usize)> = &table[g].1;
            let mut e: usize = 0;
            while e < list.len()
                invariant
                    0 <= e <= list@.len(),
                    forall|k: int| 0 <= k < e ==> (#[trigger] tab[g as int].1[k]).0 != value@,
                decreases list@.len() - e,
            {
                if str_eq(list[e].0.as_str(), value) {
                    proof {
                        lemma_entry_find_first(tab[g as int].1, value@, e as int);
                    }
                    return Ok(list[e].1);
                }
                e += 1;
            }
            proof {
                lemma_entry_find(tab[g as int].1, value@);
            }
            return Err(NetworkError::UnknownValue);
        }
        g += 1;
    }
    proof {
        lemma_group_find(tab, var@);
    }
    Err(NetworkError::UnknownVariable)
}

/// When the encoder reaches position `t` of a topological order, the
/// indicator of any pair of the assignments of `t`'s variable is already in
/// the table, under the id the encoding prescribes.
proof fn lemma_parent_indicator(m: NetworkModel, order: Seq<int>, t: int, k: int, j: int)
    requires
        m.wf(),
        m.topo_order() == Ok::<Seq<int>, NetworkError>(order),
        0 <= t < order.len(),
        0 <= k < m.parents[order[t]].len(),
        0 <= j < m.assignments_of(m.parents[order[t]]).len(),
    ensures
        ({
            let a = m.assignments_of(m.parents[order[t]])[j];
            table_lookup(indicators_spec(m, order).take(t), a[k].0, a[k].1) == Ok::<
                int,
                NetworkError,
            >(ind_id_of(m, order, a[k].0, a[k].1))
        }),
{
    let v = order[t];
    lemma_topo_from_sound(m, Seq::empty());
    let psv = m.parents[v];
    lemma_wf_parents_doms_ok(m, v);
    assert forall|kk: int| 0 <= kk < psv.len() implies distinct_names(
        m.states[m.var_idx(#[trigger] psv[kk])],
    ) by {
        lemma_find_name(m.variables, psv[kk]);
    }
    lemma_assignment_cols(m, psv, j);
    let a = m.assignments_of(psv)[j];
    assert(a[k].0 == psv[k]);
    let pidx = m.var_idx(psv[k]);
    lemma_find_name(m.variables, psv[k]);
    assert((Seq::<int>::empty() + order.take(t)).contains(pidx));
    assert(Seq::<int>::empty() + order.take(t) =~= order.take(t));
    assert(order.take(t).contains(pidx));
    let w = choose|w: int| 0 <= w < order.take(t).len() && order.take(t)[w] == pidx;
    assert(order[w] == pidx);
    let tab = indicators_spec(m, order).take(t);
    assert(tab.len() == t);
    assert(tab[w].0 == m.variables[pidx]);
    assert forall|u: int| 0 <= u < w implies (#[trigger] tab[u]).0 != psv[k] by {
        assert(tab[u].0 == m.variables[order[u]]);
        assert(order[u] != pidx);
    }
    lemma_group_find_first(tab, psv[k], w);
    let dom_p = m.states[pidx];
    let e = find_name(dom_p, a[k].1);
    lemma_find_name(dom_p, a[k].1);
    assert(tab[w].1 == Seq::new(
        dom_p.len(),
        |si: int| (dom_p[si], indicator_id(m, order, w, si)),
    ));
    assert forall|si: int| 0 <= si < e implies (#[trigger] tab[w].1[si]).0 != a[k].1 by {
        assert(tab[w].1[si].0 == dom_p[si]);
    }
    lemma_entry_find_first(tab[w].1, a[k].1, e);
    assert forall|u: int| 0 <= u < w implies #[trigger] order[u] != pidx by {}
    lemma_order_pos_first(order, pidx, w);
}

/// Encode one variable of the order: its indicators, parameter literals
/// with their weights and clauses, and its exactly-one constraint.
#[verifier::loop_isolation(false)]
#[verifier::rlimit(100)]
fn encode_variable(
    network: &BayesianNetwork,
    vname: &String,
    Ghost(order): Ghost<Seq<int>>,
    Ghost(t): Ghost<int>,
    clauses: &mut Vec<Vec<Literal>>,
    indicators: &mut Vec<(String, Vec<(String, usize)>)>,
    params: &mut Vec<WeightPair>,
)
    requires
        network@.topo_order() == Ok::<Seq<int>, NetworkError>(order),
        0 <= t < order.len(),
        vname@ == network@.variables[order[t]],
        old(params)@ == weights_upto(network@, order, t),
        old(params)@.len() == base_of(network@, order, t),
        clauses_of(old(clauses)@) == clauses_upto(network@, order, t),
        old(indicators)@.len() == t,
        table_view(old(indicators)@) == indicators_spec(network@, order).take(t),
    ensures
        final(params)@ == weights_upto(network@, order, t + 1),
        final(params)@.len() == base_of(network@, order, t + 1),
        clauses_of(final(clauses)@) == clauses_upto(network@, order, t + 1),
        final(indicators)@.len() == t + 1,
        table_view(final(indicators)@) == indicators_spec(network@, order).take(t + 1),
{
    proof {
        use_type_invariant(&*network);
    }
    let ghost m = network@;
    let ghost v = order[t];
        proof {
            lemma_topo_from_sound(m, Seq::empty());
            assert(0 <= v < m.var_count());
            lemma_find_name_self(m.variables, v);
            lemma_wf_parents_doms_ok(m, v);
            lemma_assignments_len(m, m.parents[v]);
        }
        let dom: &Vec<String> = match network.all_possible_assignments(vname.as_str()) {
            Ok(d) => d,
            Err(_) => {
                proof {
                    assert(false);
                }
                vstd::pervasive::unreached()
            },
        };
        let asgns: Vec<crate::bayesian_network::Assignment> = match network.parent_assignments(
            vname.as_str(),
        ) {
            Ok(a) => a,
            Err(_) => {
                proof {
                    assert(false);
                }
                vstd::pervasive::unreached()
            },
        };
        let pnames: &Vec<String> = match network.parents(vname.as_str()) {
            Ok(p) => p,
            Err(_) => {
                proof {
                    assert(false);
                }
                vstd::pervasive::unreached()
            },
        };
        let ghost psv = m.parents[v];
        let ghost domv = m.states[v];
        proof {
            assert(dom.deep_view() == domv);
            assert(pnames.deep_view() == psv);
            assert(asgns@.len() == n_cols(m, v));
            assert forall|k: int| 0 <= k < psv.len() implies distinct_names(
                m.states[m.var_idx(#[trigger] psv[k])],
            ) by {
                lemma_find_name(m.variables, psv[k]);
            }
        }
        let mut ind_entries: Vec<(String, usize)> = Vec::new();
        let mut ind_vec: Vec<Literal> = Vec::new();
        let mut s: usize = 0;
        while s < dom.len()
            invariant
                0 <= s <= domv.len(),
                params@ == weights_upto(m, order, t) + var_weights_upto(
                    m,
                    v,
                    s as int,
                ),
                params@.len() == indicator_id(m, order, t, s as int),
                clauses_of(clauses@) == clauses_upto(m, order, t) + var_clauses_upto(
                    m,
                    order,
                    t,
                    s as int,
                ),
                ind_entries@.len() == s,
                forall|k: int|
                    0 <= k < s ==> (#[trigger] ind_entries@[k]).0@ == domv[k]
                        && ind_entries@[k].1 as int == indicator_id(m, order, t, k),
                ind_vec@.len() == s,
                forall|k: int|
                    0 <= k < s ==> #[trigger] ind_vec@[k] == slit(
                        indicator_id(m, order, t, k),
                        true,
                    ),
            decreases domv.len() - s,
        {
            proof {
                lemma_var_weights_len(m, v, s as int);
                lemma_weights_len(m, order, t);
            }
            let ind_id = params.len();
            proof {
                assert(ind_id as int == indicator_id(m, order, t, s as int));
            }
            params.push(
                WeightPair { when_false: Prob::one(), when_true: Prob::one() },
            );
            ind_entries.push((dom[s].clone(), ind_id));
            ind_vec.push(Literal { var: ind_id, positive: true });
            proof {
                assert(params@ == weights_upto(m, order, t) + var_weights_upto(
                    m,
                    v,
                    s as int,
                ) + value_weights(m, v, s as int).take(1));
                assert(value_weights(m, v, s as int).take(1) =~= seq![unit_weights()]);
            }
            let mut j: usize = 0;
            while j < asgns.len()
                invariant
                    0 <= j <= n_cols(m, v),
                    params@ == weights_upto(m, order, t) + var_weights_upto(
                        m,
                        v,
                        s as int,
                    ) + value_weights(m, v, s as int).take(1 + j as int),
                    params@.len() == indicator_id(m, order, t, s as int) + 1
                        + j as int,
                    clauses_of(clauses@) == clauses_upto(m, order, t)
                        + var_clauses_upto(m, order, t, s as int)
                        + value_clauses_upto(m, order, t, s as int, j as int),
                decreases n_cols(m, v) - j,
            {
                let ghost asgnv = m.assignments_of(psv)[j as int];
                proof {
                    lemma_assignment_cols(m, psv, j as int);
                    assert(asgns@[j as int]@ == asgnv);
                    lemma_find_name_first(domv, domv[s as int], s as int);
                }
                let p_id = params.len();
                let prob = match network.conditional_probability(
                    vname.as_str(),
                    dom[s].as_str(),
                    &asgns[j],
                ) {
                    Ok(p) => p,
                    Err(_) => {
                        proof {
                            assert(dom@[s as int]@ == domv[s as int]);
                            assert(false);
                        }
                        vstd::pervasive::unreached()
                    },
                };
                proof {
                    assert(dom@[s as int]@ == domv[s as int]);
                    assert(prob == m.cpts[v][s as int][j as int]);
                }
                params.push(WeightPair { when_false: Prob::one(), when_true: prob });
                proof {
                    assert(value_weights(m, v, s as int).take(1 + j as int + 1)
                        =~= value_weights(m, v, s as int).take(1 + j as int).push(
                        WeightPair {
                            when_false: Prob { bits: PROB_ONE_BITS },
                            when_true: m.cpts[v][s as int][j as int],
                        },
                    ));
                    assert(params@ == weights_upto(m, order, t) + var_weights_upto(
                        m,
                        v,
                        s as int,
                    ) + value_weights(m, v, s as int).take(1 + j as int + 1));
                }
                // the conjunction: parent indicators, then this value's
                // indicator
                let mut conj: Vec<Literal> = Vec::new();
                let mut k: usize = 0;
                while k < pnames.len()
                    invariant
                        0 <= k <= psv.len(),
                        conj@.len() == k,
                        forall|kk: int|
                            0 <= kk < k ==> #[trigger] conj@[kk] == slit(
                                ind_id_of(m, order, asgnv[kk].0, asgnv[kk].1),
                                true,
                            ),
                    decreases psv.len() - k,
                {
                    let pn: &String = &pnames[k];
                    proof {
                        assert(pnames.deep_view()[k as int] == pnames@[k as int]@);
                        assert(pn@ == psv[k as int]);
                        assert(asgnv[k as int].0 == psv[k as int]);
                        assert forall|kk: int| 0 <= kk < k as int implies (
                        #[trigger] asgnv[kk]).0 != psv[k as int] by {
                            assert(asgnv[kk].0 == psv[kk]);
                        }
                        lemma_assoc_find_first(asgnv, psv[k as int], k as int);
                    }
                    let val: &String = match asgns[j].get(pn.as_str()) {
                        Some(vv) => vv,
                        None => {
                            proof {
                                assert(false);
                            }
                            vstd::pervasive::unreached()
                        },
                    };
                    proof {
                        assert(val@ == asgnv[k as int].1);
                    }
                    let ind = match lookup_indicator(&indicators, pn.as_str(), val.as_str()) {
                        Ok(x) => x,
                        Err(_) => {
                            proof {
                                lemma_parent_indicator(m, order, t, k as int, j as int);
                            }
                            vstd::pervasive::unreached()
                        },
                    };
                    proof {
                        lemma_parent_indicator(m, order, t, k as int, j as int);
                        assert(ind as int == ind_id_of(
                            m,
                            order,
                            asgnv[k as int].0,
                            asgnv[k as int].1,
                        ));
                    }
                    conj.push(Literal { var: ind, positive: true });
                    k += 1;
                }
                conj.push(Literal { var: ind_id, positive: true });
                proof {
                    assert(conj@ =~= cvec_spec(m, order, t, s as int, j as int));
                }
                let pl = vec![Literal { var: p_id, positive: true }];
                proof {
                    assert(pl@ =~= seq![
                        slit(param_id(m, order, t, s as int, j as int), true),
                    ]);
                }
                let ghost before = clauses_of(clauses@);
                let mut imp1 = implies(&pl, &conj);
                let mut imp2 = implies(&conj, &pl);
                let ghost spec1 = implies_spec(pl@, conj@);
                let ghost spec2 = implies_spec(conj@, pl@);
                clauses.append(&mut imp1);
                clauses.append(&mut imp2);
                proof {
                    assert(clauses_of(clauses@) =~= before + spec1 + spec2);
                    assert(param_clauses(m, order, t, s as int, j as int) == spec1
                        + spec2);
                    assert(clauses_of(clauses@) == clauses_upto(m, order, t)
                        + var_clauses_upto(m, order, t, s as int)
                        + value_clauses_upto(
                        m,
                        order,
                        t,
                        s as int,
                        j as int + 1,
                    )) by {
                        assert(clauses_upto(m, order, t) + var_clauses_upto(
                            m,
                            order,
                            t,
                            s as int,
                        ) + (value_clauses_upto(m, order, t, s as int, j as int)
                            + param_clauses(m, order, t, s as int, j as int)) =~= (
                        clauses_upto(m, order, t) + var_clauses_upto(
                            m,
                            order,
                            t,
                            s as int,
                        ) + value_clauses_upto(m, order, t, s as int, j as int))
                            + param_clauses(m, order, t, s as int, j as int));
                    }
                }
                j += 1;
            }
            proof {
                lemma_width_nonneg(m.variables, m.states, m.parents[v]);
                assert(value_weights(m, v, s as int).take(1 + n_cols(m, v))
                    =~= value_weights(m, v, s as int));
                assert(params@ == weights_upto(m, order, t) + (var_weights_upto(
                    m,
                    v,
                    s as int,
                ) + value_weights(m, v, s as int))) by {
                    assert(weights_upto(m, order, t) + var_weights_upto(
                        m,
                        v,
                        s as int,
                    ) + value_weights(m, v, s as int) =~= weights_upto(m, order, t) + (
                    var_weights_upto(m, v, s as int) + value_weights(m, v, s as int)));
                }
                assert((s as int + 1) * (1 + n_cols(m, v)) == (s as int) * (1 + n_cols(m, v))
                    + (1 + n_cols(m, v))) by (nonlinear_arith);
                lemma_var_weights_len(m, v, s as int + 1);
                lemma_weights_len(m, order, t);
            }
            s += 1;
        }
        // the exactly-one constraint over this variable's indicators
        proof {
            assert(ind_vec@ =~= ind_lits(m, order, t));
        }
        let ghost before = clauses_of(clauses@);
        let mut eo = exactly_one(ind_vec);
        let ghost eos = exactly_one_spec(ind_lits(m, order, t));
        clauses.append(&mut eo);
        indicators.push((vname.clone(), ind_entries));
        proof {
            assert(clauses_of(clauses@) =~= before + eos);
            assert(clauses_of(clauses@) =~= clauses_upto(m, order, t + 1));
            assert(params@ =~= weights_upto(m, order, t + 1));
            lemma_weights_len(m, order, t + 1);
            assert(table_view(indicators@) =~~= indicators_spec(m, order).take(t + 1));
        }
}

/// A Bayesian network compiled to a CNF with per-literal weights, ready to
/// hand to a weighted model counter.
pub struct BayesianNetworkCNF {
    clauses: Vec<Vec<Literal>>,
    /// Per variable, in processing order: its name and, per value label, the
    /// indicator literal's id.
    indicators: Vec<(String, Vec<(String, usize)>)>,
    /// The weight pair of every allocated literal, indexed by literal id.
    params: Vec<WeightPair>,
}

impl BayesianNetworkCNF {
    /// Compile `network` into clauses, indicator table and weights, walking
    /// the variables in topological order so that the indicators of a
    /// variable's parents exist before its parameter clauses reference them.
    /// The only failure is a cyclic parent graph.
    #[verifier::loop_isolation(false)]
    #[verifier::rlimit(100)]
    pub fn from_bayesian_network(network: &BayesianNetwork) -> (r: Result<
        BayesianNetworkCNF,
        NetworkError,
    >)
        ensures
            match r {
                Ok(e) => match network@.topo_order() {
                    Ok(order) => {
                        &&& e.clauses_view() == clauses_upto(network@, order, order.len() as int)
                        &&& e.params_view() == weights_upto(network@, order, order.len() as int)
                        &&& e.indicators_view() == indicators_spec(network@, order)
                    },
                    Err(_) => false,
                },
                Err(err) => network@.topo_order() == Err::<Seq<int>, NetworkError>(err),
            },
    {
        proof {
            use_type_invariant(&*network);
        }
        let ghost m = network@;
        let order_names = match network.topological_sort() {
            Ok(v) => v,
            Err(e) => {
                return Err(e);
            },
        };
        let ghost order = m.topo_order()->Ok_0;
        proof {
            lemma_topo_from_sound(m, Seq::empty());
            assert forall|u: int, jj: int|
                0 <= u < order.len() && 0 <= jj < m.parents[order[u]].len() implies order.take(
                u,
            ).contains(m.var_idx(#[trigger] m.parents[order[u]][jj])) by {
                assert((Seq::<int>::empty() + order.take(u)).contains(
                    m.var_idx(m.parents[order[u]][jj]),
                ));
                assert(Seq::<int>::empty() + order.take(u) =~= order.take(u));
            }
            assert(order_names.deep_view().len() == order.len());
            assert(forall|u: int|
                0 <= u < order.len() ==> order_names.deep_view()[u] == m.variables[
                    #[trigger] order[u]
                ]);
        }
        let mut clauses: Vec<Vec<Literal>> = Vec::new();
        let mut indicators: Vec<(String, Vec<(String, usize)>)> = Vec::new();
        let mut params: Vec<WeightPair> = Vec::new();
        proof {
            assert(table_view(indicators@) =~= indicators_spec(m, order).take(0));
        }
        let mut t: usize = 0;
        while t < order_names.len()
            invariant
                0 <= t <= order.len(),
                order_names@.len() == order.len(),
                params@ == weights_upto(m, order, t as int),
                params@.len() == base_of(m, order, t as int),
                clauses_of(clauses@) == clauses_upto(m, order, t as int),
                indicators@.len() == t,
                table_view(indicators@) == indicators_spec(m, order).take(t as int),
            decreases order.len() - t,
        {
            let ghost v = order[t as int];
            let vname: &String = &order_names[t];
            proof {
                assert(order_names.deep_view()[t as int] == order_names@[t as int]@);
                assert(vname@ == m.variables[v]);
            }
            encode_variable(
                network,
                vname,
                Ghost(order),
                Ghost(t as int),
                &mut clauses,
                &mut indicators,
                &mut params,
            );
            t += 1;
        }
        proof {
            assert(clauses_upto(m, order, order.len() as int) == clauses_of(clauses@));
            assert(indicators_spec(m, order).take(order.len() as int) =~= indicators_spec(
                m,
                order,
            ));
        }
        Ok(BayesianNetworkCNF { clauses, indicators, params })
    }

    /// The clause sequences of the CNF.
    pub closed spec fn clauses_view(self) -> Seq<Seq<Literal>> {
        clauses_of(self.clauses@)
    }

    /// The indicator table.
    pub closed spec fn indicators_view(self) -> Seq<(Seq<char>, Seq<(Seq<char>, int)>)> {
        table_view(self.indicators@)
    }

    /// The weight pair of every literal, by id.
    pub closed spec fn params_view(self) -> Seq<WeightPair> {
        self.params@
    }

    /// The indicator literal of `var` taking `value`.
    pub fn indicator(&self, var: &String, value: &String) -> (r: Result<usize, NetworkError>)
        ensures
            index_result_matches(r, table_lookup(self.indicators_view(), var@, value@)),
    {
        lookup_indicator(&self.indicators, var.as_str(), value.as_str())
    }

    /// The CNF clause set.
    pub fn cnf(&self) -> (r: &Vec<Vec<Literal>>)
        ensures
            r@.len() == self.clauses_view().len(),
            forall|i: int| 0 <= i < r@.len() ==> (#[trigger] r@[i])@ == self.clauses_view()[i],
    {
        &self.clauses
    }

    /// The weight pair of every literal, indexed by literal id.
    pub fn params(&self) -> (r: &Vec<WeightPair>)
        ensures
            r@ == self.params_view(),
    {
        &self.params
    }
}

} // verus!
