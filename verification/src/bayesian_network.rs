//! A graphical representation of a discrete Bayesian network.
//!
//! A [`BayesianNetwork`] holds, for every variable, an ordered domain of value
//! labels, an ordered list of parents, and a conditional probability table
//! (CPT) with one row per value and one column per joint parent assignment.
//! Columns are flattened by a mixed-radix encoding in which the last-declared
//! parent varies fastest; the enumeration of parent assignments is proved to
//! list assignments in exactly that column order.

use vstd::prelude::*;

use crate::text::{
    distinct_names, find_key_in, find_name, find_name_in, key_find, lemma_find_name,
    lemma_find_name_first, lex_lt, str_eq, str_lt,
};
use vstd::arithmetic::div_mod::lemma_fundamental_div_mod_converse;
use vstd::pervasive::VecAdditionalExecFns;
use crate::{NetworkError, Prob};

verus! {

/// The mathematical model of a network: every field is a plain sequence, with
/// the three per-variable tables aligned with `variables`.
pub ghost struct NetworkModel {
    /// Name of the network; no semantic role.
    pub network: Seq<char>,
    /// The variable names, in canonical order.
    pub variables: Seq<Seq<char>>,
    /// `states[i]` is the ordered domain of `variables[i]`; a label's position
    /// is its state index.
    pub states: Seq<Seq<Seq<char>>>,
    /// `parents[i]` is the ordered parent list of `variables[i]`.
    pub parents: Seq<Seq<Seq<char>>>,
    /// `cpts[i][r][c]` is the probability that `variables[i]` takes its value
    /// of state index `r` under the parent assignment of column index `c`.
    pub cpts: Seq<Seq<Seq<Prob>>>,
}

/// Number of columns of a table whose parent list is `ps`, with domains read
/// from `states` (aligned with `variables`): the product of the parents'
/// domain sizes, `1` for an empty parent list.
pub open spec fn table_width(
    variables: Seq<Seq<char>>,
    states: Seq<Seq<Seq<char>>>,
    ps: Seq<Seq<char>>,
) -> int
    decreases ps.len(),
{
    if ps.len() == 0 {
        1
    } else {
        table_width(variables, states, ps.drop_last()) * states[find_name(
            variables,
            ps.last(),
        )].len()
    }
}

impl NetworkModel {
    /// Number of variables.
    pub open spec fn var_count(self) -> int {
        self.variables.len() as int
    }

    /// Position of `name` among the variables, `-1` if unknown.
    pub open spec fn var_idx(self, name: Seq<char>) -> int {
        find_name(self.variables, name)
    }

    /// Whether `name` is one of the variables.
    pub open spec fn has_var(self, name: Seq<char>) -> bool {
        self.var_idx(name) >= 0
    }

    /// Domain size of the variable called `name`.
    pub open spec fn dom_size(self, name: Seq<char>) -> int {
        self.states[self.var_idx(name)].len() as int
    }

    /// Number of columns of the CPT of variable `i`.
    pub open spec fn width_of(self, i: int) -> int {
        table_width(self.variables, self.states, self.parents[i])
    }

    /// Structural soundness: tables aligned with the variables, names unique,
    /// domains non-empty with unique labels, parents unique and themselves
    /// variables, and every CPT of the dimensions its domain and parents
    /// prescribe.  Acyclicity is deliberately not part of this: it is reported
    /// by the topological sort.
    pub open spec fn wf(self) -> bool {
        &&& self.states.len() == self.variables.len()
        &&& self.parents.len() == self.variables.len()
        &&& self.cpts.len() == self.variables.len()
        &&& distinct_names(self.variables)
        &&& forall|i: int|
            0 <= i < self.var_count() ==> (#[trigger] self.states[i]).len() >= 1
        &&& forall|i: int|
            0 <= i < self.var_count() ==> distinct_names(#[trigger] self.states[i])
        &&& forall|i: int|
            0 <= i < self.var_count() ==> distinct_names(#[trigger] self.parents[i])
        &&& forall|i: int, j: int|
            0 <= i < self.var_count() && 0 <= j < self.parents[i].len() ==> self.has_var(
                #[trigger] self.parents[i][j],
            )
        &&& forall|i: int|
            0 <= i < self.var_count() ==> (#[trigger] self.cpts[i]).len() == self.states[i].len()
        &&& forall|i: int, r: int|
            0 <= i < self.var_count() && 0 <= r < self.cpts[i].len() ==> (
            #[trigger] self.cpts[i][r]).len() == self.width_of(i)
    }

    /// Column index selected by `asgn` in a table over the parent list `ps`:
    /// digits are the parents' state indices, and the last parent varies
    /// fastest.  Errors mirror the lookups: a parent absent from `asgn` is a
    /// missing assignment, a label outside the parent's domain an unknown
    /// value; parents are examined in declaration order.
    pub open spec fn col_of(
        self,
        ps: Seq<Seq<char>>,
        asgn: Seq<(Seq<char>, Seq<char>)>,
    ) -> Result<int, NetworkError>
        decreases ps.len(),
    {
        if ps.len() == 0 {
            Ok(0)
        } else {
            match self.col_of(ps.drop_last(), asgn) {
                Err(e) => Err(e),
                Ok(c) => {
                    let p = ps.last();
                    match assoc_lookup(asgn, p) {
                        None => Err(NetworkError::MissingAssignment),
                        Some(val) => {
                            let si = find_name(self.states[self.var_idx(p)], val);
                            if si < 0 {
                                Err(NetworkError::UnknownValue)
                            } else {
                                Ok(c * self.dom_size(p) + si)
                            }
                        },
                    }
                },
            }
        }
    }

    /// The conditional probability `Pr(variable = value | asgn)`: the CPT
    /// entry at the row of `value`'s state index and the column selected by
    /// `asgn`, or the error of the first failing lookup.
    pub open spec fn cond_prob(
        self,
        variable: Seq<char>,
        value: Seq<char>,
        asgn: Seq<(Seq<char>, Seq<char>)>,
    ) -> Result<Prob, NetworkError> {
        let vi = self.var_idx(variable);
        if vi < 0 {
            Err(NetworkError::UnknownVariable)
        } else {
            let row = find_name(self.states[vi], value);
            if row < 0 {
                Err(NetworkError::UnknownValue)
            } else {
                match self.col_of(self.parents[vi], asgn) {
                    Err(e) => Err(e),
                    Ok(c) => Ok(self.cpts[vi][row][c]),
                }
            }
        }
    }

    /// Row and error reporting of a value lookup: the state index of `value`
    /// in the domain of `variable`.
    pub open spec fn state_index_of(self, variable: Seq<char>, value: Seq<char>) -> Result<
        int,
        NetworkError,
    > {
        let vi = self.var_idx(variable);
        if vi < 0 {
            Err(NetworkError::UnknownVariable)
        } else {
            let si = find_name(self.states[vi], value);
            if si < 0 {
                Err(NetworkError::UnknownValue)
            } else {
                Ok(si)
            }
        }
    }

    /// Domain size of `variable`, with the same failure as `state_index_of`
    /// on an unknown variable.
    pub open spec fn num_states_of(self, variable: Seq<char>) -> Result<int, NetworkError> {
        let vi = self.var_idx(variable);
        if vi < 0 {
            Err(NetworkError::UnknownVariable)
        } else {
            Ok(self.states[vi].len() as int)
        }
    }

    /// All joint assignments to the parent list `ps`, ordered so that the
    /// assignment at position `j` selects column `j` (the last parent varies
    /// fastest); each assignment lists its pairs in parent declaration order.
    pub open spec fn assignments_of(self, ps: Seq<Seq<char>>) -> Seq<
        Seq<(Seq<char>, Seq<char>)>,
    >
        decreases ps.len(),
    {
        if ps.len() == 0 {
            seq![Seq::empty()]
        } else {
            let sub = self.assignments_of(ps.drop_last());
            let p = ps.last();
            let dom = self.states[self.var_idx(p)];
            Seq::new(
                sub.len() * dom.len(),
                |j: int| sub[j / dom.len() as int].push((p, dom[j % dom.len() as int])),
            )
        }
    }

    /// Variable `i` can be emitted next: it is not in `done` and every parent
    /// of it is.
    pub open spec fn ready(self, i: int, done: Seq<int>) -> bool {
        &&& !done.contains(i)
        &&& forall|j: int|
            0 <= j < self.parents[i].len() ==> done.contains(
                self.var_idx(#[trigger] self.parents[i][j]),
            )
    }

    /// Among the variables of index below `upto` that are ready, the one with
    /// the lexicographically least name; `-1` if none is ready.
    pub open spec fn best_ready(self, done: Seq<int>, upto: int) -> int
        decreases upto,
    {
        if upto <= 0 {
            -1
        } else {
            let rest = self.best_ready(done, upto - 1);
            let i = upto - 1;
            if self.ready(i, done) && (rest < 0 || lex_lt(self.variables[i], self.variables[rest]))
            {
                i
            } else {
                rest
            }
        }
    }

    /// Greedy topological order of the variables not yet in `done`: emit the
    /// ready variable with the least name until none remains, and report a
    /// cyclic graph if unemitted variables remain but none is ready.
    pub open spec fn topo_from(self, done: Seq<int>) -> Result<Seq<int>, NetworkError>
        decreases self.var_count() - done.len(),
    {
        if done.len() >= self.var_count() {
            Ok(Seq::empty())
        } else {
            let b = self.best_ready(done, self.var_count());
            if b < 0 {
                Err(NetworkError::CyclicGraph)
            } else {
                match self.topo_from(done.push(b)) {
                    Err(e) => Err(e),
                    Ok(rest) => Ok(seq![b] + rest),
                }
            }
        }
    }

    /// The topological order of all variables, as indices into `variables`.
    pub open spec fn topo_order(self) -> Result<Seq<int>, NetworkError> {
        self.topo_from(Seq::empty())
    }

    /// The topological order of all variables, as names.
    pub open spec fn topo_names(self) -> Result<Seq<Seq<char>>, NetworkError> {
        match self.topo_order() {
            Ok(ids) => Ok(Seq::new(ids.len(), |t: int| self.variables[ids[t]])),
            Err(e) => Err(e),
        }
    }
}

/// The enumeration of parent assignments has exactly one entry per column of
/// the table.
pub proof fn lemma_assignments_len(m: NetworkModel, ps: Seq<Seq<char>>)
    ensures
        m.assignments_of(ps).len() == table_width(m.variables, m.states, ps),
    decreases ps.len(),
{
    if ps.len() > 0 {
        lemma_assignments_len(m, ps.drop_last());
    }
}

/// Index of the first pair of `s` whose key is `x`, or `-1` if there is none.
pub open spec fn assoc_find(s: Seq<(Seq<char>, Seq<char>)>, x: Seq<char>) -> int
    decreases s.len(),
{
    if s.len() == 0 {
        -1
    } else if s[0].0 == x {
        0
    } else {
        let r = assoc_find(s.drop_first(), x);
        if r < 0 {
            -1
        } else {
            r + 1
        }
    }
}

/// Value bound to the key `x` by the first pair with that key, if any: the
/// mapping an association list denotes.
pub open spec fn assoc_lookup(s: Seq<(Seq<char>, Seq<char>)>, x: Seq<char>) -> Option<Seq<char>> {
    let r = assoc_find(s, x);
    if r < 0 {
        None
    } else {
        Some(s[r].1)
    }
}

/// What `assoc_find` returns: a nonnegative result is the first match, a
/// negative result means there is no match at all.
pub proof fn lemma_assoc_find(s: Seq<(Seq<char>, Seq<char>)>, x: Seq<char>)
    ensures
        assoc_find(s, x) >= 0 ==> 0 <= assoc_find(s, x) < s.len() && s[assoc_find(s, x)].0 == x
            && (forall|k: int| 0 <= k < assoc_find(s, x) ==> s[k].0 != x),
        assoc_find(s, x) < 0 ==> assoc_find(s, x) == -1 && (forall|k: int|
            0 <= k < s.len() ==> s[k].0 != x),
    decreases s.len(),
{
    if s.len() > 0 && s[0].0 != x {
        lemma_assoc_find(s.drop_first(), x);
        assert(forall|k: int| 1 <= k < s.len() ==> s[k] == s.drop_first()[k - 1]);
    }
}

/// `assoc_find` returns `i` when the key of `s[i]` is `x` and no earlier key
/// is.
pub proof fn lemma_assoc_find_first(s: Seq<(Seq<char>, Seq<char>)>, x: Seq<char>, i: int)
    requires
        0 <= i < s.len(),
        s[i].0 == x,
        forall|k: int| 0 <= k < i ==> s[k].0 != x,
    ensures
        assoc_find(s, x) == i,
    decreases s.len(),
{
    if i > 0 {
        assert(s.drop_first()[i - 1].0 == x);
        assert(forall|k: int| 0 <= k < i - 1 ==> s.drop_first()[k] == s[k + 1]);
        lemma_assoc_find_first(s.drop_first(), x, i - 1);
    }
}

/// Appending a pair never changes the binding of a key that is already bound,
/// and binds an unbound key exactly when the new pair carries it.
pub proof fn lemma_assoc_push(
    s: Seq<(Seq<char>, Seq<char>)>,
    key: Seq<char>,
    val: Seq<char>,
    x: Seq<char>,
)
    ensures
        assoc_lookup(s.push((key, val)), x) == if assoc_lookup(s, x) is Some {
            assoc_lookup(s, x)
        } else if key == x {
            Some(val)
        } else {
            None::<Seq<char>>
        },
{
    lemma_assoc_find(s, x);
    let t = s.push((key, val));
    assert(forall|k: int| 0 <= k < s.len() ==> t[k] == s[k]);
    if assoc_find(s, x) >= 0 {
        lemma_assoc_find_first(t, x, assoc_find(s, x));
    } else if key == x {
        lemma_assoc_find_first(t, x, s.len() as int);
    } else {
        lemma_assoc_find(t, x);
        if assoc_find(t, x) >= 0 {
            if assoc_find(t, x) < s.len() {
                assert(s[assoc_find(t, x)].0 == x);
            }
        }
    }
}

/// Whether every name of `ps` is a variable of `m` with a non-empty domain;
/// what the width and column lemmas need of a parent list.
pub open spec fn parents_doms_ok(m: NetworkModel, ps: Seq<Seq<char>>) -> bool {
    forall|j: int|
        0 <= j < ps.len() ==> {
            let pi = m.var_idx(#[trigger] ps[j]);
            &&& 0 <= pi < m.states.len()
            &&& m.states[pi].len() >= 1
        }
}

/// In a well-formed model, every parent list satisfies
/// [`parents_doms_ok`].
pub proof fn lemma_wf_parents_doms_ok(m: NetworkModel, i: int)
    requires
        m.wf(),
        0 <= i < m.var_count(),
    ensures
        parents_doms_ok(m, m.parents[i]),
{
    assert forall|j: int| 0 <= j < m.parents[i].len() implies {
        let pi = m.var_idx(#[trigger] m.parents[i][j]);
        &&& 0 <= pi < m.states.len()
        &&& m.states[pi].len() >= 1
    } by {
        lemma_find_name(m.variables, m.parents[i][j]);
    }
}

/// A table width is never negative, whatever the parent list names.
pub proof fn lemma_width_nonneg(
    variables: Seq<Seq<char>>,
    states: Seq<Seq<Seq<char>>>,
    ps: Seq<Seq<char>>,
)
    ensures
        table_width(variables, states, ps) >= 0,
    decreases ps.len(),
{
    if ps.len() > 0 {
        lemma_width_nonneg(variables, states, ps.drop_last());
        let w = table_width(variables, states, ps.drop_last());
        let d = states[find_name(variables, ps.last())].len() as int;
        assert(w * d >= 0) by (nonlinear_arith)
            requires
                w >= 0,
                d >= 0,
        ;
    }
}

/// A table over parents with non-empty domains has at least one column.
pub proof fn lemma_width_pos(m: NetworkModel, ps: Seq<Seq<char>>)
    requires
        parents_doms_ok(m, ps),
    ensures
        table_width(m.variables, m.states, ps) >= 1,
    decreases ps.len(),
{
    if ps.len() > 0 {
        assert(forall|j: int| 0 <= j < ps.len() - 1 ==> ps.drop_last()[j] == ps[j]);
        lemma_width_pos(m, ps.drop_last());
        let w = table_width(m.variables, m.states, ps.drop_last());
        let d = m.states[m.var_idx(ps.last())].len() as int;
        assert(ps.last() == ps[ps.len() - 1]);
        assert(w * d >= 1) by (nonlinear_arith)
            requires
                w >= 1,
                d >= 1,
        ;
    }
}

/// Widths only grow as a parent list is extended.
pub proof fn lemma_width_take_le(m: NetworkModel, ps: Seq<Seq<char>>, t: int)
    requires
        parents_doms_ok(m, ps),
        0 <= t <= ps.len(),
    ensures
        table_width(m.variables, m.states, ps.take(t)) <= table_width(m.variables, m.states, ps),
    decreases ps.len() - t,
{
    if t == ps.len() {
        assert(ps.take(t) =~= ps);
    } else {
        assert(ps.take(t + 1).drop_last() =~= ps.take(t));
        assert(ps.take(t + 1).last() == ps[t]);
        assert(forall|j: int| 0 <= j < t ==> ps.take(t)[j] == ps[j]);
        lemma_width_pos(m, ps.take(t));
        let w = table_width(m.variables, m.states, ps.take(t));
        let d = m.states[m.var_idx(ps[t])].len() as int;
        assert(w <= w * d) by (nonlinear_arith)
            requires
                w >= 1,
                d >= 1,
        ;
        lemma_width_take_le(m, ps, t + 1);
    }
}

/// A computed column index addresses a column of its table.
pub proof fn lemma_col_of_bound(
    m: NetworkModel,
    ps: Seq<Seq<char>>,
    asgn: Seq<(Seq<char>, Seq<char>)>,
)
    requires
        parents_doms_ok(m, ps),
    ensures
        match m.col_of(ps, asgn) {
            Ok(c) => 0 <= c < table_width(m.variables, m.states, ps),
            Err(_) => true,
        },
    decreases ps.len(),
{
    if ps.len() > 0 && m.col_of(ps, asgn) is Ok {
        assert(forall|j: int| 0 <= j < ps.len() - 1 ==> ps.drop_last()[j] == ps[j]);
        lemma_col_of_bound(m, ps.drop_last(), asgn);
        let p = ps.last();
        assert(p == ps[ps.len() - 1]);
        let c = m.col_of(ps.drop_last(), asgn)->Ok_0;
        let w = table_width(m.variables, m.states, ps.drop_last());
        let d = m.dom_size(p);
        let val = assoc_lookup(asgn, p)->Some_0;
        let si = find_name(m.states[m.var_idx(p)], val);
        lemma_find_name(m.states[m.var_idx(p)], val);
        assert(c * d + si < w * d) by (nonlinear_arith)
            requires
                0 <= c < w,
                0 <= si < d,
        ;
    }
}

/// A failing prefix decides the whole column computation.
pub proof fn lemma_col_of_prefix_err(
    m: NetworkModel,
    ps: Seq<Seq<char>>,
    asgn: Seq<(Seq<char>, Seq<char>)>,
    t: int,
)
    requires
        0 <= t <= ps.len(),
        m.col_of(ps.take(t), asgn) is Err,
    ensures
        m.col_of(ps, asgn) == m.col_of(ps.take(t), asgn),
    decreases ps.len() - t,
{
    if t == ps.len() {
        assert(ps.take(t) =~= ps);
    } else {
        assert(ps.take(t + 1).drop_last() =~= ps.take(t));
        lemma_col_of_prefix_err(m, ps, asgn, t + 1);
    }
}

/// The column computation reads an assignment only through the bindings of
/// the parents, so assignments that bind the parents alike select the same
/// column.
pub proof fn lemma_col_of_agrees(
    m: NetworkModel,
    ps: Seq<Seq<char>>,
    a1: Seq<(Seq<char>, Seq<char>)>,
    a2: Seq<(Seq<char>, Seq<char>)>,
)
    requires
        forall|k: int| 0 <= k < ps.len() ==> assoc_lookup(a1, #[trigger] ps[k]) == assoc_lookup(
            a2,
            ps[k],
        ),
    ensures
        m.col_of(ps, a1) == m.col_of(ps, a2),
    decreases ps.len(),
{
    if ps.len() > 0 {
        assert(forall|k: int| 0 <= k < ps.len() - 1 ==> ps.drop_last()[k] == ps[k]);
        lemma_col_of_agrees(m, ps.drop_last(), a1, a2);
        assert(ps.last() == ps[ps.len() - 1]);
    }
}

/// The coupling of enumeration and indexing: the assignment at position `j`
/// of the enumeration binds exactly the parents, in declaration order, and
/// selects column `j`.
pub proof fn lemma_assignment_cols(m: NetworkModel, ps: Seq<Seq<char>>, j: int)
    requires
        distinct_names(ps),
        parents_doms_ok(m, ps),
        forall|k: int|
            0 <= k < ps.len() ==> distinct_names(m.states[m.var_idx(#[trigger] ps[k])]),
        0 <= j < m.assignments_of(ps).len(),
    ensures
        ({
            let a = m.assignments_of(ps)[j];
            &&& a.len() == ps.len()
            &&& forall|k: int| 0 <= k < ps.len() ==> (#[trigger] a[k]).0 == ps[k]
            &&& forall|k: int|
                0 <= k < ps.len() ==> find_name(
                    m.states[m.var_idx(ps[k])],
                    (#[trigger] a[k]).1,
                ) >= 0
            &&& m.col_of(ps, a) == Ok::<int, NetworkError>(j)
        }),
    decreases ps.len(),
{
    if ps.len() == 0 {
        let a = m.assignments_of(ps)[j];
        assert(a =~= Seq::<(Seq<char>, Seq<char>)>::empty());
    } else {
        let p = ps.last();
        assert(p == ps[ps.len() - 1]);
        let pi = m.var_idx(p);
        let dom = m.states[pi];
        let d = dom.len() as int;
        let sub = m.assignments_of(ps.drop_last());
        let q = j / d;
        let rr = j % d;
        vstd::arithmetic::div_mod::lemma_fundamental_div_mod(j, d);
        vstd::arithmetic::div_mod::lemma_mod_pos_bound(j, d);
        assert(0 <= q && q < sub.len()) by (nonlinear_arith)
            requires
                d >= 1,
                0 <= j,
                j < sub.len() * d,
                j == d * q + rr,
                0 <= rr < d,
        ;
        assert(forall|k: int| 0 <= k < ps.len() - 1 ==> ps.drop_last()[k] == ps[k]);
        lemma_assignment_cols(m, ps.drop_last(), q);
        let suba = sub[q];
        let a = m.assignments_of(ps)[j];
        assert(a == suba.push((p, dom[rr])));
        // the parents before the last see the same bindings in `a` and `suba`
        assert forall|k: int| 0 <= k < ps.drop_last().len() implies assoc_lookup(
            a,
            #[trigger] ps.drop_last()[k],
        ) == assoc_lookup(suba, ps.drop_last()[k]) by {
            assert(ps.drop_last()[k] != p);
            lemma_assoc_push(suba, p, dom[rr], ps.drop_last()[k]);
        }
        lemma_col_of_agrees(m, ps.drop_last(), a, suba);
        // the last parent is not bound by `suba`, so the pushed pair binds it
        assert forall|k: int| 0 <= k < suba.len() implies (#[trigger] suba[k]).0 != p by {
            assert(suba[k].0 == ps.drop_last()[k]);
        }
        lemma_assoc_find(suba, p);
        lemma_assoc_push(suba, p, dom[rr], p);
        assert(assoc_lookup(a, p) == Some(dom[rr]));
        lemma_find_name_first(dom, dom[rr], rr);
        assert(m.col_of(ps, a) == Ok::<int, NetworkError>(q * d + rr));
        assert(q * d + rr == j) by (nonlinear_arith)
            requires
                j == d * q + rr,
        ;
    }
}

/// The stride law for two parents: with `parents = [A, B]`, the column an
/// assignment selects is `state_index(B) + |domain(B)| * state_index(A)` —
/// the last-declared parent varies fastest.
pub proof fn lemma_stride_two_parents(
    m: NetworkModel,
    ps: Seq<Seq<char>>,
    asgn: Seq<(Seq<char>, Seq<char>)>,
)
    requires
        ps.len() == 2,
        assoc_lookup(asgn, ps[0]) is Some,
        assoc_lookup(asgn, ps[1]) is Some,
        find_name(m.states[m.var_idx(ps[0])], assoc_lookup(asgn, ps[0])->Some_0) >= 0,
        find_name(m.states[m.var_idx(ps[1])], assoc_lookup(asgn, ps[1])->Some_0) >= 0,
    ensures
        m.col_of(ps, asgn) == Ok::<int, NetworkError>(
            find_name(m.states[m.var_idx(ps[1])], assoc_lookup(asgn, ps[1])->Some_0)
                + m.dom_size(ps[1]) * find_name(
                m.states[m.var_idx(ps[0])],
                assoc_lookup(asgn, ps[0])->Some_0,
            ),
        ),
{
    let first = ps.drop_last();
    assert(first.len() == 1);
    assert(first[0] == ps[0]);
    assert(first.last() == ps[0]);
    assert(first.drop_last() =~= Seq::<Seq<char>>::empty());
    assert(ps.last() == ps[1]);
    let sa = find_name(m.states[m.var_idx(ps[0])], assoc_lookup(asgn, ps[0])->Some_0);
    let sb = find_name(m.states[m.var_idx(ps[1])], assoc_lookup(asgn, ps[1])->Some_0);
    assert(first.drop_last().len() == 0);
    assert(m.col_of(first.drop_last(), asgn) == Ok::<int, NetworkError>(0));
    assert(m.col_of(first, asgn) == Ok::<int, NetworkError>(0 * m.dom_size(ps[0]) + sa));
    assert(sa * m.dom_size(ps[1]) + sb == sb + m.dom_size(ps[1]) * sa) by (nonlinear_arith);
    assert(m.col_of(ps, asgn) == Ok::<int, NetworkError>(sa * m.dom_size(ps[1]) + sb));
}

/// The lookup law: a variable outside the network fails as an unknown
/// variable; a value outside a known variable's domain fails as an unknown
/// value.
pub proof fn lemma_unknown_lookups(
    m: NetworkModel,
    variable: Seq<char>,
    value: Seq<char>,
    asgn: Seq<(Seq<char>, Seq<char>)>,
)
    ensures
        !m.has_var(variable) ==> m.cond_prob(variable, value, asgn) == Err::<Prob, NetworkError>(
            NetworkError::UnknownVariable,
        ),
        m.has_var(variable) && find_name(m.states[m.var_idx(variable)], value) < 0
            ==> m.cond_prob(variable, value, asgn) == Err::<Prob, NetworkError>(
            NetworkError::UnknownValue,
        ),
{
}

/// What `best_ready` returns, when it returns a variable: one below `upto`
/// that is ready.
pub proof fn lemma_best_ready_props(m: NetworkModel, done: Seq<int>, upto: int)
    ensures
        m.best_ready(done, upto) >= 0 ==> 0 <= m.best_ready(done, upto) < upto && m.ready(
            m.best_ready(done, upto),
            done,
        ),
    decreases upto,
{
    if upto > 0 {
        lemma_best_ready_props(m, done, upto - 1);
    }
}

/// When no variable below `upto` is ready, `best_ready` says so of each.
pub proof fn lemma_best_ready_none(m: NetworkModel, done: Seq<int>, upto: int)
    requires
        m.best_ready(done, upto) < 0,
    ensures
        forall|i: int| 0 <= i < upto ==> !m.ready(i, done),
    decreases upto,
{
    if upto > 0 {
        lemma_best_ready_none(m, done, upto - 1);
    }
}

/// A set of variables that blocks itself: non-empty, within the network,
/// and every member has a parent inside the set.  Such a set exists exactly
/// when the parent graph has a cycle.
pub open spec fn stuck_set(m: NetworkModel, s: Set<int>) -> bool {
    &&& forall|i: int| #[trigger] s.contains(i) ==> 0 <= i < m.var_count()
    &&& exists|i: int| s.contains(i)
    &&& forall|i: int|
        #[trigger] s.contains(i) ==> exists|j: int|
            0 <= j < m.parents[i].len() && #[trigger] s.contains(
                m.var_idx(m.parents[i][j]),
            )
}

/// Whether the parent graph admits no topological order: some set of
/// variables blocks itself.
pub open spec fn has_cycle(m: NetworkModel) -> bool {
    exists|s: Set<int>| stuck_set(m, s)
}

/// A failing sort exhibits a self-blocking set: the variables that remain.
proof fn lemma_topo_err_cycle(m: NetworkModel, done: Seq<int>)
    requires
        m.wf(),
        m.topo_from(done) is Err,
        done.no_duplicates(),
        forall|k: int| 0 <= k < done.len() ==> 0 <= #[trigger] done[k] < m.var_count(),
    ensures
        has_cycle(m),
    decreases m.var_count() - done.len(),
{
    broadcast use vstd::seq_lib::lemma_seq_contains_after_push;
    broadcast use vstd::seq_lib::seq_to_set_is_finite;

    let n = m.var_count();
    let b = m.best_ready(done, n);
    if b >= 0 {
        lemma_best_ready_props(m, done, n);
        assert forall|k1: int, k2: int|
            0 <= k1 < k2 < done.push(b).len() implies done.push(b)[k1] != done.push(b)[k2] by {
            if k2 == done.len() {
                assert(!done.contains(b));
                if done.push(b)[k1] == b {
                    assert(done[k1] == b);
                    assert(done.contains(b));
                }
            }
        }
        lemma_topo_err_cycle(m, done.push(b));
    } else {
        lemma_best_ready_none(m, done, n);
        let all = vstd::set_lib::set_int_range(0, n);
        vstd::set_lib::lemma_int_range(0, n);
        let ds = done.to_set();
        done.unique_seq_to_set();
        assert forall|x: int| #[trigger] ds.contains(x) implies all.contains(x) by {
            let k = choose|k: int| 0 <= k < done.len() && done[k] == x;
        }
        vstd::set_lib::lemma_len_subset(ds, all);
        let s = all.difference(ds);
        assert(exists|x: int| s.contains(x)) by {
            if forall|x: int| !#[trigger] s.contains(x) {
                assert forall|x: int| #[trigger] all.contains(x) implies ds.contains(x) by {
                    assert(!s.contains(x));
                }
                vstd::set_lib::lemma_len_subset(all, ds);
            }
        }
        assert forall|i: int| #[trigger] s.contains(i) implies exists|j: int|
            0 <= j < m.parents[i].len() && #[trigger] s.contains(
                m.var_idx(m.parents[i][j]),
            ) by {
            assert(0 <= i < n);
            assert(!done.contains(i));
            assert(!m.ready(i, done));
            let j = choose|j: int|
                0 <= j < m.parents[i].len() && !done.contains(
                    m.var_idx(#[trigger] m.parents[i][j]),
                );
            let pi = m.var_idx(m.parents[i][j]);
            lemma_find_name(m.variables, m.parents[i][j]);
            assert(all.contains(pi));
            assert(!ds.contains(pi));
            assert(s.contains(pi));
        }
        assert(stuck_set(m, s));
    }
}

/// The least position of `order` whose variable lies in `s`.
proof fn lemma_first_in_order(order: Seq<int>, s: Set<int>, u: int) -> (u0: int)
    requires
        0 <= u < order.len(),
        s.contains(order[u]),
    ensures
        0 <= u0 < order.len(),
        s.contains(order[u0]),
        forall|w: int| 0 <= w < u0 ==> !s.contains(#[trigger] order[w]),
    decreases u,
{
    if exists|w: int| 0 <= w < u && s.contains(#[trigger] order[w]) {
        let w = choose|w: int| 0 <= w < u && s.contains(#[trigger] order[w]);
        lemma_first_in_order(order, s, w)
    } else {
        u
    }
}

/// With a self-blocking set, no topological order exists: the set's first
/// emitted member would need a parent emitted before it.
proof fn lemma_cycle_topo_err(m: NetworkModel)
    requires
        m.wf(),
        has_cycle(m),
    ensures
        m.topo_order() is Err,
{
    broadcast use vstd::seq_lib::seq_to_set_is_finite;

    if m.topo_order() is Ok {
        let order = m.topo_order()->Ok_0;
        lemma_topo_from_sound(m, Seq::empty());
        let n = m.var_count();
        assert forall|k1: int, k2: int| 0 <= k1 < k2 < order.len() implies order[k1]
            != order[k2] by {}
        assert(order.no_duplicates());
        order.unique_seq_to_set();
        let os = order.to_set();
        let all = vstd::set_lib::set_int_range(0, n);
        vstd::set_lib::lemma_int_range(0, n);
        assert forall|x: int| #[trigger] os.contains(x) implies all.contains(x) by {
            let k = choose|k: int| 0 <= k < order.len() && order[k] == x;
        }
        vstd::set_lib::lemma_len_subset(os, all);
        assert(order.len() >= n);
        vstd::set_lib::lemma_subset_equality(os, all);
        let s = choose|s: Set<int>| stuck_set(m, s);
        let x = choose|x: int| s.contains(x);
        assert(all.contains(x));
        assert(order.contains(x));
        let u = choose|u: int| 0 <= u < order.len() && order[u] == x;
        let u0 = lemma_first_in_order(order, s, u);
        let i = order[u0];
        assert(s.contains(i));
        let j = choose|j: int|
            0 <= j < m.parents[i].len() && #[trigger] s.contains(
                m.var_idx(m.parents[i][j]),
            );
        let pi = m.var_idx(m.parents[i][j]);
        assert((Seq::<int>::empty() + order.take(u0)).contains(pi));
        assert(Seq::<int>::empty() + order.take(u0) =~= order.take(u0));
        let w = choose|w: int| 0 <= w < order.take(u0).len() && order.take(u0)[w] == pi;
        assert(order[w] == pi);
        assert(!s.contains(order[w]));
        assert(false);
    }
}

/// The only failure the greedy sort reports is a cyclic graph.
proof fn lemma_topo_err_value(m: NetworkModel, done: Seq<int>)
    requires
        m.topo_from(done) is Err,
    ensures
        m.topo_from(done) == Err::<Seq<int>, NetworkError>(NetworkError::CyclicGraph),
    decreases m.var_count() - done.len(),
{
    if done.len() < m.var_count() && m.best_ready(done, m.var_count()) >= 0 {
        lemma_topo_err_value(m, done.push(m.best_ready(done, m.var_count())));
    }
}

/// The cycle law: the topological sort reports a cyclic graph exactly when
/// some non-empty set of variables each have a parent within the set, and
/// otherwise emits every variable after all its parents.
pub proof fn lemma_cycle_detection(m: NetworkModel)
    requires
        m.wf(),
    ensures
        m.topo_order() == Err::<Seq<int>, NetworkError>(NetworkError::CyclicGraph) <==> has_cycle(
            m,
        ),
{
    if has_cycle(m) {
        lemma_cycle_topo_err(m);
        lemma_topo_err_value(m, Seq::empty());
    }
    if m.topo_order() is Err {
        assert(Seq::<int>::empty().no_duplicates());
        lemma_topo_err_cycle(m, Seq::empty());
    }
}

/// Soundness of the greedy order: whatever it emits after `done` is a list
/// of distinct, fresh variables that covers everything not yet emitted, and
/// every variable's parents are emitted before it.
pub proof fn lemma_topo_from_sound(m: NetworkModel, done: Seq<int>)
    requires
        m.topo_from(done) is Ok,
    ensures
        ({
            let rest = m.topo_from(done)->Ok_0;
            &&& done.len() + rest.len() >= m.var_count()
            &&& forall|u: int| 0 <= u < rest.len() ==> 0 <= #[trigger] rest[u] < m.var_count()
            &&& forall|u: int| 0 <= u < rest.len() ==> !done.contains(#[trigger] rest[u])
            &&& forall|u1: int, u2: int| 0 <= u1 < u2 < rest.len() ==> rest[u1] != rest[u2]
            &&& forall|u: int, jj: int|
                0 <= u < rest.len() && 0 <= jj < m.parents[rest[u]].len() ==> (done + rest.take(
                    u,
                )).contains(m.var_idx(#[trigger] m.parents[rest[u]][jj]))
        }),
    decreases m.var_count() - done.len(),
{
    broadcast use vstd::seq_lib::lemma_seq_contains_after_push;

    if done.len() < m.var_count() {
        let b = m.best_ready(done, m.var_count());
        lemma_best_ready_props(m, done, m.var_count());
        let tail = m.topo_from(done.push(b))->Ok_0;
        lemma_topo_from_sound(m, done.push(b));
        let rest = m.topo_from(done)->Ok_0;
        assert(rest == seq![b] + tail);
        assert(rest[0] == b);
        assert(forall|u: int| 1 <= u < rest.len() ==> rest[u] == tail[u - 1]);
        assert(done + rest.take(0) =~= done);
        assert forall|u: int, jj: int|
            0 <= u < rest.len() && 0 <= jj < m.parents[rest[u]].len() implies (done + rest.take(
            u,
        )).contains(m.var_idx(#[trigger] m.parents[rest[u]][jj])) by {
            if u == 0 {
                assert(m.ready(b, done));
                assert(done.contains(m.var_idx(m.parents[b][jj])));
                let w = choose|w: int|
                    0 <= w < done.len() && done[w] == m.var_idx(m.parents[b][jj]);
                assert((done + rest.take(0))[w] == m.var_idx(m.parents[b][jj]));
            } else {
                assert((done.push(b) + tail.take(u - 1)).contains(
                    m.var_idx(m.parents[tail[u - 1]][jj]),
                ));
                assert(done.push(b) + tail.take(u - 1) =~= done + rest.take(u));
            }
        }
    }
}

/// A mapping from parent names to value labels, as an ordered list of pairs;
/// the first pair with a given key is its binding.
pub struct Assignment {
    pairs: Vec<(String, String)>,
}

impl View for Assignment {
    type V = Seq<(Seq<char>, Seq<char>)>;

    closed spec fn view(&self) -> Seq<(Seq<char>, Seq<char>)> {
        Seq::new(self.pairs@.len(), |i: int| (self.pairs@[i].0@, self.pairs@[i].1@))
    }
}

impl Assignment {
    /// The empty assignment.
    pub fn new() -> (r: Assignment)
        ensures
            r@ == Seq::<(Seq<char>, Seq<char>)>::empty(),
    {
        let a = Assignment { pairs: Vec::new() };
        proof {
            assert(a@ =~= Seq::<(Seq<char>, Seq<char>)>::empty());
        }
        a
    }

    /// Number of pairs.
    pub fn len(&self) -> (r: usize)
        ensures
            r == self@.len(),
    {
        self.pairs.len()
    }

    /// Whether there are no pairs.
    pub fn is_empty(&self) -> (r: bool)
        ensures
            r == (self@.len() == 0),
    {
        self.pairs.len() == 0
    }

    /// Append the pair `(name, value)`.  If `name` is already bound, the
    /// earlier binding keeps priority on lookups.
    pub fn assign(&mut self, name: String, value: String)
        ensures
            final(self)@ == old(self)@.push((name@, value@)),
    {
        let ghost before = self@;
        self.pairs.push((name, value));
        proof {
            assert(self@ =~= before.push((name@, value@)));
        }
    }

    /// The value bound to `name`, if any.
    pub fn get(&self, name: &str) -> (r: Option<&String>)
        ensures
            match r {
                Some(v) => assoc_lookup(self@, name@) == Some(v@),
                None => assoc_lookup(self@, name@) is None,
            },
    {
        let mut i: usize = 0;
        while i < self.pairs.len()
            invariant
                0 <= i <= self.pairs@.len(),
                self@.len() == self.pairs@.len(),
                forall|k: int| 0 <= k < self.pairs@.len() ==> #[trigger] self@[k] == (
                self.pairs@[k].0@, self.pairs@[k].1@),
                forall|k: int| 0 <= k < i ==> #[trigger] self@[k].0 != name@,
            decreases self.pairs@.len() - i,
        {
            if str_eq(self.pairs[i].0.as_str(), name) {
                proof {
                    lemma_assoc_find_first(self@, name@, i as int);
                }
                return Some(&self.pairs[i].1);
            }
            i += 1;
        }
        proof {
            lemma_assoc_find(self@, name@);
        }
        None
    }
}

/// Whether each variable has an entry in each of the three keyed tables.
pub open spec fn fields_present(
    variables: Seq<Seq<char>>,
    cpts: Seq<(String, Vec<Vec<Prob>>)>,
    states: Seq<(String, Vec<String>)>,
    parents: Seq<(String, Vec<String>)>,
) -> bool {
    forall|i: int|
        0 <= i < variables.len() ==> key_find(cpts, #[trigger] variables[i]) >= 0 && key_find(
            states,
            variables[i],
        ) >= 0 && key_find(parents, variables[i]) >= 0
}

/// The model described by a keyed structured input: the entry of each table
/// under each variable's name, aligned with the variable order.  Only
/// meaningful where [`fields_present`] holds.
pub open spec fn model_of(
    network: Seq<char>,
    variables: Seq<Seq<char>>,
    cpts: Seq<(String, Vec<Vec<Prob>>)>,
    states: Seq<(String, Vec<String>)>,
    parents: Seq<(String, Vec<String>)>,
) -> NetworkModel {
    NetworkModel {
        network,
        variables,
        states: Seq::new(
            variables.len(),
            |i: int| states[key_find(states, variables[i])].1.deep_view(),
        ),
        parents: Seq::new(
            variables.len(),
            |i: int| parents[key_find(parents, variables[i])].1.deep_view(),
        ),
        cpts: Seq::new(
            variables.len(),
            |i: int| cpts[key_find(cpts, variables[i])].1.deep_view(),
        ),
    }
}

/// A fresh vector with the same strings.
fn copy_strings(v: &Vec<String>) -> (r: Vec<String>)
    ensures
        r.deep_view() == v.deep_view(),
{
    let mut r: Vec<String> = Vec::new();
    let mut i: usize = 0;
    while i < v.len()
        invariant
            0 <= i <= v@.len(),
            r@.len() == i,
            forall|k: int| 0 <= k < i ==> r.deep_view()[k] == v.deep_view()[k],
        decreases v@.len() - i,
    {
        r.push(v[i].clone());
        i += 1;
    }
    proof {
        assert(r.deep_view() =~= v.deep_view());
    }
    r
}

/// A fresh table with the same probability entries.
fn copy_table(t: &Vec<Vec<Prob>>) -> (r: Vec<Vec<Prob>>)
    ensures
        r.deep_view() == t.deep_view(),
{
    let mut r: Vec<Vec<Prob>> = Vec::new();
    let mut i: usize = 0;
    while i < t.len()
        invariant
            0 <= i <= t@.len(),
            r@.len() == i,
            forall|k: int| 0 <= k < i ==> r.deep_view()[k] == t.deep_view()[k],
        decreases t@.len() - i,
    {
        let row = &t[i];
        let mut new_row: Vec<Prob> = Vec::new();
        let mut j: usize = 0;
        while j < row.len()
            invariant
                0 <= j <= row@.len(),
                new_row@.len() == j,
                forall|k: int| 0 <= k < j ==> new_row@[k] == row@[k],
            decreases row@.len() - j,
        {
            new_row.push(row[j]);
            j += 1;
        }
        proof {
            assert(new_row.deep_view() =~= row.deep_view());
        }
        r.push(new_row);
        i += 1;
    }
    proof {
        assert(r.deep_view() =~= t.deep_view());
    }
    r
}

/// Whether no two strings of `names` are equal.
fn check_distinct(names: &Vec<String>) -> (r: bool)
    ensures
        r == distinct_names(names.deep_view()),
{
    let mut i: usize = 0;
    while i < names.len()
        invariant
            0 <= i <= names@.len(),
            forall|x: int, y: int|
                0 <= x < y < names@.len() && x < i ==> names.deep_view()[x] != names.deep_view()[y],
        decreases names@.len() - i,
    {
        let mut j: usize = i + 1;
        while j < names.len()
            invariant
                i < j <= names@.len(),
                forall|y: int| i < y < j ==> names.deep_view()[i as int] != names.deep_view()[y],
            decreases names@.len() - j,
        {
            if str_eq(names[i].as_str(), names[j].as_str()) {
                proof {
                    assert(names.deep_view()[i as int] == names@[i as int]@);
                    assert(names.deep_view()[j as int] == names@[j as int]@);
                }
                return false;
            }
            j += 1;
        }
        i += 1;
    }
    true
}

/// Whether an executable index result agrees with its mathematical
/// counterpart: same error, or the same index.
pub open spec fn index_result_matches(
    r: Result<usize, NetworkError>,
    s: Result<int, NetworkError>,
) -> bool {
    match (r, s) {
        (Ok(a), Ok(b)) => a as int == b,
        (Err(a), Err(b)) => a == b,
        _ => false,
    }
}

/// An immutable discrete Bayesian network: variables with ordered domains,
/// ordered parent lists, and flattened conditional probability tables.  Its
/// model is always well formed; the constructor rejects anything else.
pub struct BayesianNetwork {
    network: String,
    variables: Vec<String>,
    states: Vec<Vec<String>>,
    parents: Vec<Vec<String>>,
    cpts: Vec<Vec<Vec<Prob>>>,
}

impl View for BayesianNetwork {
    type V = NetworkModel;

    closed spec fn view(&self) -> NetworkModel {
        NetworkModel {
            network: self.network@,
            variables: self.variables.deep_view(),
            states: self.states.deep_view(),
            parents: self.parents.deep_view(),
            cpts: self.cpts.deep_view(),
        }
    }
}

impl BayesianNetwork {
    /// The model of a network is well formed.
    #[verifier::type_invariant]
    pub open spec fn type_inv(self) -> bool {
        self@.wf()
    }

    /// Build a network from the five fields of the structured description.
    /// Rejects as malformed any input whose model would not be well formed: a
    /// variable without an entry in one of the keyed tables, duplicate
    /// variable names, an empty or duplicated domain, a duplicated or unknown
    /// parent, or a CPT whose dimensions do not match its variable's domain
    /// and parents.
    #[verifier::loop_isolation(false)]
    pub fn new(
        network: String,
        variables: Vec<String>,
        cpts: Vec<(String, Vec<Vec<Prob>>)>,
        states: Vec<(String, Vec<String>)>,
        parents: Vec<(String, Vec<String>)>,
    ) -> (r: Result<BayesianNetwork, NetworkError>)
        ensures
            match r {
                Ok(net) => fields_present(variables.deep_view(), cpts@, states@, parents@) && net@
                    == model_of(network@, variables.deep_view(), cpts@, states@, parents@)
                    && net@.wf(),
                Err(e) => e == NetworkError::MalformedNetwork && !(fields_present(
                    variables.deep_view(),
                    cpts@,
                    states@,
                    parents@,
                ) && model_of(network@, variables.deep_view(), cpts@, states@, parents@).wf()),
            },
    {
        let ghost varv = variables.deep_view();
        let ghost m = model_of(network@, varv, cpts@, states@, parents@);
        let n = variables.len();

        // align the three keyed tables with the variable order
        let mut s_al: Vec<Vec<String>> = Vec::new();
        let mut p_al: Vec<Vec<String>> = Vec::new();
        let mut c_al: Vec<Vec<Vec<Prob>>> = Vec::new();
        let mut i: usize = 0;
        while i < n
            invariant
                0 <= i <= n,
                s_al@.len() == i,
                p_al@.len() == i,
                c_al@.len() == i,
                forall|k: int| 0 <= k < i ==> key_find(states@, #[trigger] varv[k]) >= 0,
                forall|k: int| 0 <= k < i ==> key_find(parents@, #[trigger] varv[k]) >= 0,
                forall|k: int| 0 <= k < i ==> key_find(cpts@, #[trigger] varv[k]) >= 0,
                forall|k: int| 0 <= k < i ==> s_al.deep_view()[k] == #[trigger] m.states[k],
                forall|k: int| 0 <= k < i ==> p_al.deep_view()[k] == #[trigger] m.parents[k],
                forall|k: int| 0 <= k < i ==> c_al.deep_view()[k] == #[trigger] m.cpts[k],
            decreases n - i,
        {
            let v = &variables[i];
            proof {
                assert(variables.deep_view()[i as int] == variables@[i as int]@);
            }
            let si = match find_key_in(&states, v.as_str()) {
                Some(x) => x,
                None => {
                    return Err(NetworkError::MalformedNetwork);
                },
            };
            let pi = match find_key_in(&parents, v.as_str()) {
                Some(x) => x,
                None => {
                    return Err(NetworkError::MalformedNetwork);
                },
            };
            let ci = match find_key_in(&cpts, v.as_str()) {
                Some(x) => x,
                None => {
                    return Err(NetworkError::MalformedNetwork);
                },
            };
            s_al.push(copy_strings(&states[si].1));
            p_al.push(copy_strings(&parents[pi].1));
            c_al.push(copy_table(&cpts[ci].1));
            i += 1;
        }

        // variable names are unique
        if !check_distinct(&variables) {
            return Err(NetworkError::MalformedNetwork);
        }

        // domains non-empty with unique labels, parent lists without
        // duplicates, and one CPT row per domain value
        let mut i: usize = 0;
        while i < n
            invariant
                0 <= i <= n,
                forall|k: int| 0 <= k < i ==> (#[trigger] m.states[k]).len() >= 1,
                forall|k: int| 0 <= k < i ==> distinct_names(#[trigger] m.states[k]),
                forall|k: int| 0 <= k < i ==> distinct_names(#[trigger] m.parents[k]),
                forall|k: int| 0 <= k < i ==> (#[trigger] m.cpts[k]).len() == m.states[k].len(),
            decreases n - i,
        {
            proof {
                assert(m.states[i as int] == s_al@[i as int].deep_view());
                assert(m.parents[i as int] == p_al@[i as int].deep_view());
                assert(m.cpts[i as int] == c_al@[i as int].deep_view());
            }
            if s_al[i].len() == 0 {
                proof {
                    assert(m.states[i as int].len() == 0);
                    assert(!m.wf());
                }
                return Err(NetworkError::MalformedNetwork);
            }
            if !check_distinct(&s_al[i]) {
                proof {
                    assert(!distinct_names(m.states[i as int]));
                    assert(!m.wf());
                }
                return Err(NetworkError::MalformedNetwork);
            }
            if !check_distinct(&p_al[i]) {
                proof {
                    assert(!distinct_names(m.parents[i as int]));
                    assert(!m.wf());
                }
                return Err(NetworkError::MalformedNetwork);
            }
            if c_al[i].len() != s_al[i].len() {
                proof {
                    assert(m.cpts[i as int].len() != m.states[i as int].len());
                    assert(!m.wf());
                }
                return Err(NetworkError::MalformedNetwork);
            }
            i += 1;
        }

        // parents are variables, and every CPT row is as wide as the
        // joint parent domain
        let mut i: usize = 0;
        while i < n
            invariant
                0 <= i <= n,
                forall|k: int, j: int|
                    0 <= k < i && 0 <= j < m.parents[k].len() ==> m.has_var(
                        #[trigger] m.parents[k][j],
                    ),
                forall|k: int, r: int|
                    0 <= k < i && 0 <= r < m.cpts[k].len() ==> (#[trigger] m.cpts[k][r]).len()
                        == table_width(m.variables, m.states, m.parents[k]),
            decreases n - i,
        {
            let ps: &Vec<String> = &p_al[i];
            let ghost psv = m.parents[i as int];
            proof {
                assert(psv == p_al@[i as int].deep_view());
                assert(psv.take(0) =~= Seq::<Seq<char>>::empty());
                assert(m.cpts[i as int] == c_al@[i as int].deep_view());
            }
            let rows = c_al[i].len();
            proof {
                assert(rows as int == m.cpts[i as int].len());
                assert(rows >= 1);
            }
            let mut w: usize = 1;
            let mut j: usize = 0;
            while j < ps.len()
                invariant
                    0 <= j <= ps@.len(),
                    psv.len() == ps@.len(),
                    forall|jj: int| 0 <= jj < j ==> m.has_var(#[trigger] psv[jj]),
                    w as int == table_width(m.variables, m.states, psv.take(j as int)),
                decreases ps@.len() - j,
            {
                let ghost longer = psv.take(j as int + 1);
                proof {
                    assert(ps.deep_view()[j as int] == ps@[j as int]@);
                    assert(longer.drop_last() =~= psv.take(j as int));
                    assert(longer.last() == psv[j as int]);
                }
                let pj = match find_name_in(&variables, ps[j].as_str()) {
                    Some(x) => x,
                    None => {
                        return Err(NetworkError::MalformedNetwork);
                    },
                };
                proof {
                    lemma_find_name(m.variables, psv[j as int]);
                    assert(m.states[pj as int] == s_al@[pj as int].deep_view());
                }
                let d = s_al[pj].len();
                w = match w.checked_mul(d) {
                    Some(x) => x,
                    None => {
                        // the joint parent domain is wider than any vector
                        // can be, so some row must be of the wrong width
                        let row0_len = c_al[i][0].len();
                        proof {
                            if forall|jj: int| 0 <= jj < psv.len() ==> m.has_var(
                                #[trigger] psv[jj],
                            ) {
                                assert(parents_doms_ok(m, psv)) by {
                                    assert forall|jj: int| 0 <= jj < psv.len() implies {
                                        let pii = m.var_idx(#[trigger] psv[jj]);
                                        &&& 0 <= pii < m.states.len()
                                        &&& m.states[pii].len() >= 1
                                    } by {
                                        lemma_find_name(m.variables, psv[jj]);
                                    }
                                }
                                lemma_width_take_le(m, psv, j as int + 1);
                                assert(m.cpts[i as int][0].len() == row0_len as int);
                            }
                        }
                        return Err(NetworkError::MalformedNetwork);
                    },
                };
                j += 1;
            }
            proof {
                assert(psv.take(psv.len() as int) =~= psv);
            }
            let mut rr: usize = 0;
            while rr < c_al[i].len()
                invariant
                    0 <= rr <= c_al@[i as int]@.len(),
                    forall|r: int|
                        0 <= r < rr ==> (#[trigger] m.cpts[i as int][r]).len() == w as int,
                decreases c_al@[i as int]@.len() - rr,
            {
                proof {
                    assert(m.cpts[i as int] == c_al@[i as int].deep_view());
                    assert(m.cpts[i as int][rr as int] == c_al@[i as int]@[rr as int].deep_view());
                }
                if c_al[i][rr].len() != w {
                    return Err(NetworkError::MalformedNetwork);
                }
                rr += 1;
            }
            i += 1;
        }

        proof {
            assert(s_al.deep_view() =~= m.states);
            assert(p_al.deep_view() =~= m.parents);
            assert(c_al.deep_view() =~= m.cpts);
            assert(m.wf());
        }
        let net = BayesianNetwork { network, variables, states: s_al, parents: p_al, cpts: c_al };
        Ok(net)
    }

    /// Position of `variable` among the variables.
    fn var_index(&self, variable: &str) -> (r: Option<usize>)
        ensures
            match r {
                Some(i) => self@.var_idx(variable@) == i as int,
                None => self@.var_idx(variable@) == -1,
            },
    {
        find_name_in(&self.variables, variable)
    }

    /// All variables of the network, in canonical order.
    pub fn variables(&self) -> (r: &Vec<String>)
        ensures
            r.deep_view() == self@.variables,
    {
        &self.variables
    }

    /// The parents of `variable`, in declaration order.
    pub fn parents(&self, variable: &str) -> (r: Result<&Vec<String>, NetworkError>)
        ensures
            match r {
                Ok(ps) => self@.has_var(variable@) && ps.deep_view() == self@.parents[self@.var_idx(
                    variable@,
                )],
                Err(e) => !self@.has_var(variable@) && e == NetworkError::UnknownVariable,
            },
    {
        proof {
            use_type_invariant(&*self);
        }
        match self.var_index(variable) {
            Some(i) => {
                proof {
                    lemma_find_name(self@.variables, variable@);
                }
                Ok(&self.parents[i])
            },
            None => Err(NetworkError::UnknownVariable),
        }
    }

    /// All values `variable` can take, in domain order.
    pub fn all_possible_assignments(&self, variable: &str) -> (r: Result<
        &Vec<String>,
        NetworkError,
    >)
        ensures
            match r {
                Ok(dom) => self@.has_var(variable@) && dom.deep_view() == self@.states[self@.var_idx(
                    variable@,
                )],
                Err(e) => !self@.has_var(variable@) && e == NetworkError::UnknownVariable,
            },
    {
        proof {
            use_type_invariant(&*self);
        }
        match self.var_index(variable) {
            Some(i) => {
                proof {
                    lemma_find_name(self@.variables, variable@);
                }
                Ok(&self.states[i])
            },
            None => Err(NetworkError::UnknownVariable),
        }
    }

    /// State index of `value` in the domain of `variable`: the row of the
    /// CPT that `value` selects.
    pub fn state_index(&self, variable: &str, value: &str) -> (r: Result<usize, NetworkError>)
        ensures
            index_result_matches(r, self@.state_index_of(variable@, value@)),
    {
        proof {
            use_type_invariant(&*self);
        }
        match self.var_index(variable) {
            Some(i) => {
                proof {
                    lemma_find_name(self@.variables, variable@);
                }
                match find_name_in(&self.states[i], value) {
                    Some(si) => Ok(si),
                    None => Err(NetworkError::UnknownValue),
                }
            },
            None => Err(NetworkError::UnknownVariable),
        }
    }

    /// Domain size of `variable`.
    fn num_states(&self, variable: &str) -> (r: Result<usize, NetworkError>)
        ensures
            index_result_matches(r, self@.num_states_of(variable@)),
    {
        proof {
            use_type_invariant(&*self);
        }
        match self.var_index(variable) {
            Some(i) => {
                proof {
                    lemma_find_name(self@.variables, variable@);
                }
                Ok(self.states[i].len())
            },
            None => Err(NetworkError::UnknownVariable),
        }
    }

    /// The conditional probability `Pr(variable = variable_value |
    /// parent_assignment)`: the CPT entry at the row of the value's state
    /// index and the column the assignment selects under the mixed-radix
    /// encoding, in which the last-declared parent varies fastest.
    #[verifier::loop_isolation(false)]
    pub fn conditional_probability(
        &self,
        variable: &str,
        variable_value: &str,
        parent_assignment: &Assignment,
    ) -> (r: Result<Prob, NetworkError>)
        ensures
            r == self@.cond_prob(variable@, variable_value@, parent_assignment@),
    {
        proof {
            use_type_invariant(&*self);
        }
        let ghost m = self@;
        let vi = match self.var_index(variable) {
            Some(i) => i,
            None => {
                return Err(NetworkError::UnknownVariable);
            },
        };
        proof {
            lemma_find_name(m.variables, variable@);
        }
        proof {
            assert(m.states[vi as int] == self.states@[vi as int].deep_view());
        }
        let row = match find_name_in(&self.states[vi], variable_value) {
            Some(s) => s,
            None => {
                return Err(NetworkError::UnknownValue);
            },
        };
        proof {
            assert(find_name(m.states[vi as int], variable_value@) == row as int);
            lemma_find_name(m.states[vi as int], variable_value@);
        }
        let ps: &Vec<String> = &self.parents[vi];
        let ghost psv = m.parents[vi as int];
        let width_cap: usize = self.cpts[vi][row].len();
        proof {
            assert(width_cap as int == table_width(m.variables, m.states, psv));
            lemma_wf_parents_doms_ok(m, vi as int);
            lemma_width_pos(m, psv);
            assert(psv.take(0) =~= Seq::<Seq<char>>::empty());
        }
        let mut col: usize = 0;
        let mut t: usize = 0;
        while t < ps.len()
            invariant
                m == self@,
                m.wf(),
                psv == m.parents[vi as int],
                psv.len() == ps@.len(),
                forall|k: int| 0 <= k < ps@.len() ==> ps.deep_view()[k] == psv[k],
                0 <= t <= ps@.len(),
                parents_doms_ok(m, psv),
                m.col_of(psv.take(t as int), parent_assignment@) == Ok::<int, NetworkError>(
                    col as int,
                ),
                width_cap as int == table_width(m.variables, m.states, psv),
                col < table_width(m.variables, m.states, psv.take(t as int)),
                table_width(m.variables, m.states, psv.take(t as int)) <= width_cap as int,
            decreases ps@.len() - t,
        {
            let ghost prefix = psv.take(t as int);
            let ghost longer = psv.take(t as int + 1);
            proof {
                assert(longer.drop_last() =~= prefix);
                assert(longer.last() == psv[t as int]);
                assert(forall|j: int| 0 <= j < longer.len() ==> longer[j] == psv[j]);
            }
            let p: &String = &ps[t];
            proof {
                assert(ps.deep_view()[t as int] == ps@[t as int]@);
                assert(p@ == psv[t as int]);
            }
            let val = match parent_assignment.get(p.as_str()) {
                Some(v) => v,
                None => {
                    proof {
                        assert(m.col_of(longer, parent_assignment@) == Err::<int, NetworkError>(
                            NetworkError::MissingAssignment,
                        ));
                        lemma_col_of_prefix_err(m, psv, parent_assignment@, t as int + 1);
                    }
                    return Err(NetworkError::MissingAssignment);
                },
            };
            let pi = match self.var_index(p.as_str()) {
                Some(pi) => pi,
                None => {
                    proof {
                        assert(m.has_var(psv[t as int]));
                        assert(false);
                    }
                    return Err(NetworkError::UnknownVariable);
                },
            };
            proof {
                lemma_find_name(m.variables, psv[t as int]);
            }
            proof {
                assert(m.states[pi as int] == self.states@[pi as int].deep_view());
            }
            let si = match find_name_in(&self.states[pi], val.as_str()) {
                Some(si) => si,
                None => {
                    proof {
                        assert(m.col_of(longer, parent_assignment@) == Err::<int, NetworkError>(
                            NetworkError::UnknownValue,
                        ));
                        lemma_col_of_prefix_err(m, psv, parent_assignment@, t as int + 1);
                    }
                    return Err(NetworkError::UnknownValue);
                },
            };
            proof {
                lemma_find_name(m.states[pi as int], val@);
                lemma_width_pos(m, prefix);
                lemma_width_take_le(m, psv, t as int + 1);
                let w = table_width(m.variables, m.states, prefix);
                let d = m.states[pi as int].len() as int;
                assert(table_width(m.variables, m.states, longer) == w * d);
                assert((col as int) * d + (si as int) < w * d) by (nonlinear_arith)
                    requires
                        0 <= col as int,
                        (col as int) < w,
                        0 <= si as int,
                        (si as int) < d,
                ;
            }
            let dom_len = self.states[pi].len();
            col = col * dom_len + si;
            t += 1;
        }
        proof {
            assert(psv.take(ps@.len() as int) =~= psv);
        }
        Ok(self.cpts[vi][row][col])
    }

    /// All joint assignments to the parents of `variable`, in column order:
    /// the assignment at position `j` of the result selects column `j` of the
    /// variable's CPT.
    #[verifier::loop_isolation(false)]
    pub fn parent_assignments(&self, variable: &str) -> (r: Result<Vec<Assignment>, NetworkError>)
        ensures
            match r {
                Ok(v) => self@.has_var(variable@) && {
                    let asgns = self@.assignments_of(self@.parents[self@.var_idx(variable@)]);
                    &&& v@.len() == asgns.len()
                    &&& forall|j: int| 0 <= j < v@.len() ==> (#[trigger] v@[j])@ == asgns[j]
                },
                Err(e) => !self@.has_var(variable@) && e == NetworkError::UnknownVariable,
            },
    {
        proof {
            use_type_invariant(&*self);
        }
        let ghost m = self@;
        let vi = match self.var_index(variable) {
            Some(i) => i,
            None => {
                return Err(NetworkError::UnknownVariable);
            },
        };
        proof {
            lemma_find_name(m.variables, variable@);
        }
        let ps: &Vec<String> = &self.parents[vi];
        let ghost psv = m.parents[vi as int];
        let mut result: Vec<Assignment> = Vec::new();
        result.push(Assignment::new());
        proof {
            assert(psv.take(0) =~= Seq::<Seq<char>>::empty());
        }
        let mut t: usize = 0;
        while t < ps.len()
            invariant
                0 <= t <= ps@.len(),
                result@.len() == m.assignments_of(psv.take(t as int)).len(),
                forall|j: int|
                    0 <= j < result@.len() ==> (#[trigger] result@[j])@ == m.assignments_of(
                        psv.take(t as int),
                    )[j],
            decreases ps@.len() - t,
        {
            let ghost prefix = psv.take(t as int);
            let ghost longer = psv.take(t as int + 1);
            let ghost subs = m.assignments_of(prefix);
            proof {
                assert(longer.drop_last() =~= prefix);
                assert(longer.last() == psv[t as int]);
            }
            let p: &String = &ps[t];
            proof {
                assert(ps.deep_view()[t as int] == ps@[t as int]@);
                assert(p@ == psv[t as int]);
            }
            let pi = match self.var_index(p.as_str()) {
                Some(pi) => pi,
                None => {
                    proof {
                        assert(m.has_var(psv[t as int]));
                        assert(false);
                    }
                    return Err(NetworkError::UnknownVariable);
                },
            };
            proof {
                lemma_find_name(m.variables, psv[t as int]);
                assert(m.states[pi as int] == self.states@[pi as int].deep_view());
            }
            let dom: &Vec<String> = &self.states[pi];
            let ghost domv = m.states[pi as int];
            let ghost target = m.assignments_of(longer);
            proof {
                assert(target.len() == subs.len() * domv.len());
            }
            let mut next: Vec<Assignment> = Vec::new();
            let mut a: usize = 0;
            while a < result.len()
                invariant
                    0 <= a <= result@.len(),
                    next@.len() as int == (a as int) * (domv.len() as int),
                    forall|j: int|
                        0 <= j < next@.len() ==> (#[trigger] next@[j])@ == target[j],
                decreases result@.len() - a,
            {
                let mut s: usize = 0;
                while s < dom.len()
                    invariant
                        0 <= s <= domv.len(),
                        next@.len() as int == (a as int) * (domv.len() as int) + (s as int),
                        forall|j: int|
                            0 <= j < next@.len() ==> (#[trigger] next@[j])@ == target[j],
                    decreases domv.len() - s,
                {
                    let ghost j = (a as int) * (domv.len() as int) + (s as int);
                    let mut na = result[a].clone();
                    na.assign(p.clone(), dom[s].clone());
                    next.push(na);
                    proof {
                        assert((a as int) * (domv.len() as int) + (s as int) < (subs.len() as int)
                            * (domv.len() as int)) by (nonlinear_arith)
                            requires
                                0 <= a as int,
                                (a as int) < subs.len() as int,
                                0 <= s as int,
                                (s as int) < domv.len() as int,
                        ;
                        lemma_fundamental_div_mod_converse(
                            j,
                            domv.len() as int,
                            a as int,
                            s as int,
                        );
                        assert(dom@[s as int]@ == domv[s as int]);
                        assert(target[j] == subs[a as int].push(
                            (psv[t as int], domv[s as int]),
                        ));
                        assert(next@[j]@ == target[j]);
                    }
                    s += 1;
                }
                proof {
                    assert((a as int + 1) * (domv.len() as int) == (a as int) * (domv.len() as int)
                        + (domv.len() as int)) by (nonlinear_arith);
                }
                a += 1;
            }
            result = next;
            t += 1;
        }
        proof {
            assert(psv.take(ps@.len() as int) =~= psv);
        }
        Ok(result)
    }

    /// The variables in topological order: each after all its parents, ties
    /// broken by the lexicographically least name among the candidates, and
    /// a cyclic parent graph reported instead of an order.
    #[verifier::loop_isolation(false)]
    pub fn topological_sort(&self) -> (r: Result<Vec<String>, NetworkError>)
        ensures
            match r {
                Ok(v) => match self@.topo_names() {
                    Ok(names) => v.deep_view() == names,
                    Err(_) => false,
                },
                Err(e) => self@.topo_names() == Err::<Seq<Seq<char>>, NetworkError>(e),
            },
    {
        broadcast use vstd::seq_lib::lemma_seq_contains_after_push;

        proof {
            use_type_invariant(&*self);
        }
        let ghost m = self@;
        let n = self.variables.len();
        let mut emitted: Vec<bool> = vec![false; n];
        let mut result: Vec<String> = Vec::new();
        let ghost mut done: Seq<int> = Seq::empty();
        proof {
            match m.topo_from(done) {
                Ok(rest) => {
                    assert(done + rest =~= rest);
                },
                Err(_) => {},
            }
        }
        while result.len() < n
            invariant
                emitted@.len() == n,
                done.len() == result@.len(),
                result@.len() <= n,
                forall|i: int| 0 <= i < n ==> emitted@[i] == done.contains(i),
                forall|k: int| 0 <= k < done.len() ==> 0 <= #[trigger] done[k] < n,
                forall|k: int|
                    0 <= k < done.len() ==> result.deep_view()[k] == m.variables[#[trigger] done[
                        k
                    ]],
                match m.topo_from(done) {
                    Ok(rest) => m.topo_order() == Ok::<Seq<int>, NetworkError>(done + rest),
                    Err(e) => m.topo_order() == Err::<Seq<int>, NetworkError>(e),
                },
            decreases n - result@.len(),
        {
            // scan for the ready variable with the least name
            let mut best: Option<usize> = None;
            let mut i: usize = 0;
            while i < n
                invariant
                    0 <= i <= n,
                    match best {
                        Some(b) => b < n && m.best_ready(done, i as int) == b as int,
                        None => m.best_ready(done, i as int) == -1,
                    },
                decreases n - i,
            {
                let mut is_ready = false;
                if !emitted[i] {
                    let ps: &Vec<String> = &self.parents[i];
                    let ghost psv = m.parents[i as int];
                    let mut all_done = true;
                    let mut j: usize = 0;
                    while j < ps.len()
                        invariant
                            0 <= j <= ps@.len(),
                            all_done == (forall|k: int|
                                0 <= k < j ==> done.contains(
                                    m.var_idx(#[trigger] psv[k]),
                                )),
                        decreases ps@.len() - j,
                    {
                        proof {
                            assert(ps.deep_view()[j as int] == ps@[j as int]@);
                        }
                        let pj = match self.var_index(ps[j].as_str()) {
                            Some(x) => x,
                            None => {
                                proof {
                                    assert(m.has_var(psv[j as int]));
                                    assert(false);
                                }
                                return Err(NetworkError::CyclicGraph);
                            },
                        };
                        proof {
                            lemma_find_name(m.variables, psv[j as int]);
                        }
                        if !emitted[pj] {
                            all_done = false;
                        }
                        j += 1;
                    }
                    is_ready = all_done;
                }
                proof {
                    assert(is_ready == m.ready(i as int, done));
                }
                let take_it: bool = if is_ready {
                    match best {
                        None => true,
                        Some(b) => {
                            proof {
                                assert(self.variables.deep_view()[i as int] == self.variables@[
                                    i as int
                                ]@);
                                assert(self.variables.deep_view()[b as int] == self.variables@[
                                    b as int
                                ]@);
                            }
                            str_lt(self.variables[i].as_str(), self.variables[b].as_str())
                        },
                    }
                } else {
                    false
                };
                if take_it {
                    best = Some(i);
                }
                i += 1;
            }
            match best {
                None => {
                    proof {
                        assert(m.topo_from(done) == Err::<Seq<int>, NetworkError>(
                            NetworkError::CyclicGraph,
                        ));
                    }
                    return Err(NetworkError::CyclicGraph);
                },
                Some(b) => {
                    let ghost old_done = done;
                    result.push(self.variables[b].clone());
                    emitted.set(b, true);
                    proof {
                        done = done.push(b as int);
                        assert(done[old_done.len() as int] == b as int);
                        assert(forall|k: int|
                            0 <= k < old_done.len() ==> done[k] == old_done[k]);
                        assert(self.variables.deep_view()[b as int] == self.variables@[
                            b as int
                        ]@);
                        assert(forall|k: int|
                            0 <= k < old_done.len() ==> result.deep_view()[k]
                                == m.variables[old_done[k]]);
                        match m.topo_from(done) {
                            Ok(rest) => {
                                assert(m.topo_from(old_done) == Ok::<Seq<int>, NetworkError>(
                                    seq![b as int] + rest,
                                ));
                                assert(old_done + (seq![b as int] + rest) =~= done + rest);
                            },
                            Err(_) => {},
                        }
                    }
                },
            }
        }
        proof {
            assert(m.topo_from(done) == Ok::<Seq<int>, NetworkError>(Seq::empty()));
            assert(done + Seq::<int>::empty() =~= done);
            match m.topo_names() {
                Ok(names) => {
                    assert(result.deep_view() =~= names);
                },
                Err(_) => {},
            }
        }
        Ok(result)
    }
}

impl Clone for Assignment {
    /// A copy with the same pairs.
    fn clone(&self) -> (r: Assignment)
        ensures
            r@ == self@,
    {
        let mut pairs: Vec<(String, String)> = Vec::new();
        let mut i: usize = 0;
        while i < self.pairs.len()
            invariant
                0 <= i <= self.pairs@.len(),
                pairs@.len() == i,
                forall|k: int| 0 <= k < i ==> #[trigger] pairs@[k].0@ == self.pairs@[k].0@
                    && pairs@[k].1@ == self.pairs@[k].1@,
            decreases self.pairs@.len() - i,
        {
            let name = self.pairs[i].0.clone();
            let value = self.pairs[i].1.clone();
            pairs.push((name, value));
            i += 1;
        }
        let r = Assignment { pairs };
        proof {
            assert(r@ =~= self@);
        }
        r
    }
}

} // verus!
