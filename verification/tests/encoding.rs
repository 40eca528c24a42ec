//! Tests of the CNF compiler: literal allocation, weights, clause structure
//! and weighted-count soundness on a small network.

use rsgm::bayesian_network::BayesianNetwork;
use rsgm::compiler::{BayesianNetworkCNF, Literal, WeightPair};
use rsgm::{NetworkError, Prob};

fn p(x: f64) -> Prob {
    Prob { bits: x.to_bits() }
}

fn strings(xs: &[&str]) -> Vec<String> {
    xs.iter().map(|s| s.to_string()).collect()
}

/// The collider A, B -> C.
fn collider() -> BayesianNetwork {
    BayesianNetwork::new(
        "toy_network".to_string(),
        strings(&["A", "B", "C"]),
        vec![
            ("A".to_string(), vec![vec![p(0.5)], vec![p(0.5)]]),
            ("B".to_string(), vec![vec![p(0.25)], vec![p(0.75)]]),
            (
                "C".to_string(),
                vec![
                    vec![p(0.9), p(0.8), p(0.3), p(0.4)],
                    vec![p(0.1), p(0.2), p(0.7), p(0.6)],
                ],
            ),
        ],
        vec![
            ("A".to_string(), strings(&["F", "T"])),
            ("B".to_string(), strings(&["F", "T"])),
            ("C".to_string(), strings(&["F", "T"])),
        ],
        vec![
            ("A".to_string(), strings(&[])),
            ("B".to_string(), strings(&[])),
            ("C".to_string(), strings(&["A", "B"])),
        ],
    )
    .expect("collider network is well formed")
}

fn weight_of(w: &WeightPair, value: bool) -> f64 {
    if value {
        f64::from_bits(w.when_true.bits)
    } else {
        f64::from_bits(w.when_false.bits)
    }
}

fn clause_satisfied(clause: &[Literal], model: &[bool]) -> bool {
    clause.iter().any(|l| model[l.var] == l.positive)
}

fn all_satisfied(clauses: &[Vec<Literal>], model: &[bool]) -> bool {
    clauses.iter().all(|c| clause_satisfied(c, model))
}

fn model_weight(params: &[WeightPair], model: &[bool]) -> f64 {
    let mut w = 1.0;
    for (i, pair) in params.iter().enumerate() {
        w *= weight_of(pair, model[i]);
    }
    w
}

#[test]
fn literal_count_and_weights() {
    // literals: 2 * (1 + 1) for each of A and B, 2 * (1 + 4) for C
    let cnf = BayesianNetworkCNF::from_bayesian_network(&collider()).unwrap();
    assert_eq!(cnf.params().len(), 4 + 4 + 10);

    // every indicator weighs (1, 1)
    let one = Prob::one();
    for var in &["A", "B", "C"] {
        for val in &["F", "T"] {
            let id = cnf.indicator(&var.to_string(), &val.to_string()).unwrap();
            let w = cnf.params()[id];
            assert_eq!(w.when_false, one);
            assert_eq!(w.when_true, one);
        }
    }

    // the parameter literal right after an indicator of a root variable
    // carries (1, prior): A's "T" indicator is followed by Pr(A = T)
    let ia_t = cnf.indicator(&"A".to_string(), &"T".to_string()).unwrap();
    let w = cnf.params()[ia_t + 1];
    assert_eq!(w.when_false, one);
    assert_eq!(w.when_true, p(0.5));
    let ib_t = cnf.indicator(&"B".to_string(), &"T".to_string()).unwrap();
    let w = cnf.params()[ib_t + 1];
    assert_eq!(w.when_true, p(0.75));
}

#[test]
fn indicator_lookup_failures() {
    let cnf = BayesianNetworkCNF::from_bayesian_network(&collider()).unwrap();
    assert_eq!(
        cnf.indicator(&"D".to_string(), &"T".to_string()),
        Err(NetworkError::UnknownVariable)
    );
    assert_eq!(
        cnf.indicator(&"A".to_string(), &"x".to_string()),
        Err(NetworkError::UnknownValue)
    );
}

#[test]
fn cyclic_network_is_not_compiled() {
    let net = BayesianNetwork::new(
        "cyclic".to_string(),
        strings(&["A", "B"]),
        vec![
            ("A".to_string(), vec![vec![p(0.1), p(0.9)], vec![p(0.9), p(0.1)]]),
            ("B".to_string(), vec![vec![p(0.4), p(0.6)], vec![p(0.6), p(0.4)]]),
        ],
        vec![
            ("A".to_string(), strings(&["F", "T"])),
            ("B".to_string(), strings(&["F", "T"])),
        ],
        vec![
            ("A".to_string(), strings(&["B"])),
            ("B".to_string(), strings(&["A"])),
        ],
    )
    .unwrap();
    assert_eq!(
        BayesianNetworkCNF::from_bayesian_network(&net).err().unwrap(),
        NetworkError::CyclicGraph
    );
}

#[test]
fn exactly_one_clause_cardinality() {
    // a single variable with three values and no parents: per value two
    // biconditional clauses, then 1 + 3 * 2 / 2 exactly-one clauses
    let net = BayesianNetwork::new(
        "single".to_string(),
        strings(&["D"]),
        vec![(
            "D".to_string(),
            vec![vec![p(0.2)], vec![p(0.3)], vec![p(0.5)]],
        )],
        vec![("D".to_string(), strings(&["x", "y", "z"]))],
        vec![("D".to_string(), strings(&[]))],
    )
    .unwrap();
    let cnf = BayesianNetworkCNF::from_bayesian_network(&net).unwrap();
    let n = 3usize;
    assert_eq!(cnf.cnf().len(), 2 * n + 1 + n * (n - 1) / 2);

    // the exactly-one block is satisfied by exactly the assignments that
    // set one indicator true
    let eo = &cnf.cnf()[2 * n..];
    assert_eq!(eo.len(), 1 + n * (n - 1) / 2);
    let ids: Vec<usize> = ["x", "y", "z"]
        .iter()
        .map(|v| cnf.indicator(&"D".to_string(), &v.to_string()).unwrap())
        .collect();
    let total = cnf.params().len();
    for bits in 0..(1u32 << n) {
        let mut model = vec![false; total];
        for (k, id) in ids.iter().enumerate() {
            model[*id] = bits & (1 << k) != 0;
        }
        let expected = bits.count_ones() == 1;
        assert_eq!(
            all_satisfied(eo, &model),
            expected,
            "indicator pattern {bits:03b}"
        );
    }
}

#[test]
fn weighted_count_soundness() {
    // restricting the weighted model count to a full indicator assignment
    // yields the product of the matching CPT entries, and the total over
    // all full assignments is one
    let net = collider();
    let cnf = BayesianNetworkCNF::from_bayesian_network(&net).unwrap();
    let clauses = cnf.cnf();
    let params = cnf.params();
    let total = params.len();

    let mut indicator_ids: Vec<usize> = Vec::new();
    for var in &["A", "B", "C"] {
        for val in &["F", "T"] {
            indicator_ids.push(cnf.indicator(&var.to_string(), &val.to_string()).unwrap());
        }
    }
    let param_ids: Vec<usize> =
        (0..total).filter(|i| !indicator_ids.contains(i)).collect();
    assert_eq!(param_ids.len(), 12);

    // the network's probabilities, for the expected products
    let prior_a = [0.5, 0.5];
    let prior_b = [0.25, 0.75];
    let cpt_c = [[0.9, 0.8, 0.3, 0.4], [0.1, 0.2, 0.7, 0.6]];

    let mut grand_total = 0.0;
    for a in 0..2usize {
        for b in 0..2usize {
            for c in 0..2usize {
                // fix the indicators to this full assignment
                let mut base = vec![false; total];
                base[indicator_ids[a]] = true;
                base[indicator_ids[2 + b]] = true;
                base[indicator_ids[4 + c]] = true;
                // sum the weights of every satisfying extension to the
                // parameter literals
                let mut count = 0.0;
                for bits in 0..(1u32 << param_ids.len()) {
                    let mut model = base.clone();
                    for (k, id) in param_ids.iter().enumerate() {
                        model[*id] = bits & (1 << k) != 0;
                    }
                    if all_satisfied(clauses, &model) {
                        count += model_weight(params, &model);
                    }
                }
                let expected = prior_a[a] * prior_b[b] * cpt_c[c][b + 2 * a];
                assert!(
                    (count - expected).abs() < 1e-9,
                    "assignment A={a} B={b} C={c}: counted {count}, expected {expected}"
                );
                grand_total += count;
            }
        }
    }
    assert!((grand_total - 1.0).abs() < 1e-9);
}
