//! Tests of the network model: construction, lookups, enumeration and
//! topological sorting.

use rsgm::bayesian_network::{Assignment, BayesianNetwork};
use rsgm::{NetworkError, Prob};

fn p(x: f64) -> Prob {
    Prob { bits: x.to_bits() }
}

fn strings(xs: &[&str]) -> Vec<String> {
    xs.iter().map(|s| s.to_string()).collect()
}

/// The collider A, B -> C.
fn collider() -> BayesianNetwork {
    BayesianNetwork::new(
        "toy_network".to_string(),
        strings(&["A", "B", "C"]),
        vec![
            ("A".to_string(), vec![vec![p(0.5)], vec![p(0.5)]]),
            ("B".to_string(), vec![vec![p(0.25)], vec![p(0.75)]]),
            (
                "C".to_string(),
                vec![
                    vec![p(0.9), p(0.8), p(0.3), p(0.4)],
                    vec![p(0.1), p(0.2), p(0.7), p(0.6)],
                ],
            ),
        ],
        vec![
            ("A".to_string(), strings(&["F", "T"])),
            ("B".to_string(), strings(&["F", "T"])),
            ("C".to_string(), strings(&["F", "T"])),
        ],
        vec![
            ("A".to_string(), strings(&[])),
            ("B".to_string(), strings(&[])),
            ("C".to_string(), strings(&["A", "B"])),
        ],
    )
    .expect("collider network is well formed")
}

fn assignment(pairs: &[(&str, &str)]) -> Assignment {
    let mut a = Assignment::new();
    for (k, v) in pairs {
        a.assign(k.to_string(), v.to_string());
    }
    a
}

#[test]
fn test_public_api_e2e() {
    let bayesian_network = collider();

    // parents
    assert!(bayesian_network.parents("A").unwrap().is_empty());
    assert!(bayesian_network.parents("B").unwrap().is_empty());
    assert_eq!(bayesian_network.parents("C").unwrap().len(), 2);
    assert!(bayesian_network.parents("C").unwrap().iter().any(|s| s == "A"));
    assert!(bayesian_network.parents("C").unwrap().iter().any(|s| s == "B"));

    // parent_assignments
    let of_a = bayesian_network.parent_assignments("A").unwrap();
    assert_eq!(of_a.len(), 1);
    assert!(of_a[0].is_empty());
    let of_b = bayesian_network.parent_assignments("B").unwrap();
    assert_eq!(of_b.len(), 1);
    assert!(of_b[0].is_empty());
    let of_c = bayesian_network.parent_assignments("C").unwrap();
    assert_eq!(of_c.len(), 4);
    assert!(of_c.iter().any(|s| s.get("A").unwrap() == "F" && s.get("B").unwrap() == "F"));
    assert!(of_c.iter().any(|s| s.get("A").unwrap() == "F" && s.get("B").unwrap() == "T"));
    assert!(of_c.iter().any(|s| s.get("A").unwrap() == "T" && s.get("B").unwrap() == "F"));
    assert!(of_c.iter().any(|s| s.get("A").unwrap() == "T" && s.get("B").unwrap() == "T"));

    // variables
    assert_eq!(bayesian_network.variables().len(), 3);
    assert!(bayesian_network.variables().iter().any(|s| s == "A"));
    assert!(bayesian_network.variables().iter().any(|s| s == "B"));
    assert!(bayesian_network.variables().iter().any(|s| s == "C"));

    // assignments
    assert_eq!(bayesian_network.all_possible_assignments("A").unwrap().len(), 2);
    assert!(bayesian_network
        .all_possible_assignments("A")
        .unwrap()
        .iter()
        .any(|s| s == "T"));
    assert!(bayesian_network
        .all_possible_assignments("A")
        .unwrap()
        .iter()
        .any(|s| s == "F"));

    // conditionals
    assert_eq!(
        bayesian_network
            .conditional_probability("A", "T", &assignment(&[]))
            .unwrap(),
        p(0.5)
    );
    assert_eq!(
        bayesian_network
            .conditional_probability("C", "T", &assignment(&[("A", "T"), ("B", "T")]))
            .unwrap(),
        p(0.6)
    );

    // topo sort
    let order = bayesian_network.topological_sort().unwrap();
    assert_eq!(order.len(), 3);
    assert_eq!(order[0], "A");
    assert_eq!(order[1], "B");
    assert_eq!(order[2], "C");
}

#[test]
fn round_trip_collider() {
    let net = collider();
    assert_eq!(
        net.conditional_probability("A", "T", &assignment(&[])).unwrap(),
        p(0.5)
    );
    assert_eq!(
        net.conditional_probability("B", "T", &assignment(&[])).unwrap(),
        p(0.75)
    );
    assert_eq!(
        net.conditional_probability("C", "T", &assignment(&[("A", "T"), ("B", "T")]))
            .unwrap(),
        p(0.6)
    );
    let of_c = net.parent_assignments("C").unwrap();
    assert_eq!(of_c.len(), 4);
    for a in &["F", "T"] {
        for b in &["F", "T"] {
            assert!(of_c
                .iter()
                .any(|s| s.get("A").unwrap() == a && s.get("B").unwrap() == b));
        }
    }
    assert_eq!(
        net.topological_sort().unwrap(),
        vec!["A".to_string(), "B".to_string(), "C".to_string()]
    );
}

#[test]
fn stride_indexing_last_parent_fastest() {
    // one variable with parents [A, B], |domain(A)| = 2, |domain(B)| = 3:
    // the column of (A=a1, B=b2) is state_index(B,b2) + 3 * state_index(A,a1)
    let net = BayesianNetwork::new(
        "stride".to_string(),
        strings(&["A", "B", "C"]),
        vec![
            ("A".to_string(), vec![vec![p(0.5)], vec![p(0.5)]]),
            (
                "B".to_string(),
                vec![vec![p(0.2)], vec![p(0.3)], vec![p(0.5)]],
            ),
            (
                "C".to_string(),
                vec![vec![p(0.0), p(0.1), p(0.2), p(0.3), p(0.4), p(0.5)]],
            ),
        ],
        vec![
            ("A".to_string(), strings(&["a0", "a1"])),
            ("B".to_string(), strings(&["b0", "b1", "b2"])),
            ("C".to_string(), strings(&["c0"])),
        ],
        vec![
            ("A".to_string(), strings(&[])),
            ("B".to_string(), strings(&[])),
            ("C".to_string(), strings(&["A", "B"])),
        ],
    )
    .unwrap();
    let entries = [0.0, 0.1, 0.2, 0.3, 0.4, 0.5];
    for (ai, a) in ["a0", "a1"].iter().enumerate() {
        for (bi, b) in ["b0", "b1", "b2"].iter().enumerate() {
            let col = bi + 3 * ai;
            let expected = p(entries[col]);
            assert_eq!(
                net.conditional_probability("C", "c0", &assignment(&[("A", a), ("B", b)]))
                    .unwrap(),
                expected,
                "column of (A={a}, B={b})"
            );
        }
    }
    // the enumeration lists assignments in exactly that column order
    let asgns = net.parent_assignments("C").unwrap();
    assert_eq!(asgns.len(), 6);
    for (j, asgn) in asgns.iter().enumerate() {
        assert_eq!(
            net.conditional_probability("C", "c0", asgn).unwrap(),
            p(entries[j]),
            "assignment {j} selects column {j}"
        );
    }
}

#[test]
fn cycle_detection() {
    let net = BayesianNetwork::new(
        "cyclic".to_string(),
        strings(&["A", "B"]),
        vec![
            ("A".to_string(), vec![vec![p(0.1), p(0.9)], vec![p(0.9), p(0.1)]]),
            ("B".to_string(), vec![vec![p(0.4), p(0.6)], vec![p(0.6), p(0.4)]]),
        ],
        vec![
            ("A".to_string(), strings(&["F", "T"])),
            ("B".to_string(), strings(&["F", "T"])),
        ],
        vec![
            ("A".to_string(), strings(&["B"])),
            ("B".to_string(), strings(&["A"])),
        ],
    )
    .unwrap();
    assert_eq!(net.topological_sort(), Err(NetworkError::CyclicGraph));
}

#[test]
fn unknown_lookups() {
    let net = collider();
    assert_eq!(
        net.conditional_probability("A", "maybe", &assignment(&[])),
        Err(NetworkError::UnknownValue)
    );
    assert_eq!(
        net.conditional_probability("D", "T", &assignment(&[])),
        Err(NetworkError::UnknownVariable)
    );
    assert_eq!(net.parents("D"), Err(NetworkError::UnknownVariable));
    assert_eq!(
        net.all_possible_assignments("D"),
        Err(NetworkError::UnknownVariable)
    );
    assert_eq!(net.state_index("A", "x"), Err(NetworkError::UnknownValue));
    assert_eq!(net.state_index("D", "T"), Err(NetworkError::UnknownVariable));
}

#[test]
fn unknown_parent_value_and_missing_assignment() {
    let net = collider();
    assert_eq!(
        net.conditional_probability("C", "T", &assignment(&[("A", "T")])),
        Err(NetworkError::MissingAssignment)
    );
    assert_eq!(
        net.conditional_probability("C", "T", &assignment(&[("A", "x"), ("B", "T")])),
        Err(NetworkError::UnknownValue)
    );
}

#[test]
fn state_index_positions() {
    let net = collider();
    assert_eq!(net.state_index("A", "F").unwrap(), 0);
    assert_eq!(net.state_index("A", "T").unwrap(), 1);
}

#[test]
fn malformed_networks_are_rejected() {
    // a missing states entry
    let r = BayesianNetwork::new(
        "broken".to_string(),
        strings(&["A"]),
        vec![("A".to_string(), vec![vec![p(1.0)]])],
        vec![],
        vec![("A".to_string(), strings(&[]))],
    );
    assert_eq!(r.err().unwrap(), NetworkError::MalformedNetwork);

    // a CPT row of the wrong width
    let r = BayesianNetwork::new(
        "broken".to_string(),
        strings(&["A", "B"]),
        vec![
            ("A".to_string(), vec![vec![p(0.5)], vec![p(0.5)]]),
            ("B".to_string(), vec![vec![p(0.25), p(0.75)], vec![p(0.75)]]),
        ],
        vec![
            ("A".to_string(), strings(&["F", "T"])),
            ("B".to_string(), strings(&["F", "T"])),
        ],
        vec![
            ("A".to_string(), strings(&[])),
            ("B".to_string(), strings(&["A"])),
        ],
    );
    assert_eq!(r.err().unwrap(), NetworkError::MalformedNetwork);

    // a CPT with the wrong number of rows
    let r = BayesianNetwork::new(
        "broken".to_string(),
        strings(&["A"]),
        vec![("A".to_string(), vec![vec![p(1.0)]])],
        vec![("A".to_string(), strings(&["F", "T"]))],
        vec![("A".to_string(), strings(&[]))],
    );
    assert_eq!(r.err().unwrap(), NetworkError::MalformedNetwork);

    // duplicate variable names
    let r = BayesianNetwork::new(
        "broken".to_string(),
        strings(&["A", "A"]),
        vec![("A".to_string(), vec![vec![p(1.0)]])],
        vec![("A".to_string(), strings(&["F"]))],
        vec![("A".to_string(), strings(&[]))],
    );
    assert_eq!(r.err().unwrap(), NetworkError::MalformedNetwork);

    // an empty domain
    let r = BayesianNetwork::new(
        "broken".to_string(),
        strings(&["A"]),
        vec![("A".to_string(), vec![])],
        vec![("A".to_string(), strings(&[]))],
        vec![("A".to_string(), strings(&[]))],
    );
    assert_eq!(r.err().unwrap(), NetworkError::MalformedNetwork);

    // a parent that is not a variable
    let r = BayesianNetwork::new(
        "broken".to_string(),
        strings(&["A"]),
        vec![("A".to_string(), vec![vec![p(1.0)]])],
        vec![("A".to_string(), strings(&["F"]))],
        vec![("A".to_string(), strings(&["Z"]))],
    );
    assert_eq!(r.err().unwrap(), NetworkError::MalformedNetwork);
}

#[test]
fn self_loop_is_cyclic() {
    // a variable that is its own parent admits no topological order
    let net = BayesianNetwork::new(
        "loop".to_string(),
        strings(&["B"]),
        vec![(
            "B".to_string(),
            vec![vec![p(0.25), p(0.5)], vec![p(0.75), p(0.5)]],
        )],
        vec![("B".to_string(), strings(&["F", "T"]))],
        vec![("B".to_string(), strings(&["B"]))],
    )
    .unwrap();
    assert_eq!(net.topological_sort(), Err(NetworkError::CyclicGraph));
}

#[test]
fn assignment_first_binding_wins() {
    let mut a = Assignment::new();
    a.assign("A".to_string(), "T".to_string());
    a.assign("A".to_string(), "F".to_string());
    assert_eq!(a.get("A").unwrap(), "T");
    assert_eq!(a.len(), 2);
    assert!(a.get("B").is_none());
}

#[test]
fn tie_break_is_lexicographic() {
    // both roots are ready at once; the lexicographically least name wins,
    // not the declaration order
    let net = BayesianNetwork::new(
        "ties".to_string(),
        strings(&["Zeta", "Alpha"]),
        vec![
            ("Zeta".to_string(), vec![vec![p(0.5)], vec![p(0.5)]]),
            ("Alpha".to_string(), vec![vec![p(0.5)], vec![p(0.5)]]),
        ],
        vec![
            ("Zeta".to_string(), strings(&["F", "T"])),
            ("Alpha".to_string(), strings(&["F", "T"])),
        ],
        vec![
            ("Zeta".to_string(), strings(&[])),
            ("Alpha".to_string(), strings(&[])),
        ],
    )
    .unwrap();
    assert_eq!(
        net.topological_sort().unwrap(),
        vec!["Alpha".to_string(), "Zeta".to_string()]
    );
}
