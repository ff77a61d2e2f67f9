use hypercube::cube::{
    CubeError, ExecutionMode, InputRow, NodeSpec, Snapshot, Transform, Update, WeightedInput,
};
use hypercube::engine::HypercubeEngine;
use hypercube::number::{Arithmetic, Double};

struct Native;

fn d(x: f64) -> Double {
    Double::from_bits(x.to_bits())
}

fn f(x: Double) -> f64 {
    f64::from_bits(x.to_bits())
}

impl Arithmetic for Native {
    fn plus(&self, x: Double, y: Double) -> Double {
        d(f(x) + f(y))
    }

    fn minus(&self, x: Double, y: Double) -> Double {
        d(f(x) - f(y))
    }

    fn times(&self, x: Double, y: Double) -> Double {
        d(f(x) * f(y))
    }

    fn over(&self, x: Double, y: Double) -> Double {
        d(f(x) / f(y))
    }

    fn root(&self, x: Double) -> Double {
        d(f(x).sqrt())
    }

    fn exponential(&self, x: Double) -> Double {
        d(f(x).exp())
    }

    fn logarithm(&self, x: Double) -> Double {
        d(f(x).ln())
    }

    fn sine(&self, x: Double) -> Double {
        d(f(x).sin())
    }

    fn cosine(&self, x: Double) -> Double {
        d(f(x).cos())
    }

    fn nearest(&self, n: u64) -> Double {
        d(n as f64)
    }
}

fn row(key: &str, a: f64, b: f64) -> InputRow {
    InputRow::new(key, 1_000)
        .with_field("a", d(a))
        .with_field("b", d(b))
}

fn one(generation: u64, rows: Vec<InputRow>, nodes: Vec<NodeSpec>) -> Update {
    Update {
        generation,
        observed_at_ms: generation as i64 * 1_000,
        mode: ExecutionMode::Live,
        rows,
        nodes,
    }
}

fn run(rows: Vec<InputRow>, nodes: Vec<NodeSpec>) -> Snapshot {
    HypercubeEngine::new()
        .update(one(1, rows, nodes), &Native)
        .unwrap()
}

fn value(snapshot: &Snapshot, node: &str, key: &str) -> Option<f64> {
    snapshot.value(node, key).map(f)
}

#[test]
fn field_and_composite_nodes_form_a_deterministic_cube() {
    let nodes = vec![
        NodeSpec::linear(
            "blend",
            vec![
                WeightedInput::required("a_rank", d(0.75)),
                WeightedInput::required("b_rank", d(-0.25)),
            ],
            true,
            Transform::Identity,
        ),
        NodeSpec::field("a_rank", "a", Transform::RankZScore),
        NodeSpec::field("b_rank", "b", Transform::RankZScore),
    ];
    let mut engine = HypercubeEngine::new();
    let snapshot = engine
        .update(
            Update {
                generation: 1,
                observed_at_ms: 1_000,
                mode: ExecutionMode::Live,
                rows: vec![row("A", 1.0, 3.0), row("B", 2.0, 2.0), row("C", 3.0, 1.0)],
                nodes,
            },
            &Native,
        )
        .unwrap();

    assert_eq!(snapshot.entity_count, 3);
    assert!(value(&snapshot, "blend", "A").unwrap() < 0.0);
    assert_eq!(value(&snapshot, "blend", "B"), Some(0.0));
    assert!(value(&snapshot, "blend", "C").unwrap() > 0.0);
    assert_eq!(snapshot.statuses.len(), 3);
}

#[test]
fn ties_receive_average_ranks() {
    let mut engine = HypercubeEngine::new();
    let snapshot = engine
        .update(
            Update {
                generation: 1,
                observed_at_ms: 1_000,
                mode: ExecutionMode::Batch,
                rows: vec![row("A", 1.0, 0.0), row("B", 1.0, 0.0), row("C", 3.0, 0.0)],
                nodes: vec![NodeSpec::field("rank", "a", Transform::Rank)],
            },
            &Native,
        )
        .unwrap();
    assert_eq!(value(&snapshot, "rank", "A"), Some(1.5));
    assert_eq!(value(&snapshot, "rank", "B"), Some(1.5));
    assert_eq!(value(&snapshot, "rank", "C"), Some(3.0));
}

#[test]
fn stable_graphs_reuse_the_compiled_plan() {
    let mut engine = HypercubeEngine::new();
    for generation in 1..=3u64 {
        engine
            .update(
                Update {
                    generation,
                    observed_at_ms: generation as i64 * 1_000,
                    mode: ExecutionMode::Live,
                    rows: vec![row("A", generation as f64, 0.0)],
                    nodes: vec![NodeSpec::field("value", "a", Transform::Identity)],
                },
                &Native,
            )
            .unwrap();
    }
    assert_eq!(engine.graph_compilations(), 1);

    engine
        .update(
            Update {
                generation: 4,
                observed_at_ms: 4_000,
                mode: ExecutionMode::Live,
                rows: vec![row("A", 4.0, 0.0)],
                nodes: vec![NodeSpec::field("rank", "a", Transform::Rank)],
            },
            &Native,
        )
        .unwrap();
    assert_eq!(engine.graph_compilations(), 2);
}

#[test]
fn cycles_and_stale_generations_are_rejected() {
    let mut engine = HypercubeEngine::new();
    let cyclic = vec![
        NodeSpec::linear(
            "a",
            vec![WeightedInput::required("b", d(1.0))],
            true,
            Transform::Identity,
        ),
        NodeSpec::linear(
            "b",
            vec![WeightedInput::required("a", d(1.0))],
            true,
            Transform::Identity,
        ),
    ];
    let error = engine
        .update(
            Update {
                generation: 1,
                observed_at_ms: 1_000,
                mode: ExecutionMode::Live,
                rows: vec![row("A", 1.0, 2.0)],
                nodes: cyclic,
            },
            &Native,
        )
        .unwrap_err();
    assert!(matches!(error, CubeError::DependencyCycle(_)));

    engine
        .update(
            Update {
                generation: 1,
                observed_at_ms: 1_000,
                mode: ExecutionMode::Live,
                rows: vec![],
                nodes: vec![],
            },
            &Native,
        )
        .unwrap();
    assert_eq!(
        engine
            .update(
                Update {
                    generation: 1,
                    observed_at_ms: 2_000,
                    mode: ExecutionMode::Live,
                    rows: vec![],
                    nodes: vec![],
                },
                &Native
            )
            .unwrap_err(),
        CubeError::StaleGeneration {
            generation: 1,
            previous: 1
        }
    );
}

#[test]
fn a_refused_update_changes_nothing() {
    let mut engine = HypercubeEngine::new();
    let field = vec![NodeSpec::field("value", "a", Transform::Identity)];
    engine
        .update(one(5, vec![row("A", 1.0, 0.0)], field.clone()), &Native)
        .unwrap();
    let refused = engine.update(
        one(6, vec![row("A", 1.0, 0.0), row("A", 2.0, 0.0)], field),
        &Native,
    );
    assert_eq!(refused.unwrap_err(), CubeError::DuplicateRow("A".to_owned()));
    assert_eq!(engine.last_generation(), Some(5));
    assert_eq!(engine.graph_compilations(), 1);
}

#[test]
fn every_refusal_has_its_error_and_message() {
    let mut engine = HypercubeEngine::new();
    let mut refuse = |rows: Vec<InputRow>, nodes: Vec<NodeSpec>| -> String {
        engine.update(one(1, rows, nodes), &Native).unwrap_err().message()
    };
    let field = |id: &str, field: &str| NodeSpec::field(id, field, Transform::Identity);
    let linear = |id: &str, inputs: Vec<WeightedInput>| {
        NodeSpec::linear(id, inputs, true, Transform::Identity)
    };
    let edge = |node: &str| WeightedInput::required(node, d(1.0));
    assert_eq!(
        refuse(vec![row(" ", 1.0, 1.0)], vec![]),
        "identifier cannot be empty: row key"
    );
    assert_eq!(
        refuse(vec![row("A", 1.0, 1.0), row("A", 2.0, 1.0)], vec![]),
        "duplicate row key: A"
    );
    assert_eq!(
        refuse(vec![], vec![field("\t", "a")]),
        "identifier cannot be empty: node id"
    );
    assert_eq!(
        refuse(vec![], vec![field("n", " ")]),
        "identifier cannot be empty: field"
    );
    assert_eq!(
        refuse(vec![], vec![field("n", "a"), field("n", "b")]),
        "duplicate node id: n"
    );
    assert_eq!(
        refuse(vec![], vec![linear("n", vec![])]),
        "node n has no inputs"
    );
    assert_eq!(
        refuse(
            vec![],
            vec![field("x", "a"), linear("n", vec![edge("x"), edge("x")])]
        ),
        "node n has duplicate input x"
    );
    assert_eq!(
        refuse(
            vec![],
            vec![
                field("x", "a"),
                linear("n", vec![WeightedInput::required("x", d(f64::NAN))])
            ]
        ),
        "node n has a non-finite weight for x"
    );
    assert_eq!(
        refuse(vec![], vec![linear("n", vec![edge("gone")])]),
        "node n requires unknown dependency gone"
    );
    assert_eq!(
        refuse(
            vec![],
            vec![
                field("x", "a"),
                linear("b", vec![edge("a")]),
                linear("a", vec![WeightedInput::optional("b", d(1.0))])
            ]
        ),
        "dependency cycle among nodes: b, a"
    );
    engine.update(one(3, vec![], vec![]), &Native).unwrap();
    assert_eq!(
        engine
            .update(one(2, vec![], vec![]), &Native)
            .unwrap_err()
            .message(),
        "generation 2 is not newer than 3"
    );
}

#[test]
fn transforms_give_exact_values() {
    let rows = || vec![row("A", 1.0, 0.0), row("B", 2.0, 0.0), row("C", 4.0, 0.0)];
    let nodes = vec![
        NodeSpec::field("identity", "a", Transform::Identity),
        NodeSpec::field("rank", "a", Transform::Rank),
        NodeSpec::field("percentile", "a", Transform::Percentile),
        NodeSpec::field("z", "a", Transform::ZScore),
        NodeSpec::field("flat", "b", Transform::ZScore),
    ];
    let snapshot = run(rows(), nodes);
    assert_eq!(value(&snapshot, "identity", "C"), Some(4.0));
    assert_eq!(value(&snapshot, "rank", "A"), Some(1.0));
    assert_eq!(value(&snapshot, "percentile", "A"), Some(0.0));
    assert_eq!(value(&snapshot, "percentile", "B"), Some(0.5));
    assert_eq!(value(&snapshot, "percentile", "C"), Some(1.0));
    assert_eq!(value(&snapshot, "flat", "B"), Some(0.0));
    let mean = (1.0 + 2.0 + 4.0) / 3.0;
    let spread: f64 = [1.0f64, 2.0, 4.0]
        .iter()
        .map(|x| (x - mean) * (x - mean))
        .sum::<f64>()
        / 3.0;
    let z = value(&snapshot, "z", "C").unwrap();
    assert_eq!(z, (4.0 - mean) / spread.sqrt());

    let alone = run(
        vec![row("A", 7.0, 0.0)],
        vec![NodeSpec::field("percentile", "a", Transform::Percentile)],
    );
    assert_eq!(value(&alone, "percentile", "A"), Some(0.5));
}

#[test]
fn optional_inputs_may_be_absent_and_weights_are_normalized() {
    let rows = vec![
        InputRow::new("A", 1).with_field("a", d(2.0)).with_field("b", d(6.0)),
        InputRow::new("B", 2).with_field("a", d(3.0)),
        InputRow::new("C", 3).with_field("b", d(5.0)),
        InputRow::new("D", 4).with_field("a", d(f64::INFINITY)),
    ];
    let nodes = vec![
        NodeSpec::field("a", "a", Transform::Identity),
        NodeSpec::field("b", "b", Transform::Identity),
        NodeSpec::linear(
            "mix",
            vec![
                WeightedInput::required("a", d(1.0)),
                WeightedInput::optional("b", d(-3.0)),
            ],
            true,
            Transform::Identity,
        ),
        NodeSpec::linear(
            "raw",
            vec![
                WeightedInput::required("a", d(1.0)),
                WeightedInput::optional("b", d(-3.0)),
            ],
            false,
            Transform::Identity,
        ),
    ];
    let snapshot = run(rows, nodes);
    assert_eq!(value(&snapshot, "mix", "A"), Some((2.0 - 18.0) / 4.0));
    assert_eq!(value(&snapshot, "mix", "B"), Some(3.0));
    assert_eq!(value(&snapshot, "mix", "C"), None);
    assert_eq!(value(&snapshot, "mix", "D"), None);
    assert_eq!(value(&snapshot, "raw", "A"), Some(-16.0));
    assert_eq!(snapshot.statuses[2].values, 2);
    assert_eq!(snapshot.statuses[2].missing, 2);
}

#[test]
fn snapshot_coordinates_select_cells() {
    let rows = vec![row("C", 3.0, 1.0), row("A", 1.0, 3.0), row("B", 2.0, 2.0)];
    let nodes = vec![
        NodeSpec::field("second", "b", Transform::Identity),
        NodeSpec::field("first", "a", Transform::Identity),
    ];
    let snapshot = run(rows, nodes);
    let slice = snapshot.slice("first");
    let keys: Vec<&str> = slice.iter().map(|cell| cell.key.as_str()).collect();
    assert_eq!(keys, vec!["A", "B", "C"]);
    assert_eq!(snapshot.values[0].node, "second");
    assert_eq!(value(&snapshot, "second", "A"), Some(3.0));
    assert_eq!(value(&snapshot, "first", "A"), Some(1.0));
    assert_eq!(value(&snapshot, "first", "Z"), None);
}

#[test]
fn evaluation_is_repeatable() {
    let rows = || vec![row("A", 0.1, 3.7), row("B", 2.9, -2.2), row("C", -3.3, 1.5)];
    let nodes = || {
        vec![
            NodeSpec::field("x", "a", Transform::ZScore),
            NodeSpec::field("y", "b", Transform::RankZScore),
            NodeSpec::linear(
                "mix",
                vec![
                    WeightedInput::required("x", d(0.3)),
                    WeightedInput::required("y", d(0.7)),
                ],
                true,
                Transform::ZScore,
            ),
        ]
    };
    assert_eq!(run(rows(), nodes()).values, run(rows(), nodes()).values);
}

#[test]
fn invalid_updates_are_rejected() {
    let refused = |rows: Vec<InputRow>, nodes: Vec<NodeSpec>| {
        HypercubeEngine::new()
            .update(one(1, rows, nodes), &Native)
            .unwrap_err()
    };
    let source = || NodeSpec::field("source", "a", Transform::Identity);
    let linear = |inputs: Vec<WeightedInput>| {
        vec![
            source(),
            NodeSpec::linear("sum", inputs, false, Transform::Identity),
        ]
    };
    assert!(matches!(
        refused(vec![row(" ", 1.0, 2.0)], vec![]),
        CubeError::EmptyIdentifier { .. }
    ));
    assert_eq!(
        refused(vec![row("A", 1.0, 2.0), row("A", 3.0, 4.0)], vec![]),
        CubeError::DuplicateRow("A".to_owned())
    );
    assert_eq!(
        refused(vec![], vec![source(), source()]),
        CubeError::DuplicateNode("source".to_owned())
    );
    assert_eq!(
        refused(vec![], linear(vec![])),
        CubeError::EmptyLinearNode {
            node: "sum".to_owned()
        }
    );
    assert_eq!(
        refused(
            vec![],
            linear(vec![
                WeightedInput::required("source", d(1.0)),
                WeightedInput::optional("source", d(2.0)),
            ])
        ),
        CubeError::DuplicateInput {
            node: "sum".to_owned(),
            input: "source".to_owned()
        }
    );
    let endless = refused(
        vec![],
        linear(vec![WeightedInput::required("source", d(f64::INFINITY))]),
    );
    assert_eq!(
        endless,
        CubeError::InvalidWeight {
            node: "sum".to_owned(),
            input: "source".to_owned()
        }
    );
    assert_eq!(
        endless.message(),
        "node sum has a non-finite weight for source"
    );
    assert_eq!(
        refused(
            vec![],
            linear(vec![WeightedInput::required("absent", d(1.0))])
        ),
        CubeError::UnknownDependency {
            node: "sum".to_owned(),
            dependency: "absent".to_owned()
        }
    );
}

#[test]
fn values_that_are_not_finite_are_missing() {
    let rows = vec![row("A", 1e308, 1.0), row("B", 1e308, 2.0)];
    let nodes = vec![
        NodeSpec::field("huge", "a", Transform::ZScore),
        NodeSpec::field("plain", "b", Transform::Identity),
    ];
    let snapshot = run(rows, nodes);
    assert_eq!(value(&snapshot, "huge", "A"), None);
    assert_eq!(snapshot.slice("huge").len(), 0);
    assert_eq!((snapshot.statuses[0].values, snapshot.statuses[0].missing), (0, 2));
    assert_eq!(value(&snapshot, "plain", "B"), Some(2.0));
    assert!(snapshot.values.iter().all(|cell| f(cell.value).is_finite()));
}

#[test]
fn declaration_order_does_not_change_values() {
    let rows = || vec![row("A", 1.0, 3.0), row("B", 2.0, 2.5), row("C", 4.0, 1.0)];
    let source = || NodeSpec::field("source", "a", Transform::ZScore);
    let other = || NodeSpec::field("other", "b", Transform::Rank);
    let sum = || {
        NodeSpec::linear(
            "sum",
            vec![
                WeightedInput::required("source", d(0.75)),
                WeightedInput::optional("other", d(0.25)),
            ],
            true,
            Transform::Percentile,
        )
    };
    let first = run(rows(), vec![source(), other(), sum()]);
    let second = run(rows(), vec![sum(), other(), source()]);
    for node in ["source", "other", "sum"] {
        assert_eq!(first.slice(node).len(), 3);
        assert_eq!(first.slice(node), second.slice(node));
    }
}

#[test]
fn cells_bear_the_time_of_their_row() {
    let rows = vec![
        InputRow::new("A", 700).with_field("a", d(1.0)),
        InputRow::new("B", 900).with_field("a", d(2.0)),
    ];
    let nodes = vec![
        NodeSpec::field("source", "a", Transform::Identity),
        NodeSpec::linear(
            "twice",
            vec![WeightedInput::required("source", d(2.0))],
            false,
            Transform::Rank,
        ),
    ];
    let snapshot = run(rows, nodes);
    let times: Vec<i64> = snapshot
        .values
        .iter()
        .map(|cell| cell.observed_at_ms)
        .collect();
    assert_eq!(times, vec![700, 900, 700, 900]);
}
