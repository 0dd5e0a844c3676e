use observe_core::{aggregate, Metric, MetricValue};

fn metric(name: &str, tags: Vec<(&str, &str)>, value: u64) -> Metric {
    Metric::new(
        name.into(),
        tags.into_iter()
            .map(|(key, value)| (key.to_string(), value.to_string()))
            .collect(),
        MetricValue::Counter { value },
        None,
    )
}

fn aggregate_test(metrics: Vec<Metric>) -> Vec<Metric> {
    let mut metrics = metrics.into_iter().map(|m| (m, false)).collect();
    let mut out = Vec::new();
    aggregate(&mut metrics, &mut out);
    out
}

#[test]
fn sum() {
    assert_eq!(
        aggregate_test(vec![
            metric("some_metric", vec![("tag", "value"), ("origin", "test_0")], 1),
            metric("some_metric", vec![("tag", "value"), ("origin", "test_1")], 1)
        ]),
        vec![metric("some_metric", vec![("tag", "value")], 2)]
    );
}

#[test]
fn choose_eq_type() {
    assert_eq!(
        aggregate_test(vec![
            metric(
                "events_processed_total",
                vec![("component_type", "type_0"), ("origin", "type_0")],
                2
            ),
            metric(
                "events_processed_total",
                vec![("component_type", "type_0"), ("origin", "type_1")],
                3
            )
        ]),
        vec![metric(
            "events_processed_total",
            vec![("component_type", "type_0")],
            2
        )]
    );
}

#[test]
fn choose_neq_type() {
    assert_eq!(
        aggregate_test(vec![
            metric(
                "events_processed_total",
                vec![("component_type", "type_0"), ("origin", "type_1")],
                1
            ),
            metric(
                "events_processed_total",
                vec![("component_type", "type_0"), ("origin", "type_2")],
                2
            )
        ]),
        vec![metric(
            "events_processed_total",
            vec![("component_type", "type_0")],
            2
        )]
    );
}

#[test]
fn multi() {
    assert_eq!(
        aggregate_test(vec![
            metric(
                "events_processed_total",
                vec![
                    ("component_type", "type_0"),
                    ("tag", "value"),
                    ("origin", "test_0")
                ],
                1
            ),
            metric(
                "events_processed_total",
                vec![
                    ("component_type", "type_0"),
                    ("tag", "value"),
                    ("origin", "test_1")
                ],
                1
            ),
            metric(
                "events_processed_total",
                vec![("component_type", "type_0"), ("origin", "type_0")],
                3
            ),
            metric(
                "events_processed_total",
                vec![("component_type", "type_0"), ("origin", "type_1")],
                5
            ),
            metric(
                "processed_bytes_total",
                vec![("component_type", "type_0"), ("origin", "type_1")],
                1
            ),
            metric(
                "processed_bytes_total",
                vec![("component_type", "type_0"), ("origin", "type_2")],
                4
            )
        ]),
        vec![
            metric(
                "events_processed_total",
                vec![("component_type", "type_0")],
                3
            ),
            metric(
                "events_processed_total",
                vec![("component_type", "type_0"), ("tag", "value")],
                1
            ),
            metric(
                "processed_bytes_total",
                vec![("component_type", "type_0")],
                4
            )
        ]
    );
}

#[test]
fn prioritised_reading_wins_over_larger_one() {
    let out = aggregate_test(vec![
        metric("processed_bytes_total", vec![("component_type", "file"), ("origin", "other")], 9),
        metric("processed_bytes_total", vec![("component_type", "file"), ("origin", "file")], 4),
    ]);
    assert_eq!(out, vec![metric("processed_bytes_total", vec![("component_type", "file")], 4)]);
}

#[test]
fn other_counters_sum_saturating() {
    let out = aggregate_test(vec![
        metric("requests_total", vec![("origin", "a")], u64::MAX),
        metric("requests_total", vec![("origin", "b")], 1),
    ]);
    assert_eq!(out, vec![metric("requests_total", vec![], u64::MAX)]);
}

#[test]
fn output_has_no_origin_tag() {
    let out = aggregate_test(vec![
        metric("x_total", vec![("origin", "a"), ("k", "v")], 1),
        metric("y_total", vec![("origin", "b")], 2),
        metric("x_total", vec![("k", "w"), ("origin", "c")], 3),
    ]);
    assert_eq!(out.len(), 3);
    for m in &out {
        assert!(m.tags.iter().all(|(k, _)| k != "origin"));
    }
}

#[test]
fn aggregation_is_repeatable() {
    let input = vec![
        metric("b_total", vec![("origin", "a")], 1),
        metric("a_total", vec![("origin", "b")], 2),
        metric("b_total", vec![("origin", "c")], 3),
    ];
    let first = aggregate_test(input.clone());
    let second = aggregate_test(input);
    assert_eq!(first, second);
    assert_eq!(
        first,
        vec![metric("a_total", vec![], 2), metric("b_total", vec![], 4)]
    );
}

#[test]
fn gauges_are_not_merged() {
    let mut g = metric("g", vec![("origin", "a")], 0);
    g.value = MetricValue::Gauge { value: -3 };
    let mut h = metric("g", vec![("origin", "b")], 0);
    h.value = MetricValue::Gauge { value: 5 };
    let out = aggregate_test(vec![g, h]);
    assert_eq!(out.len(), 2);
    assert_eq!(out[0].value, MetricValue::Gauge { value: -3 });
    assert_eq!(out[1].value, MetricValue::Gauge { value: 5 });
}

#[test]
fn empty_input_gives_empty_output() {
    assert_eq!(aggregate_test(vec![]), vec![]);
}

#[test]
fn tags_are_held_as_a_map() {
    let m = metric("m", vec![("zone", "b"), ("app", "x"), ("zone", "c"), ("mid", "y")], 1);
    let expected: Vec<(String, String)> = vec![
        ("app".to_string(), "x".to_string()),
        ("mid".to_string(), "y".to_string()),
        ("zone".to_string(), "c".to_string()),
    ];
    assert_eq!(m.tags, expected);
    assert_eq!(m.tag_value("zone"), Some("c".to_string()));
    assert_eq!(m.tag_value("none"), None);
}

#[test]
fn tag_order_does_not_split_a_series() {
    let out = aggregate_test(vec![
        metric("hits_total", vec![("b", "1"), ("a", "2"), ("origin", "x")], 2),
        metric("hits_total", vec![("origin", "y"), ("a", "2"), ("b", "1")], 5),
    ]);
    assert_eq!(out, vec![metric("hits_total", vec![("a", "2"), ("b", "1")], 7)]);
}

#[test]
fn well_formedness_of_tags() {
    assert!(metric("m", vec![("b", "1"), ("a", "2")], 1).is_well_formed());
    let raw = Metric {
        name: "m".to_string(),
        tags: vec![("b".to_string(), "1".to_string()), ("a".to_string(), "2".to_string())],
        value: MetricValue::Counter { value: 1 },
        timestamp: None,
    };
    assert!(!raw.is_well_formed());
    let dup = Metric {
        name: "m".to_string(),
        tags: vec![("a".to_string(), "1".to_string()), ("a".to_string(), "2".to_string())],
        value: MetricValue::Counter { value: 1 },
        timestamp: None,
    };
    assert!(!dup.is_well_formed());
}

#[test]
fn run_of_three_counters_sums() {
    let out = aggregate_test(vec![
        metric("hits_total", vec![("origin", "a")], 1),
        metric("hits_total", vec![("origin", "b")], 2),
        metric("hits_total", vec![("origin", "c")], 4),
    ]);
    assert_eq!(out, vec![metric("hits_total", vec![], 7)]);
}
