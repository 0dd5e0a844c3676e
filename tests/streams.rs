use observe_core::{
    component_bytes_processed_total, component_events_processed_total, component_metrics,
    ComponentCounterMetrics, ComponentRegistry, ComponentRole, ComponentThroughputs,
    CounterThroughput, Event, LogEvent, Metric, MetricFilter, MetricType, MetricValue,
    MetricsSubscription,
};

fn counter(name: &str, tags: Vec<(&str, &str)>, value: u64) -> Metric {
    Metric::counter(
        name.to_string(),
        tags.into_iter()
            .map(|(k, v)| (k.to_string(), v.to_string()))
            .collect(),
        value,
    )
}

fn events_of(component: &str, value: u64) -> Metric {
    counter("events_processed_total", vec![("component_name", component)], value)
}

fn registry() -> ComponentRegistry {
    let mut r = ComponentRegistry::new();
    r.register("out".to_string(), ComponentRole::Sink);
    r.register("parse".to_string(), ComponentRole::Transform);
    r.register("in_b".to_string(), ComponentRole::Source);
    r.register("in_a".to_string(), ComponentRole::Source);
    r
}

fn component(m: &Metric) -> String {
    m.tag_value("component_name").unwrap()
}

#[test]
fn classification_orders_sources_transforms_sinks() {
    let events = vec![
        Event::Metric(events_of("out", 1)),
        Event::Log(LogEvent { fields: vec![] }),
        Event::Metric(events_of("parse", 2)),
        Event::Metric(events_of("in_b", 3)),
        Event::Metric(events_of("unknown", 4)),
        Event::Metric(counter("events_processed_total", vec![], 5)),
        Event::Metric(events_of("in_a", 6)),
    ];
    let out = component_metrics(events, &registry());
    let names: Vec<String> = out.iter().map(component).collect();
    assert_eq!(names, vec!["in_a", "in_b", "parse", "out"]);
}

#[test]
fn classification_aggregates_per_component() {
    let events = vec![
        Event::Metric(counter(
            "events_processed_total",
            vec![("component_name", "parse"), ("component_type", "remap"), ("origin", "remap")],
            7,
        )),
        Event::Metric(counter(
            "events_processed_total",
            vec![("component_name", "in_a"), ("origin", "x")],
            1,
        )),
        Event::Metric(counter(
            "events_processed_total",
            vec![("component_name", "parse"), ("component_type", "remap"), ("origin", "fanout")],
            9,
        )),
    ];
    let out = component_metrics(events, &registry());
    assert_eq!(
        out,
        vec![
            counter("events_processed_total", vec![("component_name", "in_a")], 1),
            counter(
                "events_processed_total",
                vec![("component_name", "parse"), ("component_type", "remap")],
                7
            ),
        ]
    );
}

#[test]
fn only_if_increased_suppresses_non_increasing() {
    let mut s = ComponentCounterMetrics::new(MetricFilter::ByName("events_processed_total".to_string()));
    let mut emitted = 0;
    for v in [5u64, 3, 3, 1] {
        emitted += s.observe(vec![events_of("in_a", v)]).len();
    }
    assert_eq!(emitted, 1);
}

#[test]
fn only_if_increased_emits_each_increase() {
    let mut s = ComponentCounterMetrics::new(MetricFilter::ByName("events_processed_total".to_string()));
    let mut out = Vec::new();
    for v in [1u64, 2, 3] {
        out.extend(s.observe(vec![events_of("in_a", v)]));
    }
    assert_eq!(out, vec![events_of("in_a", 1), events_of("in_a", 2), events_of("in_a", 3)]);
}

#[test]
fn only_if_increased_keeps_high_water_mark_after_reset() {
    let mut s = ComponentCounterMetrics::new(MetricFilter::ByName("events_processed_total".to_string()));
    assert_eq!(s.observe(vec![events_of("in_a", 10)]).len(), 1);
    assert_eq!(s.observe(vec![events_of("in_a", 0)]).len(), 0);
    assert_eq!(s.observe(vec![events_of("in_a", 4)]).len(), 0);
    assert_eq!(s.observe(vec![events_of("in_a", 11)]).len(), 1);
}

#[test]
fn component_throughput_reports_zero_and_rises() {
    let mut s = MetricsSubscription.component_events_processed_throughputs();
    let mut out = Vec::new();
    for v in [10u64, 15, 15, 22] {
        if let Some(batch) = s.observe(vec![events_of("in_a", v)]) {
            out.extend(batch.into_iter().map(|(_, d)| d));
        }
    }
    assert_eq!(out, vec![5, 0, 7]);
}

#[test]
fn component_throughput_reports_negative_changes() {
    let mut s = ComponentThroughputs::new(MetricFilter::ByName("events_processed_total".to_string()));
    assert!(s.observe(vec![events_of("in_a", 8)]).is_none());
    let batch = s.observe(vec![events_of("in_a", 3), events_of("in_b", 2)]).unwrap();
    let deltas: Vec<i128> = batch.into_iter().map(|(_, d)| d).collect();
    assert_eq!(deltas, vec![-5, 2]);
}

#[test]
fn global_throughput_skips_non_rises() {
    let mut s = MetricsSubscription.events_processed_throughput();
    let mut out = Vec::new();
    for v in [10u64, 15, 15, 22] {
        if let Some(d) = s.observe(&events_of("in_a", v)) {
            out.push(d);
        }
    }
    assert_eq!(out, vec![5, 7]);
}

#[test]
fn global_throughput_ignores_other_metrics() {
    let mut s = CounterThroughput::new(MetricFilter::ByName("processed_bytes_total".to_string()));
    assert_eq!(s.observe(&counter("processed_bytes_total", vec![], 4)), None);
    assert_eq!(s.observe(&counter("events_processed_total", vec![], 100)), None);
    assert_eq!(s.observe(&counter("processed_bytes_total", vec![], 9)), Some(5));
}

#[test]
fn errors_filter_matches_by_suffix() {
    let f = MetricsSubscription.errors_total();
    assert!(f.matches(&counter("parse_errors_total", vec![], 1)));
    assert!(!f.matches(&counter("errors_totals", vec![], 1)));
    assert!(!f.matches(&counter("events_processed_total", vec![], 1)));
}

#[test]
fn component_errors_totals_follow_suffix() {
    let mut s = MetricsSubscription.component_errors_totals();
    let out = s.observe(vec![
        counter("read_errors_total", vec![("component_name", "in_a")], 2),
        counter("events_processed_total", vec![("component_name", "in_a")], 9),
    ]);
    assert_eq!(out, vec![counter("read_errors_total", vec![("component_name", "in_a")], 2)]);
}

#[test]
fn finds_component_totals() {
    let events = vec![
        Event::Metric(events_of("in_b", 1)),
        Event::Metric(counter("processed_bytes_total", vec![("component_name", "in_a")], 30)),
        Event::Metric(events_of("in_a", 2)),
        Event::Metric(events_of("in_a", 3)),
    ];
    assert_eq!(component_events_processed_total(&events, "in_a"), Some(events_of("in_a", 2)));
    assert_eq!(
        component_bytes_processed_total(&events, "in_a"),
        Some(counter("processed_bytes_total", vec![("component_name", "in_a")], 30))
    );
    assert_eq!(component_bytes_processed_total(&events, "in_b"), None);
}

#[test]
fn metric_types_by_name() {
    let up = counter("uptime_seconds", vec![], 3);
    assert_eq!(MetricType::from_metric(up.clone()), Some(MetricType::Uptime(up)));
    let b = counter("processed_bytes_total", vec![], 3);
    assert_eq!(MetricsSubscription.metrics(b.clone()), Some(MetricType::BytesProcessedTotal(b)));
    assert_eq!(MetricType::from_metric(counter("other", vec![], 1)), None);
    let mut g = counter("events_processed_total", vec![], 0);
    g.value = MetricValue::Gauge { value: 1 };
    assert_eq!(MetricType::from_metric(g.clone()), Some(MetricType::EventsProcessedTotal(g)));
}

#[test]
fn component_throughput_pairs_name_each_change() {
    let mut s = MetricsSubscription.component_bytes_processed_throughputs();
    let bytes = |c: &str, v: u64| counter("processed_bytes_total", vec![("component_name", c)], v);
    assert_eq!(s.observe_pairs(vec![bytes("in_a", 4), bytes("out", 1)]), None);
    assert_eq!(
        s.observe_pairs(vec![bytes("in_a", 10), bytes("out", 0), bytes("new", 3)]),
        Some(vec![("in_a".to_string(), 6), ("out".to_string(), -1), ("new".to_string(), 3)])
    );
}

#[test]
fn component_throughput_pairs_clamp_to_i64() {
    let mut s = MetricsSubscription.component_events_processed_throughputs();
    assert_eq!(s.observe_pairs(vec![events_of("in_a", u64::MAX)]), None);
    assert_eq!(s.observe_pairs(vec![events_of("in_a", 0)]), Some(vec![("in_a".to_string(), i64::MIN)]));
    assert_eq!(s.observe_pairs(vec![events_of("in_a", u64::MAX)]), Some(vec![("in_a".to_string(), i64::MAX)]));
}

#[test]
fn global_throughput_clamps_large_rises() {
    let mut s = MetricsSubscription.bytes_processed_throughput();
    let bytes = |v: u64| counter("processed_bytes_total", vec![], v);
    assert_eq!(s.observe_throughput(&bytes(1)), None);
    assert_eq!(s.observe_throughput(&bytes(u64::MAX)), Some(i64::MAX));
    assert_eq!(s.observe_throughput(&bytes(5)), None);
}
