use observe_core::{
    tap_event, Event, LogEvent, Metric, TapControl, TapController, TapNotification, TapResult,
    TapSink,
};

fn names(v: &[&str]) -> Vec<String> {
    v.iter().map(|s| s.to_string()).collect()
}

#[test]
fn notifications_only_for_requested_inputs() {
    let (c, _) = TapController::new(TapSink::new(&names(&["a", "b"])));
    let mut results = Vec::new();
    results.extend(c.component_matched("a"));
    results.extend(c.component_not_matched("b"));
    results.extend(c.component_matched("c"));
    results.extend(c.component_not_matched("c"));
    assert_eq!(
        results,
        vec![
            TapResult::Notification("a".to_string(), TapNotification::ComponentMatched),
            TapResult::Notification("b".to_string(), TapNotification::ComponentNotMatched),
        ]
    );
}

#[test]
fn stop_is_issued_once_for_the_started_sink() {
    let sink = TapSink::new(&names(&["a"]));
    let id = sink.id();
    let (mut c, start) = TapController::new(sink);
    assert_eq!(start, TapControl::Start(id));
    assert_eq!(c.stop(), Some(TapControl::Stop(id)));
    assert_eq!(c.stop(), None);
    assert!(!c.is_active());
    let log = Event::Log(LogEvent { fields: vec![("message".to_string(), "hi".to_string())] });
    assert_eq!(c.forward("a", log), None);
    assert_eq!(c.component_matched("a"), None);
}

#[test]
fn forwarding_passes_log_events_only() {
    let (c, _) = TapController::new(TapSink::new(&names(&["a"])));
    let log = LogEvent { fields: vec![("message".to_string(), "hi".to_string())] };
    assert_eq!(
        c.forward("a", Event::Log(log.clone())),
        Some(TapResult::LogEvent("a".to_string(), log.clone()))
    );
    let m = Metric::counter("x".to_string(), vec![], 1);
    assert_eq!(tap_event("a", Event::Metric(m)), None);
}

#[test]
fn routing_key_is_the_input_identifier_text() {
    let sink = TapSink::new(&names(&["a", "b"]));
    let key = sink.make_output("a").unwrap();
    assert_eq!(key.len(), 36);
    assert_eq!(key.matches('-').count(), 4);
    let id = sink.inputs().into_iter().find(|(n, _)| n == "a").unwrap().1;
    assert_eq!(u128::from_str_radix(&key.replace('-', ""), 16).unwrap(), id);
    assert!(sink.make_output("c").is_none());
}

#[test]
fn sink_inputs_are_unique_with_distinct_ids() {
    let sink = TapSink::new(&names(&["a", "b", "a"]));
    let mut n = sink.input_names();
    n.sort();
    assert_eq!(n, names(&["a", "b"]));
    let ids: Vec<u128> = sink.inputs().into_iter().map(|(_, id)| id).collect();
    assert_ne!(ids[0], ids[1]);
    assert_ne!(ids[0], sink.id());
}

#[test]
fn sinks_are_identified_by_id() {
    let a = TapSink::new(&names(&["a"]));
    let b = TapSink::new(&names(&["a"]));
    assert!(a.same_sink(&a));
    assert!(!a.same_sink(&b));
}

#[test]
fn sink_from_parts_keeps_last_id_per_name() {
    let given = vec![("a".to_string(), 1u128), ("b".to_string(), 2), ("a".to_string(), 3)];
    let sink = TapSink::from_parts(9, given);
    assert_eq!(sink.id(), 9);
    assert_eq!(sink.inputs(), vec![("a".to_string(), 3), ("b".to_string(), 2)]);
    assert_eq!(sink.input_names(), names(&["a", "b"]));
}

#[test]
fn routing_key_is_hyphenated_lower_hex() {
    let sink = TapSink::from_parts(1, vec![("a".to_string(), 0x936DA01F9ABD4D9D80C702AF85C822A8u128)]);
    assert_eq!(
        sink.make_output("a"),
        Some("936da01f-9abd-4d9d-80c7-02af85c822a8".to_string())
    );
}
