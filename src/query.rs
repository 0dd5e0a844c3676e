use vstd::prelude::*;
use crate::aggregate::{bytes_processed_name, events_processed_name};
use crate::metric::{Event, Metric, MetricView};
use crate::throughput::{
    ComponentCounterMetrics, ComponentThroughputs, CounterThroughput, MetricFilter, component_of,
};
use crate::text::str_eq;

verus! {

pub open spec fn uptime_name() -> Seq<char> {
    seq!['u', 'p', 't', 'i', 'm', 'e', '_', 's', 'e', 'c', 'o', 'n', 'd', 's']
}

pub open spec fn errors_suffix() -> Seq<char> {
    seq!['_', 'e', 'r', 'r', 'o', 'r', 's', '_', 't', 'o', 't', 'a', 'l']
}

/// The metric `ev` holds, if any.
pub open spec fn event_metric(ev: Event) -> Option<MetricView> {
    match ev {
        Event::Metric(m) => Some(m@),
        Event::Log(_) => None,
    }
}

/// Whether `ev` holds a metric named `name` and owned by `component`.
pub open spec fn is_component_metric(ev: Event, name: Seq<char>, component: Seq<char>) -> bool {
    match ev {
        Event::Metric(m) => m@.name == name && component_of(m@) == Some(component),
        Event::Log(_) => false,
    }
}

/// The first metric among `events` named `name` whose `component_name` tag is `component`.
fn find_component_metric(events: &Vec<Event>, name: &str, component: &str) -> (r: Option<Metric>)
    ensures
        match r {
            Some(m) => exists|i: int|
                0 <= i < events@.len() && is_component_metric(#[trigger] events@[i], name@, component@)
                    && event_metric(events@[i]) == Some(m@) && forall|j: int|
                    0 <= j < i ==> !is_component_metric(#[trigger] events@[j], name@, component@),
            None => forall|i: int|
                0 <= i < events@.len() ==> !is_component_metric(#[trigger] events@[i], name@, component@),
        },
{
    let mut i: usize = 0;
    while i < events.len()
        invariant
            i <= events@.len(),
            forall|j: int| 0 <= j < i ==> !is_component_metric(#[trigger] events@[j], name@, component@),
        decreases events@.len() - i,
    {
        match &events[i] {
            Event::Metric(m) => {
                if str_eq(m.name.as_str(), name) {
                    proof {
                        reveal_strlit("component_name");
                        assert("component_name"@ =~= crate::order::component_key());
                    }
                    match m.tag_value("component_name") {
                        Some(c) => {
                            if str_eq(c.as_str(), component) {
                                return Some(m.clone_metric());
                            }
                        },
                        None => {},
                    }
                }
            },
            Event::Log(_) => {},
        }
        i = i + 1;
    }
    None
}

/// The `events_processed_total` metric of `component_name` among one snapshot's events:
/// the first one, if any.
pub fn component_events_processed_total(events: &Vec<Event>, component_name: &str) -> (r: Option<Metric>)
    ensures
        match r {
            Some(m) => exists|i: int|
                0 <= i < events@.len() && is_component_metric(#[trigger] events@[i], events_processed_name(), component_name@)
                    && event_metric(events@[i]) == Some(m@) && forall|j: int|
                    0 <= j < i ==> !is_component_metric(#[trigger] events@[j], events_processed_name(), component_name@),
            None => forall|i: int|
                0 <= i < events@.len() ==> !is_component_metric(#[trigger] events@[i], events_processed_name(), component_name@),
        },
{
    proof {
        reveal_strlit("events_processed_total");
        assert("events_processed_total"@ =~= events_processed_name());
    }
    find_component_metric(events, "events_processed_total", component_name)
}

/// The `processed_bytes_total` metric of `component_name` among one snapshot's events:
/// the first one, if any.
pub fn component_bytes_processed_total(events: &Vec<Event>, component_name: &str) -> (r: Option<Metric>)
    ensures
        match r {
            Some(m) => exists|i: int|
                0 <= i < events@.len() && is_component_metric(#[trigger] events@[i], bytes_processed_name(), component_name@)
                    && event_metric(events@[i]) == Some(m@) && forall|j: int|
                    0 <= j < i ==> !is_component_metric(#[trigger] events@[j], bytes_processed_name(), component_name@),
            None => forall|i: int|
                0 <= i < events@.len() ==> !is_component_metric(#[trigger] events@[i], bytes_processed_name(), component_name@),
        },
{
    proof {
        reveal_strlit("processed_bytes_total");
        assert("processed_bytes_total"@ =~= bytes_processed_name());
    }
    find_component_metric(events, "processed_bytes_total", component_name)
}

/// The kinds of metric the all-metrics stream reports.
#[derive(Clone, Debug, PartialEq, Eq)]
pub enum MetricType {
    Uptime(Metric),
    EventsProcessedTotal(Metric),
    BytesProcessedTotal(Metric),
}

impl MetricType {
    /// The kind of `m` by its name; `None` for a metric of no reported kind.
    pub fn from_metric(m: Metric) -> (r: Option<MetricType>)
        ensures
            m@.name == uptime_name() ==> r == Some(MetricType::Uptime(m)),
            m@.name == events_processed_name() ==> r == Some(MetricType::EventsProcessedTotal(m)),
            m@.name == bytes_processed_name() ==> r == Some(MetricType::BytesProcessedTotal(m)),
            m@.name != uptime_name() && m@.name != events_processed_name() && m@.name
                != bytes_processed_name() ==> r is None,
    {
        proof {
            reveal_strlit("uptime_seconds");
            reveal_strlit("events_processed_total");
            reveal_strlit("processed_bytes_total");
            assert("uptime_seconds"@ =~= uptime_name());
            assert("events_processed_total"@ =~= events_processed_name());
            assert("processed_bytes_total"@ =~= bytes_processed_name());
        }
        if str_eq(m.name.as_str(), "uptime_seconds") {
            Some(MetricType::Uptime(m))
        } else if str_eq(m.name.as_str(), "events_processed_total") {
            Some(MetricType::EventsProcessedTotal(m))
        } else if str_eq(m.name.as_str(), "processed_bytes_total") {
            Some(MetricType::BytesProcessedTotal(m))
        } else {
            None
        }
    }
}

/// Point-in-time queries; host metrics are gathered outside this library.
pub struct MetricsQuery;

/// The metric subscriptions: each builds the filter or the fresh per-subscription state
/// that its stream runs on.
pub struct MetricsSubscription;

pub open spec fn filter_by_name(f: MetricFilter, name: Seq<char>) -> bool {
    match f {
        MetricFilter::ByName(n) => n@ == name,
        MetricFilter::BySuffix(_) => false,
    }
}

pub open spec fn filter_by_suffix(f: MetricFilter, suffix: Seq<char>) -> bool {
    match f {
        MetricFilter::BySuffix(s) => s@ == suffix,
        MetricFilter::ByName(_) => false,
    }
}

fn events_filter() -> (r: MetricFilter)
    ensures
        filter_by_name(r, events_processed_name()),
{
    proof {
        reveal_strlit("events_processed_total");
        assert("events_processed_total"@ =~= events_processed_name());
    }
    MetricFilter::ByName("events_processed_total".to_owned())
}

fn bytes_filter() -> (r: MetricFilter)
    ensures
        filter_by_name(r, bytes_processed_name()),
{
    proof {
        reveal_strlit("processed_bytes_total");
        assert("processed_bytes_total"@ =~= bytes_processed_name());
    }
    MetricFilter::ByName("processed_bytes_total".to_owned())
}

fn errors_filter() -> (r: MetricFilter)
    ensures
        filter_by_suffix(r, errors_suffix()),
{
    proof {
        reveal_strlit("_errors_total");
        assert("_errors_total"@ =~= errors_suffix());
    }
    MetricFilter::BySuffix("_errors_total".to_owned())
}

impl MetricsSubscription {
    /// The filter of the uptime stream.
    pub fn uptime(&self) -> (r: MetricFilter)
        ensures
            filter_by_name(r, uptime_name()),
    {
        proof {
            reveal_strlit("uptime_seconds");
            assert("uptime_seconds"@ =~= uptime_name());
        }
        MetricFilter::ByName("uptime_seconds".to_owned())
    }

    /// The filter of the events-processed stream.
    pub fn events_processed_total(&self) -> (r: MetricFilter)
        ensures
            filter_by_name(r, events_processed_name()),
    {
        events_filter()
    }

    /// The filter of the bytes-processed stream.
    pub fn bytes_processed_total(&self) -> (r: MetricFilter)
        ensures
            filter_by_name(r, bytes_processed_name()),
    {
        bytes_filter()
    }

    /// The filter of the errors stream.
    pub fn errors_total(&self) -> (r: MetricFilter)
        ensures
            filter_by_suffix(r, errors_suffix()),
    {
        errors_filter()
    }

    /// Fresh state of the events-processed throughput stream.
    pub fn events_processed_throughput(&self) -> (r: CounterThroughput)
        ensures
            filter_by_name(r.filter, events_processed_name()),
            r.last == 0,
            !r.primed,
    {
        CounterThroughput::new(events_filter())
    }

    /// Fresh state of the bytes-processed throughput stream.
    pub fn bytes_processed_throughput(&self) -> (r: CounterThroughput)
        ensures
            filter_by_name(r.filter, bytes_processed_name()),
            r.last == 0,
            !r.primed,
    {
        CounterThroughput::new(bytes_filter())
    }

    /// Fresh state of the per-component events-processed throughput stream.
    pub fn component_events_processed_throughputs(&self) -> (r: ComponentThroughputs)
        ensures
            filter_by_name(r.filter, events_processed_name()),
            r.cache@.len() == 0,
            !r.primed,
    {
        ComponentThroughputs::new(events_filter())
    }

    /// Fresh state of the per-component bytes-processed throughput stream.
    pub fn component_bytes_processed_throughputs(&self) -> (r: ComponentThroughputs)
        ensures
            filter_by_name(r.filter, bytes_processed_name()),
            r.cache@.len() == 0,
            !r.primed,
    {
        ComponentThroughputs::new(bytes_filter())
    }

    /// Fresh state of the per-component events-processed totals stream.
    pub fn component_events_processed_totals(&self) -> (r: ComponentCounterMetrics)
        ensures
            filter_by_name(r.filter, events_processed_name()),
            r.cache@.len() == 0,
    {
        ComponentCounterMetrics::new(events_filter())
    }

    /// Fresh state of the per-component bytes-processed totals stream.
    pub fn component_bytes_processed_totals(&self) -> (r: ComponentCounterMetrics)
        ensures
            filter_by_name(r.filter, bytes_processed_name()),
            r.cache@.len() == 0,
    {
        ComponentCounterMetrics::new(bytes_filter())
    }

    /// Fresh state of the per-component errors totals stream.
    pub fn component_errors_totals(&self) -> (r: ComponentCounterMetrics)
        ensures
            filter_by_suffix(r.filter, errors_suffix()),
            r.cache@.len() == 0,
    {
        ComponentCounterMetrics::new(errors_filter())
    }

    /// The all-metrics stream's view of one metric.
    pub fn metrics(&self, m: Metric) -> (r: Option<MetricType>)
        ensures
            m@.name == uptime_name() ==> r == Some(MetricType::Uptime(m)),
            m@.name == events_processed_name() ==> r == Some(MetricType::EventsProcessedTotal(m)),
            m@.name == bytes_processed_name() ==> r == Some(MetricType::BytesProcessedTotal(m)),
            m@.name != uptime_name() && m@.name != events_processed_name() && m@.name
                != bytes_processed_name() ==> r is None,
    {
        MetricType::from_metric(m)
    }
}

} // verus!
