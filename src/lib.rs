pub mod aggregate;
pub mod classify;
pub mod ids;
pub mod metric;
pub mod order;
pub mod query;
pub mod tap;
pub mod text;
pub mod throughput;

pub use aggregate::aggregate;
pub use classify::{component_metrics, ComponentRegistry, ComponentRole};
pub use metric::{Event, LogEvent, Metric, MetricValue};
pub use query::{
    component_bytes_processed_total, component_events_processed_total, MetricType, MetricsQuery,
    MetricsSubscription,
};
pub use tap::{TapControl, TapController, TapNotification, TapResult, TapSink, tap_event};
pub use throughput::{
    ComponentCache, ComponentCounterMetrics, ComponentThroughputs, CounterThroughput, MetricFilter,
};
