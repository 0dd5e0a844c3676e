use vstd::prelude::*;
use crate::metric::{Metric, MetricValue, MetricView, metrics_view, tag_value_spec};
use crate::order::component_key;
use crate::text::{ends_with, ends_with_spec, str_eq};

verus! {

/// Which metrics a stream follows.
#[derive(Clone, Debug, PartialEq, Eq)]
pub enum MetricFilter {
    /// Metrics with exactly this name.
    ByName(String),
    /// Metrics whose name ends with this text.
    BySuffix(String),
}

impl MetricFilter {
    pub open spec fn matches_spec(&self, m: MetricView) -> bool {
        match self {
            MetricFilter::ByName(n) => m.name == n@,
            MetricFilter::BySuffix(s) => ends_with_spec(m.name, s@),
        }
    }

    pub fn matches(&self, m: &Metric) -> (r: bool)
        ensures
            r == self.matches_spec(m@),
    {
        match self {
            MetricFilter::ByName(n) => str_eq(m.name.as_str(), n.as_str()),
            MetricFilter::BySuffix(s) => ends_with(m.name.as_str(), s.as_str()),
        }
    }
}

/// A cache of the last value seen per component, as (component name, value) entries.
pub type CacheView = Seq<(Seq<char>, u64)>;

/// The cached value of `k`, 0 where there is none.
pub open spec fn cache_get(c: CacheView, k: Seq<char>) -> u64
    decreases c.len(),
{
    if c.len() == 0 {
        0
    } else if c[0].0 == k {
        c[0].1
    } else {
        cache_get(c.drop_first(), k)
    }
}

/// The cache with `k` set to `v`.
pub open spec fn cache_put(c: CacheView, k: Seq<char>, v: u64) -> CacheView
    decreases c.len(),
{
    if c.len() == 0 {
        seq![(k, v)]
    } else if c[0].0 == k {
        c.update(0, (k, v))
    } else {
        seq![c[0]] + cache_put(c.drop_first(), k, v)
    }
}

pub proof fn lemma_cache_put_get(c: CacheView, k: Seq<char>, v: u64, j: Seq<char>)
    ensures
        cache_get(cache_put(c, k, v), j) == if j == k {
            v
        } else {
            cache_get(c, j)
        },
    decreases c.len(),
{
    if c.len() > 0 && c[0].0 != k {
        lemma_cache_put_get(c.drop_first(), k, v, j);
        let p = seq![c[0]] + cache_put(c.drop_first(), k, v);
        assert(p.drop_first() =~= cache_put(c.drop_first(), k, v));
        assert(p[0] == c[0]);
        assert(cache_put(c, k, v) == p);
        if c[0].0 != j {
            assert(cache_get(p, j) == cache_get(p.drop_first(), j));
        }
    } else if c.len() > 0 {
        let p = c.update(0, (k, v));
        assert(p.drop_first() =~= c.drop_first());
        assert(p[0] == (k, v));
        assert(cache_put(c, k, v) == p);
        if j != k {
            assert(cache_get(p, j) == cache_get(p.drop_first(), j));
        }
    } else {
        let p = seq![(k, v)];
        assert(p.drop_first() =~= CacheView::empty());
        assert(p[0] == (k, v));
        assert(cache_get(CacheView::empty(), j) == 0);
        assert(cache_put(c, k, v) == p);
        if j != k {
            assert(cache_get(p, j) == cache_get(p.drop_first(), j));
        }
    }
}

proof fn lemma_cache_at(c: CacheView, k: Seq<char>, v: u64, p: int)
    requires
        0 <= p <= c.len(),
        forall|i: int| 0 <= i < p ==> #[trigger] c[i].0 != k,
        p < c.len() ==> c[p].0 == k,
    ensures
        cache_get(c, k) == if p < c.len() {
            c[p].1
        } else {
            0
        },
        cache_put(c, k, v) == if p < c.len() {
            c.update(p, (k, v))
        } else {
            c.push((k, v))
        },
    decreases p,
{
    if c.len() == 0 {
        assert(c.push((k, v)) =~= seq![(k, v)]);
    } else if p > 0 {
        let t = c.drop_first();
        assert forall|i: int| 0 <= i < p - 1 implies #[trigger] t[i].0 != k by {
            assert(t[i] == c[i + 1]);
        }
        lemma_cache_at(t, k, v, p - 1);
        if p < c.len() {
            assert(seq![c[0]] + t.update(p - 1, (k, v)) =~= c.update(p, (k, v)));
        } else {
            assert(seq![c[0]] + t.push((k, v)) =~= c.push((k, v)));
        }
    }
}

/// A per-component cache of the last value seen.
pub struct ComponentCache {
    pub entries: Vec<(String, u64)>,
}

impl View for ComponentCache {
    type V = CacheView;

    open spec fn view(&self) -> CacheView {
        self.entries@.map_values(|e: (String, u64)| (e.0@, e.1))
    }
}

impl ComponentCache {
    pub fn new() -> (r: ComponentCache)
        ensures
            r@ == CacheView::empty(),
    {
        let r = ComponentCache { entries: Vec::new() };
        assert(r@ =~= CacheView::empty());
        r
    }

    fn find(&self, k: &str) -> (r: usize)
        ensures
            r <= self@.len(),
            forall|i: int| 0 <= i < r ==> #[trigger] self@[i].0 != k@,
            r < self@.len() ==> self@[r as int].0 == k@,
    {
        let mut i: usize = 0;
        while i < self.entries.len()
            invariant
                i <= self.entries@.len(),
                forall|j: int| 0 <= j < i ==> #[trigger] self@[j].0 != k@,
            decreases self.entries@.len() - i,
        {
            if str_eq(self.entries[i].0.as_str(), k) {
                return i;
            }
            i = i + 1;
        }
        i
    }

    /// The cached value of `k`, 0 where there is none.
    pub fn get(&self, k: &str) -> (r: u64)
        ensures
            r == cache_get(self@, k@),
    {
        let p = self.find(k);
        proof {
            lemma_cache_at(self@, k@, 0, p as int);
        }
        if p < self.entries.len() {
            self.entries[p].1
        } else {
            0
        }
    }

    /// Sets the cached value of `k` to `v`.
    pub fn put(&mut self, k: String, v: u64)
        ensures
            final(self)@ == cache_put(old(self)@, k@, v),
    {
        let p = self.find(k.as_str());
        proof {
            lemma_cache_at(self@, k@, v, p as int);
        }
        let ghost kv = k@;
        if p < self.entries.len() {
            self.entries.set(p, (k, v));
            assert(self@ =~= old(self)@.update(p as int, (kv, v)));
        } else {
            self.entries.push((k, v));
            assert(self@ =~= old(self)@.push((kv, v)));
        }
    }
}

pub open spec fn counter_value(m: MetricView) -> Option<u64> {
    match m.value {
        MetricValue::Counter { value } => Some(value),
        _ => None,
    }
}

pub open spec fn component_of(m: MetricView) -> Option<Seq<char>> {
    tag_value_spec(m.tags, component_key())
}

fn component_name_of(m: &Metric) -> (r: Option<String>)
    ensures
        match r {
            Some(c) => component_of(m@) == Some(c@),
            None => component_of(m@) is None,
        },
{
    proof {
        reveal_strlit("component_name");
        assert("component_name"@ =~= component_key());
    }
    m.tag_value("component_name")
}

/// Throughput of one counter over all components: the rise of the counter since the
/// last reading that rose. The first rise only primes the tracker.
pub struct CounterThroughput {
    pub filter: MetricFilter,
    pub last: u64,
    pub primed: bool,
}

impl CounterThroughput {
    pub fn new(filter: MetricFilter) -> (r: CounterThroughput)
        ensures
            r.filter == filter,
            r.last == 0,
            !r.primed,
    {
        CounterThroughput { filter, last: 0, primed: false }
    }

    /// Takes one reading. A counter reading that passes the filter and exceeds the last
    /// value becomes the last value, and its rise is returned once the tracker is primed.
    /// Every other reading is ignored.
    pub fn observe(&mut self, m: &Metric) -> (r: Option<u64>)
        ensures
            final(self).filter == old(self).filter,
            match counter_value(m@) {
                Some(v) if old(self).filter.matches_spec(m@) && v > old(self).last => {
                    &&& final(self).last == v
                    &&& final(self).primed
                    &&& r == if old(self).primed {
                        Some((v - old(self).last) as u64)
                    } else {
                        None::<u64>
                    }
                },
                _ => final(self).last == old(self).last && final(self).primed == old(self).primed && r is None,
            },
    {
        if !self.filter.matches(m) {
            return None;
        }
        match m.value {
            MetricValue::Counter { value } => {
                if value > self.last {
                    let rise = value - self.last;
                    self.last = value;
                    if self.primed {
                        Some(rise)
                    } else {
                        self.primed = true;
                        None
                    }
                } else {
                    None
                }
            },
            MetricValue::Gauge { .. } => None,
        }
    }

    /// Takes one reading as `observe` does, and reports the rise as a signed 64-bit
    /// throughput, capped at `i64::MAX`.
    pub fn observe_throughput(&mut self, m: &Metric) -> (r: Option<i64>)
        ensures
            final(self).filter == old(self).filter,
            match counter_value(m@) {
                Some(v) if old(self).filter.matches_spec(m@) && v > old(self).last => {
                    &&& final(self).last == v
                    &&& final(self).primed
                    &&& r == if old(self).primed {
                        Some(sat_i64(v - old(self).last))
                    } else {
                        None::<i64>
                    }
                },
                _ => final(self).last == old(self).last && final(self).primed == old(self).primed && r is None,
            },
            match r {
                Some(t) => t > 0,
                None => true,
            },
    {
        match self.observe(m) {
            Some(rise) => Some(clamp_i64(rise as i128)),
            None => None,
        }
    }
}

/// `d` clamped to the range of `i64`.
pub open spec fn sat_i64(d: int) -> i64 {
    if d > i64::MAX {
        i64::MAX
    } else if d < i64::MIN {
        i64::MIN
    } else {
        d as i64
    }
}

fn clamp_i64(d: i128) -> (r: i64)
    ensures
        r == sat_i64(d as int),
{
    if d > i64::MAX as i128 {
        i64::MAX
    } else if d < i64::MIN as i128 {
        i64::MIN
    } else {
        d as i64
    }
}

/// Each throughput as (component name, change clamped to `i64`).
pub open spec fn pairs_spec(s: Seq<(MetricView, int)>) -> Seq<(Seq<char>, i64)> {
    s.map_values(|p: (MetricView, int)| (component_of(p.0)->0, sat_i64(p.1)))
}

pub open spec fn pairs_view(s: Seq<(String, i64)>) -> Seq<(Seq<char>, i64)> {
    s.map_values(|p: (String, i64)| (p.0@, p.1))
}

/// Every change reported for an interval belongs to a named component.
pub proof fn lemma_deltas_named(f: MetricFilter, c: CacheView, ms: Seq<MetricView>)
    ensures
        forall|i: int| 0 <= i < deltas_spec(f, c, ms).1.len() ==> component_of((#[trigger] deltas_spec(f, c, ms).1[i]).0) is Some,
    decreases ms.len(),
{
    if ms.len() > 0 {
        lemma_deltas_named(f, c, ms.drop_last());
        let prev = deltas_spec(f, c, ms.drop_last()).1;
        let out = deltas_spec(f, c, ms).1;
        assert forall|i: int| 0 <= i < out.len() implies component_of((#[trigger] out[i]).0) is Some by {
            if i < prev.len() {
                assert(out[i] == prev[i]);
            }
        }
    }
}

/// Turns one interval's changes into (component name, throughput) pairs, in order.
fn component_pairs(batch: Vec<(Metric, i128)>) -> (r: Vec<(String, i64)>)
    requires
        forall|i: int| 0 <= i < batch@.len() ==> component_of((#[trigger] batch@[i]).0@) is Some,
    ensures
        pairs_view(r@) == pairs_spec(deltas_view(batch@)),
{
    let ghost b = deltas_view(batch@);
    let mut out: Vec<(String, i64)> = Vec::new();
    let mut i: usize = 0;
    while i < batch.len()
        invariant
            i <= batch@.len(),
            b == deltas_view(batch@),
            forall|j: int| 0 <= j < batch@.len() ==> component_of((#[trigger] batch@[j]).0@) is Some,
            pairs_view(out@) == pairs_spec(b.take(i as int)),
        decreases batch@.len() - i,
    {
        let ghost before = out@;
        assert(component_of(batch@[i as int].0@) is Some);
        match component_name_of(&batch[i].0) {
            Some(c) => {
                let t = clamp_i64(batch[i].1);
                out.push((c, t));
                assert(pairs_view(out@) =~= pairs_view(before).push((c@, t)));
                assert(b[i as int] == (batch@[i as int].0@, batch@[i as int].1 as int));
            },
            None => {},
        }
        assert(b.take(i + 1) =~= b.take(i as int).push(b[i as int]));
        assert(pairs_view(out@) =~= pairs_spec(b.take(i + 1)));
        i = i + 1;
    }
    assert(b.take(i as int) =~= b);
    out
}

/// The change of each followed counter against the cached value of its component, for
/// one interval; the cache after it.
pub open spec fn deltas_spec(f: MetricFilter, c: CacheView, ms: Seq<MetricView>) -> (CacheView, Seq<
    (MetricView, int),
>)
    decreases ms.len(),
{
    if ms.len() == 0 {
        (c, Seq::empty())
    } else {
        let (c1, out) = deltas_spec(f, c, ms.drop_last());
        let m = ms.last();
        match (component_of(m), counter_value(m)) {
            (Some(k), Some(v)) if f.matches_spec(m) => (
                cache_put(c1, k, v),
                out.push((m, v - cache_get(c1, k))),
            ),
            _ => (c1, out),
        }
    }
}

/// The readings of each followed counter that exceed the cached value of their component,
/// for one interval; the cache after it, which keeps each component's highest value.
pub open spec fn increased_spec(f: MetricFilter, c: CacheView, ms: Seq<MetricView>) -> (CacheView, Seq<
    MetricView,
>)
    decreases ms.len(),
{
    if ms.len() == 0 {
        (c, Seq::empty())
    } else {
        let (c1, out) = increased_spec(f, c, ms.drop_last());
        let m = ms.last();
        match (component_of(m), counter_value(m)) {
            (Some(k), Some(v)) if f.matches_spec(m) && v > cache_get(c1, k) => (
                cache_put(c1, k, v),
                out.push(m),
            ),
            _ => (c1, out),
        }
    }
}

pub open spec fn deltas_view(s: Seq<(Metric, i128)>) -> Seq<(MetricView, int)> {
    s.map_values(|p: (Metric, i128)| (p.0@, p.1 as int))
}

/// Per-component throughput of one counter: for each interval, the change of each
/// component's counter since its previous interval (zero and negative changes included).
/// The first interval only primes the cache.
pub struct ComponentThroughputs {
    pub filter: MetricFilter,
    pub cache: ComponentCache,
    pub primed: bool,
}

impl ComponentThroughputs {
    pub fn new(filter: MetricFilter) -> (r: ComponentThroughputs)
        ensures
            r.filter == filter,
            r.cache@ == CacheView::empty(),
            !r.primed,
    {
        ComponentThroughputs { filter, cache: ComponentCache::new(), primed: false }
    }

    /// Takes one interval's aggregated metrics; `None` for the first interval.
    pub fn observe(&mut self, metrics: Vec<Metric>) -> (r: Option<Vec<(Metric, i128)>>)
        ensures
            final(self).filter == old(self).filter,
            final(self).primed,
            final(self).cache@ == deltas_spec(old(self).filter, old(self).cache@, metrics_view(metrics@)).0,
            match r {
                Some(out) => old(self).primed && deltas_view(out@) == deltas_spec(
                    old(self).filter,
                    old(self).cache@,
                    metrics_view(metrics@),
                ).1,
                None => !old(self).primed,
            },
    {
        let ghost ms = metrics_view(metrics@);
        let ghost c0 = self.cache@;
        let mut metrics = metrics;
        let mut out: Vec<(Metric, i128)> = Vec::new();
        let ghost mut i: int = 0;
        assert(ms.take(0) =~= Seq::<MetricView>::empty());
        while metrics.len() > 0
            invariant
                0 <= i <= ms.len(),
                metrics_view(metrics@) == ms.skip(i),
                self.filter == old(self).filter,
                self.primed == old(self).primed,
                c0 == old(self).cache@,
                (self.cache@, deltas_view(out@)) == deltas_spec(self.filter, c0, ms.take(i)),
            decreases metrics@.len(),
        {
            assert(metrics_view(metrics@).len() == metrics@.len());
            assert(metrics@[0]@ == ms.skip(i)[0]);
            let m = metrics.remove(0);
            proof {
                assert(ms.skip(i)[0] == ms[i]);
                assert(ms.skip(i + 1) =~= ms.skip(i).drop_first());
                assert(ms.take(i + 1).drop_last() =~= ms.take(i));
                assert(ms.take(i + 1).last() == ms[i]);
            }
            let ghost before = out@;
            if self.filter.matches(&m) {
                match component_name_of(&m) {
                    Some(k) => match m.value {
                        MetricValue::Counter { value } => {
                            let last = self.cache.get(k.as_str());
                            self.cache.put(k, value);
                            let d = value as i128 - last as i128;
                            out.push((m, d));
                            assert(deltas_view(out@) =~= deltas_view(before).push((m@, value - last)));
                        },
                        MetricValue::Gauge { .. } => {},
                    },
                    None => {},
                }
            }
            proof {
                i = i + 1;
            }
            assert(metrics_view(metrics@) =~= ms.skip(i));
        }
        assert(ms.take(i) =~= ms);
        if self.primed {
            Some(out)
        } else {
            self.primed = true;
            None
        }
    }

    /// Takes one interval's aggregated metrics as `observe` does, and reports the changes as
    /// (component name, throughput) pairs, one per change, in order, each throughput clamped
    /// to `i64`; `None` for the first interval.
    pub fn observe_pairs(&mut self, metrics: Vec<Metric>) -> (r: Option<Vec<(String, i64)>>)
        ensures
            final(self).filter == old(self).filter,
            final(self).primed,
            final(self).cache@ == deltas_spec(old(self).filter, old(self).cache@, metrics_view(metrics@)).0,
            match r {
                Some(out) => old(self).primed && pairs_view(out@) == pairs_spec(
                    deltas_spec(old(self).filter, old(self).cache@, metrics_view(metrics@)).1,
                ),
                None => !old(self).primed,
            },
    {
        let ghost f = self.filter;
        let ghost c = self.cache@;
        let ghost ms = metrics_view(metrics@);
        match self.observe(metrics) {
            Some(batch) => {
                proof {
                    lemma_deltas_named(f, c, ms);
                    assert forall|i: int| 0 <= i < batch@.len() implies component_of((#[trigger] batch@[i]).0@) is Some by {
                        assert(deltas_view(batch@)[i].0 == batch@[i].0@);
                    }
                }
                Some(component_pairs(batch))
            },
            None => None,
        }
    }
}

/// Per-component totals of one counter, reported only where they rose: a reading is
/// passed on when it exceeds the highest earlier reading of its component.
pub struct ComponentCounterMetrics {
    pub filter: MetricFilter,
    pub cache: ComponentCache,
}

impl ComponentCounterMetrics {
    pub fn new(filter: MetricFilter) -> (r: ComponentCounterMetrics)
        ensures
            r.filter == filter,
            r.cache@ == CacheView::empty(),
    {
        ComponentCounterMetrics { filter, cache: ComponentCache::new() }
    }

    /// Takes one interval's aggregated metrics and returns those that rose.
    pub fn observe(&mut self, metrics: Vec<Metric>) -> (r: Vec<Metric>)
        ensures
            final(self).filter == old(self).filter,
            (final(self).cache@, metrics_view(r@)) == increased_spec(
                old(self).filter,
                old(self).cache@,
                metrics_view(metrics@),
            ),
    {
        let ghost ms = metrics_view(metrics@);
        let ghost c0 = self.cache@;
        let mut metrics = metrics;
        let mut out: Vec<Metric> = Vec::new();
        let ghost mut i: int = 0;
        assert(ms.take(0) =~= Seq::<MetricView>::empty());
        while metrics.len() > 0
            invariant
                0 <= i <= ms.len(),
                metrics_view(metrics@) == ms.skip(i),
                self.filter == old(self).filter,
                c0 == old(self).cache@,
                (self.cache@, metrics_view(out@)) == increased_spec(self.filter, c0, ms.take(i)),
            decreases metrics@.len(),
        {
            assert(metrics_view(metrics@).len() == metrics@.len());
            assert(metrics@[0]@ == ms.skip(i)[0]);
            let m = metrics.remove(0);
            proof {
                assert(ms.skip(i)[0] == ms[i]);
                assert(ms.skip(i + 1) =~= ms.skip(i).drop_first());
                assert(ms.take(i + 1).drop_last() =~= ms.take(i));
                assert(ms.take(i + 1).last() == ms[i]);
            }
            let ghost before = out@;
            if self.filter.matches(&m) {
                match component_name_of(&m) {
                    Some(k) => match m.value {
                        MetricValue::Counter { value } => {
                            let last = self.cache.get(k.as_str());
                            if value > last {
                                self.cache.put(k, value);
                                out.push(m);
                                assert(metrics_view(out@) =~= metrics_view(before).push(m@));
                            }
                        },
                        MetricValue::Gauge { .. } => {},
                    },
                    None => {},
                }
            }
            proof {
                i = i + 1;
            }
            assert(metrics_view(metrics@) =~= ms.skip(i));
        }
        assert(ms.take(i) =~= ms);
        out
    }
}

/// Every reading is a counter of component `k` that passes `f`.
pub open spec fn readings_of(f: MetricFilter, k: Seq<char>, ms: Seq<MetricView>) -> bool {
    forall|i: int| 0 <= i < ms.len() ==> {
        &&& component_of(#[trigger] ms[i]) == Some(k)
        &&& counter_value(ms[i]) is Some
        &&& f.matches_spec(ms[i])
    }
}

pub open spec fn reading(m: MetricView) -> u64 {
    counter_value(m)->0
}

proof fn lemma_readings_prefix(f: MetricFilter, k: Seq<char>, ms: Seq<MetricView>)
    requires
        readings_of(f, k, ms),
        ms.len() > 0,
    ensures
        readings_of(f, k, ms.drop_last()),
{
    assert forall|i: int| 0 <= i < ms.drop_last().len() implies {
        &&& component_of(#[trigger] ms.drop_last()[i]) == Some(k)
        &&& counter_value(ms.drop_last()[i]) is Some
        &&& f.matches_spec(ms.drop_last()[i])
    } by {
        assert(ms.drop_last()[i] == ms[i]);
    }
}

/// The cached value of `k` never falls and reaches every reading taken.
proof fn lemma_high_water(f: MetricFilter, c: CacheView, k: Seq<char>, ms: Seq<MetricView>)
    requires
        readings_of(f, k, ms),
    ensures
        cache_get(increased_spec(f, c, ms).0, k) >= cache_get(c, k),
        forall|i: int| 0 <= i < ms.len() ==> cache_get(increased_spec(f, c, ms).0, k) >= reading(#[trigger] ms[i]),
    decreases ms.len(),
{
    if ms.len() > 0 {
        let p = ms.drop_last();
        lemma_readings_prefix(f, k, ms);
        lemma_high_water(f, c, k, p);
        let c1 = increased_spec(f, c, p).0;
        let m = ms.last();
        assert(component_of(ms[ms.len() - 1]) == Some(k));
        lemma_cache_put_get(c1, k, reading(m), k);
        assert forall|i: int| 0 <= i < ms.len() implies cache_get(increased_spec(f, c, ms).0, k) >= reading(
            #[trigger] ms[i],
        ) by {
            if i < ms.len() - 1 {
                assert(p[i] == ms[i]);
            }
        }
    }
}

/// For one component, readings that never rise pass on at most the first reading: once a
/// reading is accepted, none that follows is.
pub proof fn lemma_non_increasing_emits_at_most_first(
    f: MetricFilter,
    c: CacheView,
    k: Seq<char>,
    ms: Seq<MetricView>,
)
    requires
        readings_of(f, k, ms),
        forall|i: int, j: int| 0 <= i <= j < ms.len() ==> reading(#[trigger] ms[j]) <= reading(#[trigger] ms[i]),
    ensures
        increased_spec(f, c, ms).1.len() <= 1,
        increased_spec(f, c, ms).1 == ms.take(increased_spec(f, c, ms).1.len() as int),
    decreases ms.len(),
{
    if ms.len() > 0 {
        let p = ms.drop_last();
        lemma_readings_prefix(f, k, ms);
        assert forall|i: int, j: int| 0 <= i <= j < p.len() implies reading(#[trigger] p[j]) <= reading(#[trigger] p[i]) by {
            assert(p[i] == ms[i] && p[j] == ms[j]);
        }
        lemma_non_increasing_emits_at_most_first(f, c, k, p);
        assert(component_of(ms[ms.len() - 1]) == Some(k));
        if p.len() > 0 {
            lemma_high_water(f, c, k, p);
            assert(p[0] == ms[0]);
            assert(reading(ms[ms.len() - 1]) <= reading(ms[0]));
            let o = increased_spec(f, c, p).1;
            assert(ms.take(o.len() as int) =~= p.take(o.len() as int));
        } else {
            assert(increased_spec(f, c, p).1 =~= Seq::<MetricView>::empty());
            let o = increased_spec(f, c, ms).1;
            if o.len() == 1 {
                assert(o =~= seq![ms[0]]);
                assert(ms.take(1) =~= seq![ms[0]]);
            } else {
                assert(o =~= Seq::<MetricView>::empty());
                assert(ms.take(0) =~= Seq::<MetricView>::empty());
            }
        }
    }
}

/// For one component, readings that rise each time, from above the cached value, are all
/// passed on, one per rise.
pub proof fn lemma_increasing_emits_each(f: MetricFilter, c: CacheView, k: Seq<char>, ms: Seq<MetricView>)
    requires
        readings_of(f, k, ms),
        forall|i: int, j: int| 0 <= i < j < ms.len() ==> reading(#[trigger] ms[i]) < reading(#[trigger] ms[j]),
        ms.len() > 0 ==> reading(ms[0]) > cache_get(c, k),
    ensures
        increased_spec(f, c, ms).1 == ms,
        ms.len() > 0 ==> cache_get(increased_spec(f, c, ms).0, k) == reading(ms.last()),
    decreases ms.len(),
{
    if ms.len() > 0 {
        let p = ms.drop_last();
        lemma_readings_prefix(f, k, ms);
        assert forall|i: int, j: int| 0 <= i < j < p.len() implies reading(#[trigger] p[i]) < reading(#[trigger] p[j]) by {
            assert(p[i] == ms[i] && p[j] == ms[j]);
        }
        if p.len() > 0 {
            assert(p[0] == ms[0]);
        }
        lemma_increasing_emits_each(f, c, k, p);
        assert(component_of(ms[ms.len() - 1]) == Some(k));
        let c1 = increased_spec(f, c, p).0;
        lemma_cache_put_get(c1, k, reading(ms.last()), k);
        if p.len() > 0 {
            assert(p.last() == ms[ms.len() - 2]);
        }
        assert(p.push(ms.last()) =~= ms);
    }
}

} // verus!
