use vstd::prelude::*;
use crate::metric::{tags_ordered, Metric, MetricValue, MetricView, TagView, tag_value_spec, has_tag, metrics_view, clone_tag, tags_view};
use crate::order::{MetricOrder, sort_spec, insert_spec, items_view, sort_items, compare_metrics, cmp_metrics, cmp_tags_from};
use crate::text::{lemma_cmp_chars_zero_iff, str_eq};

verus! {

pub open spec fn origin_key() -> Seq<char> {
    seq!['o', 'r', 'i', 'g', 'i', 'n']
}

pub open spec fn component_type_key() -> Seq<char> {
    seq!['c', 'o', 'm', 'p', 'o', 'n', 'e', 'n', 't', '_', 't', 'y', 'p', 'e']
}

pub open spec fn events_processed_name() -> Seq<char> {
    seq!['e', 'v', 'e', 'n', 't', 's', '_', 'p', 'r', 'o', 'c', 'e', 's', 's', 'e', 'd', '_', 't', 'o', 't', 'a', 'l']
}

pub open spec fn bytes_processed_name() -> Seq<char> {
    seq!['p', 'r', 'o', 'c', 'e', 's', 's', 'e', 'd', '_', 'b', 'y', 't', 'e', 's', '_', 't', 'o', 't', 'a', 'l']
}

/// The tags without any tag whose key is `key`, in their order.
pub open spec fn without_key(tags: Seq<TagView>, key: Seq<char>) -> Seq<TagView>
    decreases tags.len(),
{
    if tags.len() == 0 {
        tags
    } else if tags.last().0 == key {
        without_key(tags.drop_last(), key)
    } else {
        without_key(tags.drop_last(), key).push(tags.last())
    }
}

/// A metric's merge priority: its `origin` tag equals its `component_type` tag
/// (two absent tags are equal too).
pub open spec fn priority_spec(m: MetricView) -> bool {
    tag_value_spec(m.tags, origin_key()) == tag_value_spec(m.tags, component_type_key())
}

pub open spec fn with_tags(m: MetricView, tags: Seq<TagView>) -> MetricView {
    MetricView { name: m.name, tags, value: m.value, timestamp: m.timestamp }
}

pub open spec fn with_counter(m: MetricView, value: u64) -> MetricView {
    MetricView { name: m.name, tags: m.tags, value: MetricValue::Counter { value }, timestamp: m.timestamp }
}

/// The metric without its `origin` tag, with its priority.
pub open spec fn strip_spec(m: MetricView) -> (MetricView, bool) {
    (with_tags(m, without_key(m.tags, origin_key())), priority_spec(m))
}

pub open spec fn is_counter(v: MetricValue) -> bool {
    v is Counter
}

pub open spec fn counter_of(v: MetricValue) -> u64 {
    match v {
        MetricValue::Counter { value } => value,
        MetricValue::Gauge { .. } => 0,
    }
}

/// Whether `m` is folded into the retained metric `kept`: same series, both counters.
pub open spec fn mergeable(m: MetricView, kept: MetricView) -> bool {
    m.name == kept.name && m.tags == kept.tags && is_counter(m.value) && is_counter(kept.value)
}

pub open spec fn sat_add(a: u64, b: u64) -> u64 {
    if a + b > u64::MAX {
        u64::MAX
    } else {
        (a + b) as u64
    }
}

pub open spec fn max_u64(a: u64, b: u64) -> u64 {
    if a >= b {
        a
    } else {
        b
    }
}

/// The merged value of the new reading `a` (priority `pa`) and the retained reading `b`
/// (priority `pb`) of the counter `name`. Event and byte totals take the prioritised
/// reading, else the larger one; every other counter is summed (saturating).
pub open spec fn merged_counter(name: Seq<char>, a: u64, pa: bool, b: u64, pb: bool) -> u64 {
    if name == events_processed_name() || name == bytes_processed_name() {
        if pa && !pb {
            a
        } else if !pa && pb {
            b
        } else {
            max_u64(a, b)
        }
    } else {
        sat_add(a, b)
    }
}

/// Folds each item into the last retained one where they are mergeable, as a left fold.
/// A retained item keeps its own priority.
pub open spec fn dedup_spec(s: Seq<(MetricView, bool)>) -> Seq<(MetricView, bool)>
    decreases s.len(),
{
    if s.len() == 0 {
        s
    } else {
        let d = dedup_spec(s.drop_last());
        let m = s.last();
        if d.len() > 0 && mergeable(m.0, d.last().0) {
            let k = d.last();
            d.drop_last().push(
                (
                    with_counter(
                        k.0,
                        merged_counter(k.0.name, counter_of(m.0.value), m.1, counter_of(k.0.value), k.1),
                    ),
                    k.1,
                ),
            )
        } else {
            d.push(m)
        }
    }
}

/// What aggregating one component's metrics yields: the metrics without `origin`, sorted
/// by series, with the readings of one series folded together.
pub open spec fn aggregate_spec(ms: Seq<MetricView>) -> Seq<MetricView> {
    dedup_spec(sort_spec(MetricOrder::Series, ms.map_values(|m: MetricView| strip_spec(m)))).map_values(
        |p: (MetricView, bool)| p.0,
    )
}

fn opt_str_eq(a: &Option<String>, b: &Option<String>) -> (r: bool)
    ensures
        r == (match a {
            Some(x) => Some(x@),
            None => None::<Seq<char>>,
        } == match b {
            Some(x) => Some(x@),
            None => None::<Seq<char>>,
        }),
{
    match (a, b) {
        (None, None) => true,
        (Some(x), Some(y)) => str_eq(x.as_str(), y.as_str()),
        _ => false,
    }
}

/// Removes the `origin` tag of `m` and computes its priority.
fn strip_origin(m: Metric) -> (r: (Metric, bool))
    ensures
        (r.0@, r.1) == strip_spec(m@),
{
    proof {
        reveal_strlit("origin");
        reveal_strlit("component_type");
        assert("origin"@ =~= origin_key());
        assert("component_type"@ =~= component_type_key());
    }
    let origin = m.tag_value("origin");
    let ctype = m.tag_value("component_type");
    let priority = opt_str_eq(&origin, &ctype);
    let ghost t = m@.tags;
    let mut kept: Vec<(String, String)> = Vec::new();
    let mut i: usize = 0;
    while i < m.tags.len()
        invariant
            i <= m.tags@.len(),
            t == m@.tags,
            "origin"@ == origin_key(),
            tags_view(kept@) == without_key(t.take(i as int), origin_key()),
        decreases m.tags@.len() - i,
    {
        let tag = clone_tag(&m.tags, i);
        proof {
            assert(t.take(i + 1).drop_last() =~= t.take(i as int));
        }
        let ghost before = kept@;
        proof {
            assert(t.take(i + 1).last() == (tag.0@, tag.1@));
            assert(tags_view(before.push(tag)) =~= tags_view(before).push((tag.0@, tag.1@)));
        }
        if !str_eq(tag.0.as_str(), "origin") {
            kept.push(tag);
        }
        assert(tags_view(kept@) =~= without_key(t.take(i + 1), origin_key()));
        i = i + 1;
    }
    assert(t.take(i as int) =~= t);
    (Metric { name: m.name, tags: kept, value: m.value, timestamp: m.timestamp }, priority)
}

fn merge_counter(name: &str, a: u64, pa: bool, b: u64, pb: bool) -> (r: u64)
    ensures
        r == merged_counter(name@, a, pa, b, pb),
{
    proof {
        reveal_strlit("events_processed_total");
        reveal_strlit("processed_bytes_total");
        assert("events_processed_total"@ =~= events_processed_name());
        assert("processed_bytes_total"@ =~= bytes_processed_name());
    }
    if str_eq(name, "events_processed_total") || str_eq(name, "processed_bytes_total") {
        if pa && !pb {
            a
        } else if !pa && pb {
            b
        } else if a >= b {
            a
        } else {
            b
        }
    } else {
        a.saturating_add(b)
    }
}

proof fn lemma_cmp_tags_zero(a: Seq<TagView>, b: Seq<TagView>, i: int)
    requires
        0 <= i <= a.len(),
        i <= b.len(),
        a.take(i) == b.take(i),
    ensures
        (cmp_tags_from(a, b, i) == 0) <==> (a == b),
    decreases a.len() - i,
{
    if i < a.len() && i < b.len() {
        lemma_cmp_chars_zero_iff(a[i].0, b[i].0);
        lemma_cmp_chars_zero_iff(a[i].1, b[i].1);
        if a[i] == b[i] {
            assert(a.take(i + 1) =~= a.take(i).push(a[i]));
            assert(b.take(i + 1) =~= b.take(i).push(b[i]));
            lemma_cmp_tags_zero(a, b, i + 1);
        } else {
            assert(a[i] != b[i]);
        }
    } else if i >= a.len() && i >= b.len() {
        assert(a =~= a.take(i));
        assert(b =~= b.take(i));
    } else {
        assert(a.len() != b.len());
    }
}

/// Two metrics compare equal in the series order exactly when name and tags agree.
pub proof fn lemma_series_cmp_zero(a: MetricView, b: MetricView)
    ensures
        (cmp_metrics(MetricOrder::Series, a, b) == 0) <==> (a.name == b.name && a.tags == b.tags),
{
    lemma_cmp_chars_zero_iff(a.name, b.name);
    assert(a.tags.take(0) =~= b.tags.take(0));
    lemma_cmp_tags_zero(a.tags, b.tags, 0);
}

fn same_counter_series(m: &Metric, kept: &Metric) -> (r: bool)
    ensures
        r == mergeable(m@, kept@),
{
    let c = compare_metrics(MetricOrder::Series, m, kept);
    proof {
        lemma_series_cmp_zero(m@, kept@);
    }
    c == 0 && matches!(m.value, MetricValue::Counter { .. }) && matches!(kept.value, MetricValue::Counter { .. })
}

fn value_of(v: MetricValue) -> (r: u64)
    ensures
        r == counter_of(v),
{
    match v {
        MetricValue::Counter { value } => value,
        MetricValue::Gauge { .. } => 0,
    }
}

/// Merges the metrics of one component that differ only in their `origin` tag, and appends
/// the result to `out`, sorted by name and tags. The `origin` tag is removed on the way and
/// `metrics` is left empty; the flags it held are recomputed, not read.
pub fn aggregate(metrics: &mut Vec<(Metric, bool)>, out: &mut Vec<Metric>)
    requires
        forall|i: int| 0 <= i < old(metrics)@.len() ==> tags_ordered((#[trigger] old(metrics)@[i]).0@.tags),
    ensures
        final(metrics)@.len() == 0,
        metrics_view(final(out)@) == metrics_view(old(out)@) + aggregate_spec(
            items_view(old(metrics)@).map_values(|p: (MetricView, bool)| p.0),
        ),
{
    let ghost input = items_view(metrics@).map_values(|p: (MetricView, bool)| p.0);
    let ghost stripped_spec = input.map_values(|m: MetricView| strip_spec(m));
    let mut stripped: Vec<(Metric, bool)> = Vec::new();
    let ghost mut i: int = 0;
    while metrics.len() > 0
        invariant
            0 <= i <= input.len(),
            stripped_spec == input.map_values(|m: MetricView| strip_spec(m)),
            items_view(metrics@).map_values(|p: (MetricView, bool)| p.0) == input.skip(i),
            items_view(stripped@) == stripped_spec.take(i),
        decreases metrics@.len(),
    {
        assert(input.skip(i).len() == metrics@.len());
        assert(i < input.len());
        assert(metrics@[0].0@ == input.skip(i)[0]);
        let (m, _) = metrics.remove(0);
        let s = strip_origin(m);
        proof {
            assert(input.skip(i)[0] == input[i]);
            assert(input.skip(i + 1) =~= input.skip(i).drop_first());
        }
        assert(m@ == input[i]);
        let ghost before = stripped@;
        stripped.push(s);
        proof {
            assert(stripped@ == before.push(s));
            assert(stripped_spec.len() == input.len());
            assert(i < input.len());
            assert(stripped_spec[i] == strip_spec(input[i]));
            assert(items_view(before.push(s)) =~= items_view(before).push((s.0@, s.1)));
            assert(stripped_spec.take(i + 1) =~= stripped_spec.take(i).push(stripped_spec[i]));
            i = i + 1;
            assert(items_view(stripped@) =~= stripped_spec.take(i));
        }
        assert(items_view(metrics@).map_values(|p: (MetricView, bool)| p.0) =~= input.skip(i));
    }
    assert(stripped_spec.take(i) =~= stripped_spec);
    let mut sorted = sort_items(MetricOrder::Series, &mut stripped);
    let ghost ss = items_view(sorted@);
    let mut merged: Vec<(Metric, bool)> = Vec::new();
    let ghost mut j: int = 0;
    assert(ss.take(0) =~= Seq::<(MetricView, bool)>::empty());
    while sorted.len() > 0
        invariant
            0 <= j <= ss.len(),
            items_view(sorted@) == ss.skip(j),
            items_view(merged@) == dedup_spec(ss.take(j)),
        decreases sorted@.len(),
    {
        assert(items_view(sorted@).len() == sorted@.len());
        let m = sorted.remove(0);
        proof {
            assert(ss.skip(j)[0] == ss[j]);
            assert(ss.skip(j + 1) =~= ss.skip(j).drop_first());
            assert(ss.take(j + 1).drop_last() =~= ss.take(j));
        }
        let n = merged.len();
        if n > 0 && same_counter_series(&m.0, &merged[n - 1].0) {
            let mut k = merged.pop().unwrap();
            let v = merge_counter(k.0.name.as_str(), value_of(m.0.value), m.1, value_of(k.0.value), k.1);
            k.0.value = MetricValue::Counter { value: v };
            merged.push(k);
        } else {
            merged.push(m);
        }
        proof {
            j = j + 1;
        }
        assert(items_view(merged@) =~= dedup_spec(ss.take(j)));
        assert(items_view(sorted@) =~= ss.skip(j));
    }
    assert(ss.take(j) =~= ss);
    let ghost out0 = metrics_view(out@);
    let ghost res = dedup_spec(ss);
    let ghost mut q: int = 0;
    while merged.len() > 0
        invariant
            0 <= q <= res.len(),
            res == dedup_spec(ss),
            items_view(merged@) == res.skip(q),
            metrics_view(out@) == out0 + res.take(q).map_values(|p: (MetricView, bool)| p.0),
        decreases merged@.len(),
    {
        assert(items_view(merged@).len() == merged@.len());
        assert(merged@[0].0@ == res.skip(q)[0].0);
        let (m, _) = merged.remove(0);
        proof {
            assert(res.skip(q)[0] == res[q]);
            assert(res.skip(q + 1) =~= res.skip(q).drop_first());
        }
        assert(m@ == res[q].0);
        let ghost before = out@;
        out.push(m);
        proof {
            assert(out@ == before.push(m));
            assert(metrics_view(before.push(m)) =~= metrics_view(before).push(m@));
            assert(res.take(q + 1).map_values(|p: (MetricView, bool)| p.0) =~= res.take(q).map_values(
                |p: (MetricView, bool)| p.0,
            ).push(res[q].0));
            q = q + 1;
        }
        assert(metrics_view(out@) =~= out0 + res.take(q).map_values(|p: (MetricView, bool)| p.0));
        assert(items_view(merged@) =~= res.skip(q));
    }
    assert(res.take(q) =~= res);
}

proof fn lemma_aggregate_pair(m1: MetricView, m2: MetricView)
    requires
        m1.name == m2.name,
        without_key(m1.tags, origin_key()) == without_key(m2.tags, origin_key()),
        is_counter(m1.value),
        is_counter(m2.value),
    ensures
        aggregate_spec(seq![m1, m2]) == seq![
            with_counter(
                strip_spec(m1).0,
                merged_counter(
                    m1.name,
                    counter_of(m2.value),
                    priority_spec(m2),
                    counter_of(m1.value),
                    priority_spec(m1),
                ),
            ),
        ],
{
    let s1 = strip_spec(m1);
    let s2 = strip_spec(m2);
    let s = seq![m1, m2].map_values(|m: MetricView| strip_spec(m));
    assert(s =~= seq![s1, s2]);
    assert(seq![s1, s2].drop_last() =~= seq![s1]);
    assert(seq![s1].drop_last() =~= Seq::<(MetricView, bool)>::empty());
    lemma_series_cmp_zero(s2.0, s1.0);
    let e = Seq::<(MetricView, bool)>::empty();
    assert(sort_spec(MetricOrder::Series, e) == e);
    assert(insert_spec(MetricOrder::Series, e, s1) == seq![s1]);
    assert(sort_spec(MetricOrder::Series, seq![s1]) =~= seq![s1]);
    assert(seq![s1].drop_first() =~= e);
    assert(insert_spec(MetricOrder::Series, e, s2) == seq![s2]);
    assert(!crate::order::metric_lt(MetricOrder::Series, s2.0, s1.0));
    assert(seq![s1][0] == s1);
    assert(insert_spec(MetricOrder::Series, seq![s1], s2) =~= seq![s1, s2]);
    assert(dedup_spec(seq![s1]) =~= seq![s1]) by {
        assert(dedup_spec(Seq::<(MetricView, bool)>::empty()) =~= Seq::<(MetricView, bool)>::empty());
    }
    let k = with_counter(
        s1.0,
        merged_counter(s1.0.name, counter_of(s2.0.value), s2.1, counter_of(s1.0.value), s1.1),
    );
    assert(dedup_spec(seq![s1, s2]) =~= seq![(k, s1.1)]);
    assert(seq![(k, s1.1)].map_values(|p: (MetricView, bool)| p.0) =~= seq![k]);
}

/// Two readings of `events_processed_total` or `processed_bytes_total` that agree on
/// name and on every tag but `origin` aggregate to one metric: the reading whose `origin`
/// equals its `component_type` where exactly one does, else the larger reading.
pub proof fn lemma_aggregate_prioritised_pair(m1: MetricView, m2: MetricView)
    requires
        m1.name == events_processed_name() || m1.name == bytes_processed_name(),
        m1.name == m2.name,
        without_key(m1.tags, origin_key()) == without_key(m2.tags, origin_key()),
        is_counter(m1.value),
        is_counter(m2.value),
    ensures
        aggregate_spec(seq![m1, m2]).len() == 1,
        aggregate_spec(seq![m1, m2])[0].name == m1.name,
        aggregate_spec(seq![m1, m2])[0].tags == without_key(m1.tags, origin_key()),
        counter_of(aggregate_spec(seq![m1, m2])[0].value) == if priority_spec(m1) && !priority_spec(m2) {
            counter_of(m1.value)
        } else if priority_spec(m2) && !priority_spec(m1) {
            counter_of(m2.value)
        } else {
            max_u64(counter_of(m1.value), counter_of(m2.value))
        },
{
    lemma_aggregate_pair(m1, m2);
}

/// Two readings of any other counter that agree on name and on every tag but `origin`
/// aggregate to one metric whose value is their sum (where the sum fits in a `u64`).
pub proof fn lemma_aggregate_summed_pair(m1: MetricView, m2: MetricView)
    requires
        m1.name != events_processed_name(),
        m1.name != bytes_processed_name(),
        m1.name == m2.name,
        without_key(m1.tags, origin_key()) == without_key(m2.tags, origin_key()),
        is_counter(m1.value),
        is_counter(m2.value),
        counter_of(m1.value) + counter_of(m2.value) <= u64::MAX,
    ensures
        aggregate_spec(seq![m1, m2]).len() == 1,
        aggregate_spec(seq![m1, m2])[0].name == m1.name,
        aggregate_spec(seq![m1, m2])[0].tags == without_key(m1.tags, origin_key()),
        counter_of(aggregate_spec(seq![m1, m2])[0].value) == counter_of(m1.value) + counter_of(m2.value),
{
    lemma_aggregate_pair(m1, m2);
}

/// Aggregation depends on its input alone: equal inputs give equal outputs.
pub proof fn lemma_aggregate_deterministic(a: Seq<MetricView>, b: Seq<MetricView>)
    requires
        a == b,
    ensures
        aggregate_spec(a) == aggregate_spec(b),
{
}

/// Every item's tags satisfy `p`.
pub open spec fn all_tags(s: Seq<(MetricView, bool)>, p: spec_fn(Seq<TagView>) -> bool) -> bool {
    forall|i: int| 0 <= i < s.len() ==> p(#[trigger] s[i].0.tags)
}

proof fn lemma_insert_all(o: MetricOrder, s: Seq<(MetricView, bool)>, x: (MetricView, bool), p: spec_fn(Seq<TagView>) -> bool)
    requires
        all_tags(s, p),
        p(x.0.tags),
    ensures
        all_tags(insert_spec(o, s, x), p),
    decreases s.len(),
{
    if s.len() > 0 && !crate::order::metric_lt(o, x.0, s[0].0) {
        let t = s.drop_first();
        assert forall|i: int| 0 <= i < t.len() implies p(#[trigger] t[i].0.tags) by {
            assert(t[i] == s[i + 1]);
        }
        lemma_insert_all(o, t, x, p);
        let r = seq![s[0]] + insert_spec(o, t, x);
        assert forall|i: int| 0 <= i < r.len() implies p(#[trigger] r[i].0.tags) by {
            if i > 0 {
                assert(r[i] == insert_spec(o, t, x)[i - 1]);
            }
        }
    } else if s.len() > 0 {
        let r = seq![x] + s;
        assert forall|i: int| 0 <= i < r.len() implies p(#[trigger] r[i].0.tags) by {
            if i > 0 {
                assert(r[i] == s[i - 1]);
            }
        }
    } else {
        assert(seq![x][0] == x);
    }
}

/// Sorting keeps every item: a property of all items' tags holds after it.
pub proof fn lemma_sort_all(o: MetricOrder, s: Seq<(MetricView, bool)>, p: spec_fn(Seq<TagView>) -> bool)
    requires
        all_tags(s, p),
    ensures
        all_tags(sort_spec(o, s), p),
    decreases s.len(),
{
    if s.len() > 0 {
        let t = s.drop_last();
        assert forall|i: int| 0 <= i < t.len() implies p(#[trigger] t[i].0.tags) by {
            assert(t[i] == s[i]);
        }
        lemma_sort_all(o, t, p);
        lemma_insert_all(o, sort_spec(o, t), s.last(), p);
    }
}

/// Folding readings together keeps tags: a property of all items' tags holds after it.
pub proof fn lemma_dedup_all(s: Seq<(MetricView, bool)>, p: spec_fn(Seq<TagView>) -> bool)
    requires
        all_tags(s, p),
    ensures
        all_tags(dedup_spec(s), p),
    decreases s.len(),
{
    if s.len() > 0 {
        let t = s.drop_last();
        assert forall|i: int| 0 <= i < t.len() implies p(#[trigger] t[i].0.tags) by {
            assert(t[i] == s[i]);
        }
        lemma_dedup_all(t, p);
        let d = dedup_spec(t);
        let r = dedup_spec(s);
        assert forall|i: int| 0 <= i < r.len() implies p(#[trigger] r[i].0.tags) by {
            if i < d.len() - 1 {
                assert(r[i] == d[i]);
            } else if i == d.len() - 1 && d.len() > 0 {
                assert(r[i].0.tags == d[i].0.tags);
            } else {
                assert(r[i] == s.last());
                assert(s.last() == s[s.len() - 1]);
            }
        }
    }
}

/// Aggregation keeps the tags of the metrics it is given, but `origin`: a property of the
/// tags without `origin` holds of every output metric.
pub proof fn lemma_aggregate_all(ms: Seq<MetricView>, p: spec_fn(Seq<TagView>) -> bool)
    requires
        forall|i: int| 0 <= i < ms.len() ==> p(without_key(#[trigger] ms[i].tags, origin_key())),
    ensures
        forall|i: int| 0 <= i < aggregate_spec(ms).len() ==> p(#[trigger] aggregate_spec(ms)[i].tags),
{
    let st = ms.map_values(|m: MetricView| strip_spec(m));
    assert forall|i: int| 0 <= i < st.len() implies p(#[trigger] st[i].0.tags) by {
        assert(st[i] == strip_spec(ms[i]));
    }
    lemma_sort_all(MetricOrder::Series, st, p);
    lemma_dedup_all(sort_spec(MetricOrder::Series, st), p);
    let d = dedup_spec(sort_spec(MetricOrder::Series, st));
    assert forall|i: int| 0 <= i < aggregate_spec(ms).len() implies p(#[trigger] aggregate_spec(ms)[i].tags) by {
        assert(aggregate_spec(ms)[i] == d[i].0);
    }
}

proof fn lemma_without_key_lacks(t: Seq<TagView>, k: Seq<char>)
    ensures
        !has_tag(without_key(t, k), k),
    decreases t.len(),
{
    if t.len() > 0 {
        lemma_without_key_lacks(t.drop_last(), k);
        let w = without_key(t.drop_last(), k);
        if t.last().0 != k {
            assert forall|i: int| 0 <= i < w.push(t.last()).len() implies #[trigger] w.push(t.last())[i].0 != k by {
                if i < w.len() {
                    assert(w.push(t.last())[i] == w[i]);
                }
            }
        }
    }
}

/// No metric that aggregation yields has an `origin` tag.
pub proof fn lemma_aggregate_drops_origin(ms: Seq<MetricView>)
    ensures
        forall|i: int| 0 <= i < aggregate_spec(ms).len() ==> !has_tag(#[trigger] aggregate_spec(ms)[i].tags, origin_key()),
{
    let p = |t: Seq<TagView>| !has_tag(t, origin_key());
    assert forall|i: int| 0 <= i < ms.len() implies p(without_key(#[trigger] ms[i].tags, origin_key())) by {
        lemma_without_key_lacks(ms[i].tags, origin_key());
    }
    lemma_aggregate_all(ms, p);
}

/// The sum of the counter readings of `s`.
pub open spec fn counter_sum(s: Seq<MetricView>) -> int
    decreases s.len(),
{
    if s.len() == 0 {
        0
    } else {
        counter_sum(s.drop_last()) + counter_of(s.last().value)
    }
}

pub open spec fn item_sum(s: Seq<(MetricView, bool)>) -> int
    decreases s.len(),
{
    if s.len() == 0 {
        0
    } else {
        item_sum(s.drop_last()) + counter_of(s.last().0.value)
    }
}

/// Every item is a counter of the series of `s[0]`.
pub open spec fn one_counter_series(s: Seq<(MetricView, bool)>) -> bool {
    forall|i: int| 0 <= i < s.len() ==> {
        &&& (#[trigger] s[i]).0.name == s[0].0.name
        &&& s[i].0.tags == s[0].0.tags
        &&& is_counter(s[i].0.value)
    }
}

proof fn lemma_one_series_prefix(s: Seq<(MetricView, bool)>)
    requires
        one_counter_series(s),
        s.len() > 1,
    ensures
        one_counter_series(s.drop_last()),
{
    let t = s.drop_last();
    assert forall|i: int| 0 <= i < t.len() implies {
        &&& (#[trigger] t[i]).0.name == t[0].0.name
        &&& t[i].0.tags == t[0].0.tags
        &&& is_counter(t[i].0.value)
    } by {
        assert(t[i] == s[i] && t[0] == s[0]);
    }
}

proof fn lemma_sort_one_series(s: Seq<(MetricView, bool)>)
    requires
        one_counter_series(s),
    ensures
        sort_spec(MetricOrder::Series, s) == s,
    decreases s.len(),
{
    if s.len() > 0 {
        let t = s.drop_last();
        if s.len() > 1 {
            lemma_one_series_prefix(s);
        }
        lemma_sort_one_series(t);
        let x = s.last();
        assert forall|j: int| 0 <= j < t.len() implies !crate::order::metric_lt(MetricOrder::Series, x.0, #[trigger] t[j].0) by {
            assert(t[j] == s[j]);
            assert(x == s[s.len() - 1]);
            lemma_series_cmp_zero(x.0, t[j].0);
        }
        crate::order::lemma_insert_at(MetricOrder::Series, t, x, t.len() as int);
        assert(t.take(t.len() as int).push(x) + t.skip(t.len() as int) =~= s);
    }
}

proof fn lemma_dedup_one_series(s: Seq<(MetricView, bool)>)
    requires
        one_counter_series(s),
        s.len() > 0,
        s[0].0.name != events_processed_name(),
        s[0].0.name != bytes_processed_name(),
        item_sum(s) <= u64::MAX,
    ensures
        dedup_spec(s).len() == 1,
        dedup_spec(s)[0].0.name == s[0].0.name,
        dedup_spec(s)[0].0.tags == s[0].0.tags,
        is_counter(dedup_spec(s)[0].0.value),
        counter_of(dedup_spec(s)[0].0.value) == item_sum(s),
    decreases s.len(),
{
    let t = s.drop_last();
    if s.len() == 1 {
        assert(t =~= Seq::<(MetricView, bool)>::empty());
        assert(dedup_spec(t) =~= Seq::<(MetricView, bool)>::empty());
        assert(item_sum(t) == 0);
        assert(s.last() == s[0]);
    } else {
        lemma_one_series_prefix(s);
        assert(t[0] == s[0]);
        assert(item_sum(t) <= item_sum(s));
        lemma_dedup_one_series(t);
        let m = s.last();
        assert(m == s[s.len() - 1]);
    }
}

/// Any number of readings of a counter other than the event and byte totals, agreeing on
/// name and on every tag but `origin`, aggregate to one metric whose value is their sum
/// (where the sum fits in a `u64`).
pub proof fn lemma_aggregate_summed_run(ms: Seq<MetricView>)
    requires
        ms.len() > 0,
        ms[0].name != events_processed_name(),
        ms[0].name != bytes_processed_name(),
        forall|i: int| 0 <= i < ms.len() ==> {
            &&& (#[trigger] ms[i]).name == ms[0].name
            &&& without_key(ms[i].tags, origin_key()) == without_key(ms[0].tags, origin_key())
            &&& is_counter(ms[i].value)
        },
        counter_sum(ms) <= u64::MAX,
    ensures
        aggregate_spec(ms).len() == 1,
        aggregate_spec(ms)[0].name == ms[0].name,
        aggregate_spec(ms)[0].tags == without_key(ms[0].tags, origin_key()),
        counter_of(aggregate_spec(ms)[0].value) == counter_sum(ms),
{
    let st = ms.map_values(|m: MetricView| strip_spec(m));
    assert forall|i: int| 0 <= i < st.len() implies {
        &&& (#[trigger] st[i]).0.name == st[0].0.name
        &&& st[i].0.tags == st[0].0.tags
        &&& is_counter(st[i].0.value)
    } by {
        assert(st[i] == strip_spec(ms[i]) && st[0] == strip_spec(ms[0]));
    }
    lemma_item_sum_strip(ms);
    lemma_sort_one_series(st);
    lemma_dedup_one_series(st);
    let d = dedup_spec(st);
    assert(aggregate_spec(ms)[0] == d[0].0);
}

proof fn lemma_item_sum_strip(ms: Seq<MetricView>)
    ensures
        item_sum(ms.map_values(|m: MetricView| strip_spec(m))) == counter_sum(ms),
    decreases ms.len(),
{
    if ms.len() > 0 {
        lemma_item_sum_strip(ms.drop_last());
        assert(ms.map_values(|m: MetricView| strip_spec(m)).drop_last() =~= ms.drop_last().map_values(
            |m: MetricView| strip_spec(m),
        ));
    }
}

} // verus!
