use vstd::prelude::*;
use itertools::Itertools;
use crate::aggregate::{aggregate, aggregate_spec, all_tags, lemma_aggregate_all, lemma_sort_all, origin_key, without_key};
use crate::metric::{tags_ordered, Event, Metric, MetricView, TagView, metrics_view, tag_value_spec};
use crate::order::{MetricOrder, cmp_opt_chars, component_key, compare_metrics, items_view, lemma_cmp_opt_laws, lemma_sort_sorted, sort_spec};
use crate::text::{lemma_cmp_chars_zero_iff, str_eq};

verus! {

/// The topological role of a pipeline component.
#[derive(Clone, Copy, Debug, PartialEq, Eq, Structural)]
pub enum ComponentRole {
    Source,
    Transform,
    Sink,
}

/// The rank a role sorts by: sources, then transforms, then sinks.
pub open spec fn role_rank(r: ComponentRole) -> int {
    match r {
        ComponentRole::Source => 1,
        ComponentRole::Transform => 2,
        ComponentRole::Sink => 3,
    }
}

/// A mapping from component name to role; the first entry of a name counts.
pub struct ComponentRegistry {
    entries: Vec<(String, ComponentRole)>,
}

pub open spec fn lookup_spec(entries: Seq<(Seq<char>, ComponentRole)>, name: Seq<char>) -> Option<
    ComponentRole,
>
    decreases entries.len(),
{
    if entries.len() == 0 {
        None
    } else if entries[0].0 == name {
        Some(entries[0].1)
    } else {
        lookup_spec(entries.drop_first(), name)
    }
}

impl View for ComponentRegistry {
    type V = Seq<(Seq<char>, ComponentRole)>;

    closed spec fn view(&self) -> Seq<(Seq<char>, ComponentRole)> {
        self.entries@.map_values(|e: (String, ComponentRole)| (e.0@, e.1))
    }
}

impl ComponentRegistry {
    pub fn new() -> (r: ComponentRegistry)
        ensures
            r@ == Seq::<(Seq<char>, ComponentRole)>::empty(),
    {
        let r = ComponentRegistry { entries: Vec::new() };
        assert(r@ =~= Seq::<(Seq<char>, ComponentRole)>::empty());
        r
    }

    /// Records `name` with `role`; an earlier entry of the same name keeps precedence.
    pub fn register(&mut self, name: String, role: ComponentRole)
        ensures
            final(self)@ == old(self)@.push((name@, role)),
    {
        self.entries.push((name, role));
        assert(self@ =~= old(self)@.push((name@, role)));
    }

    /// The role of the component called `name`, if it is registered.
    pub fn lookup(&self, name: &str) -> (r: Option<ComponentRole>)
        ensures
            r == lookup_spec(self@, name@),
    {
        let mut i: usize = 0;
        assert(self@.skip(0) =~= self@);
        while i < self.entries.len()
            invariant
                i <= self.entries@.len(),
                self@.len() == self.entries@.len(),
                lookup_spec(self@, name@) == lookup_spec(self@.skip(i as int), name@),
            decreases self.entries@.len() - i,
        {
            assert(self@.skip(i as int)[0] == self@[i as int]);
            assert(self@.skip(i as int).drop_first() =~= self@.skip(i + 1));
            if str_eq(self.entries[i].0.as_str(), name) {
                return Some(self.entries[i].1);
            }
            i = i + 1;
        }
        None
    }
}

/// A metric event's tags are held as a map holds them.
pub open spec fn event_well_formed(ev: Event) -> bool {
    match ev {
        Event::Metric(m) => tags_ordered(m@.tags),
        Event::Log(_) => true,
    }
}

/// The role of the component that owns `m`, if it names a registered one.
pub open spec fn metric_role(reg: Seq<(Seq<char>, ComponentRole)>, m: MetricView) -> Option<ComponentRole> {
    match tag_value_spec(m.tags, component_key()) {
        Some(c) => lookup_spec(reg, c),
        None => None,
    }
}

/// The metrics among `events` whose component has role `role`, in their order.
pub open spec fn metrics_of_role(
    events: Seq<Event>,
    reg: Seq<(Seq<char>, ComponentRole)>,
    role: ComponentRole,
) -> Seq<MetricView>
    decreases events.len(),
{
    if events.len() == 0 {
        Seq::empty()
    } else {
        let rest = metrics_of_role(events.drop_last(), reg, role);
        match events.last() {
            Event::Metric(m) => if metric_role(reg, m@) == Some(role) {
                rest.push(m@)
            } else {
                rest
            },
            Event::Log(_) => rest,
        }
    }
}

pub open spec fn same_component(a: MetricView, b: MetricView) -> bool {
    tag_value_spec(a.tags, component_key()) == tag_value_spec(b.tags, component_key())
}

/// Splits `s` into maximal runs of adjacent metrics of the same component.
pub open spec fn runs_spec(s: Seq<MetricView>) -> Seq<Seq<MetricView>>
    decreases s.len(),
{
    if s.len() == 0 {
        Seq::empty()
    } else {
        let g = runs_spec(s.drop_last());
        if g.len() > 0 && g.last().len() > 0 && same_component(g.last().last(), s.last()) {
            g.drop_last().push(g.last().push(s.last()))
        } else {
            g.push(seq![s.last()])
        }
    }
}

/// The aggregates of the runs, one after the other.
pub open spec fn aggregate_runs(g: Seq<Seq<MetricView>>) -> Seq<MetricView>
    decreases g.len(),
{
    if g.len() == 0 {
        Seq::empty()
    } else {
        aggregate_runs(g.drop_last()) + aggregate_spec(g.last())
    }
}

pub open spec fn firsts(s: Seq<(MetricView, bool)>) -> Seq<MetricView> {
    s.map_values(|p: (MetricView, bool)| p.0)
}

/// The output for the metrics of one role: sorted stably by component, each run of one
/// component aggregated.
pub open spec fn role_output(
    events: Seq<Event>,
    reg: Seq<(Seq<char>, ComponentRole)>,
    role: ComponentRole,
) -> Seq<MetricView> {
    aggregate_runs(
        runs_spec(
            firsts(
                sort_spec(
                    MetricOrder::Component,
                    metrics_of_role(events, reg, role).map_values(|m: MetricView| (m, false)),
                ),
            ),
        ),
    )
}

/// One interval's metrics, by role (sources, transforms, sinks) and component, each
/// component's metrics aggregated.
pub open spec fn component_metrics_spec(events: Seq<Event>, reg: Seq<(Seq<char>, ComponentRole)>) -> Seq<
    MetricView,
> {
    role_output(events, reg, ComponentRole::Source) + role_output(events, reg, ComponentRole::Transform)
        + role_output(events, reg, ComponentRole::Sink)
}

fn role_of(reg: &ComponentRegistry, m: &Metric) -> (r: Option<ComponentRole>)
    ensures
        r == metric_role(reg@, m@),
{
    proof {
        reveal_strlit("component_name");
        assert("component_name"@ =~= component_key());
    }
    match m.tag_value("component_name") {
        Some(c) => reg.lookup(c.as_str()),
        None => None,
    }
}

/// Relies on `itertools::Itertools::sorted_by_key`, which sorts with the stable
/// `slice::sort_by_key`: items ordered by their `component_name` tag (`Option<String>`'s
/// order: none first, then by code point), items with equal keys in their given order.
#[verifier::external_body]
fn sort_by_component(items: Vec<(Metric, bool)>) -> (r: Vec<(Metric, bool)>)
    ensures
        items_view(r@) == sort_spec(MetricOrder::Component, items_view(items@)),
{
    items.into_iter().sorted_by_key(|p| p.0.tag_value("component_name")).collect()
}

/// Sorts by component; well-formed tags stay well-formed.
fn sort_ordered(items: Vec<(Metric, bool)>) -> (r: Vec<(Metric, bool)>)
    requires
        forall|j: int| 0 <= j < items@.len() ==> tags_ordered((#[trigger] items@[j]).0@.tags),
    ensures
        items_view(r@) == sort_spec(MetricOrder::Component, items_view(items@)),
        forall|j: int| 0 <= j < r@.len() ==> tags_ordered((#[trigger] r@[j]).0@.tags),
{
    let ghost iv = items_view(items@);
    let ghost p: spec_fn(Seq<TagView>) -> bool = |t: Seq<TagView>| tags_ordered(t);
    proof {
        assert forall|j: int| 0 <= j < iv.len() implies p(#[trigger] iv[j].0.tags) by {
            assert(iv[j].0 == items@[j].0@);
        }
        lemma_sort_all(MetricOrder::Component, iv, p);
    }
    let r = sort_by_component(items);
    proof {
        let sv = sort_spec(MetricOrder::Component, iv);
        assert forall|j: int| 0 <= j < r@.len() implies tags_ordered((#[trigger] r@[j]).0@.tags) by {
            assert(items_view(r@)[j].0 == r@[j].0@);
            assert(p(sv[j].0.tags));
        }
    }
    r
}

/// Aggregates the runs of `sorted` one component at a time into `out`.
fn aggregate_by_component(sorted: &mut Vec<(Metric, bool)>, out: &mut Vec<Metric>)
    requires
        forall|q: int| 0 <= q < old(sorted)@.len() ==> tags_ordered((#[trigger] old(sorted)@[q]).0@.tags),
    ensures
        metrics_view(final(out)@) == metrics_view(old(out)@) + aggregate_runs(runs_spec(firsts(items_view(old(sorted)@)))),
{
    let ghost s = firsts(items_view(sorted@));
    let ghost out0 = metrics_view(out@);
    let ghost mut done: Seq<Seq<MetricView>> = Seq::empty();
    let ghost mut j: int = 0;
    let mut run: Vec<(Metric, bool)> = Vec::new();
    assert(s.take(0) =~= Seq::<MetricView>::empty());
    while sorted.len() > 0
        invariant
            0 <= j <= s.len(),
            firsts(items_view(sorted@)) == s.skip(j),
            j > 0 ==> run@.len() > 0,
            runs_spec(s.take(j)) == if run@.len() == 0 {
                done
            } else {
                done.push(firsts(items_view(run@)))
            },
            metrics_view(out@) == out0 + aggregate_runs(done),
            forall|q: int| 0 <= q < sorted@.len() ==> tags_ordered((#[trigger] sorted@[q]).0@.tags),
            forall|q: int| 0 <= q < run@.len() ==> tags_ordered((#[trigger] run@[q]).0@.tags),
        decreases sorted@.len(),
    {
        assert(firsts(items_view(sorted@)).len() == sorted@.len());
        assert(sorted@[0].0@ == s.skip(j)[0]);
        let x = sorted.remove(0);
        proof {
            assert(s.skip(j)[0] == s[j]);
            assert(s.skip(j + 1) =~= s.skip(j).drop_first());
            assert(s.take(j + 1).drop_last() =~= s.take(j));
            assert(s.take(j + 1).last() == s[j]);
        }
        let n = run.len();
        let mut fresh = n == 0;
        if n > 0 {
            let c = compare_metrics(MetricOrder::Component, &run[n - 1].0, &x.0);
            proof {
                let a = tag_value_spec(run@[n - 1].0@.tags, component_key());
                let b = tag_value_spec(x.0@.tags, component_key());
                match (a, b) {
                    (Some(p), Some(q)) => lemma_cmp_chars_zero_iff(p, q),
                    _ => {},
                }
                assert(firsts(items_view(run@)).last() == run@[n - 1].0@);
            }
            if c != 0 {
                let ghost rv = firsts(items_view(run@));
                aggregate(&mut run, out);
                proof {
                    assert(done.push(rv).drop_last() =~= done);
                    done = done.push(rv);
                }
                fresh = true;
            }
        }
        let ghost before = run@;
        run.push(x);
        proof {
            assert forall|q: int| 0 <= q < run@.len() implies tags_ordered((#[trigger] run@[q]).0@.tags) by {
                if q < before.len() {
                    assert(run@[q] == before[q]);
                }
            }
            assert(firsts(items_view(run@)) =~= firsts(items_view(before)).push(x.0@));
            if fresh {
                assert(firsts(items_view(run@)) =~= seq![x.0@]);
            }
            j = j + 1;
        }
        assert(firsts(items_view(sorted@)) =~= s.skip(j));
    }
    assert(s.take(j) =~= s);
    if run.len() > 0 {
        let ghost rv = firsts(items_view(run@));
        aggregate(&mut run, out);
        proof {
            assert(done.push(rv).drop_last() =~= done);
        }
    }
}

/// Classifies one interval's events: keeps the metrics whose `component_name` names a
/// registered component, orders them sources first, then transforms, then sinks, each
/// role by component name, and aggregates the metrics of each component.
pub fn component_metrics(events: Vec<Event>, registry: &ComponentRegistry) -> (r: Vec<Metric>)
    requires
        forall|i: int| 0 <= i < events@.len() ==> event_well_formed(#[trigger] events@[i]),
    ensures
        metrics_view(r@) == component_metrics_spec(events@, registry@),
{
    let ghost ev = events@;
    let mut sources: Vec<(Metric, bool)> = Vec::new();
    let mut transforms: Vec<(Metric, bool)> = Vec::new();
    let mut sinks: Vec<(Metric, bool)> = Vec::new();
    let mut events = events;
    let ghost mut i: int = 0;
    let ghost wrap = |m: MetricView| (m, false);
    assert(ev.take(0) =~= Seq::<Event>::empty());
    while events.len() > 0
        invariant
            0 <= i <= ev.len(),
            events@ == ev.skip(i),
            wrap == |m: MetricView| (m, false),
            items_view(sources@) == metrics_of_role(ev.take(i), registry@, ComponentRole::Source).map_values(wrap),
            items_view(transforms@) == metrics_of_role(ev.take(i), registry@, ComponentRole::Transform).map_values(wrap),
            items_view(sinks@) == metrics_of_role(ev.take(i), registry@, ComponentRole::Sink).map_values(wrap),
            forall|j: int| 0 <= j < ev.len() ==> event_well_formed(#[trigger] ev[j]),
            forall|j: int| 0 <= j < sources@.len() ==> tags_ordered((#[trigger] sources@[j]).0@.tags),
            forall|j: int| 0 <= j < transforms@.len() ==> tags_ordered((#[trigger] transforms@[j]).0@.tags),
            forall|j: int| 0 <= j < sinks@.len() ==> tags_ordered((#[trigger] sinks@[j]).0@.tags),
        decreases events@.len(),
    {
        let e = events.remove(0);
        proof {
            assert(ev.skip(i)[0] == ev[i]);
            assert(ev.skip(i + 1) =~= ev.skip(i).drop_first());
            assert(ev.take(i + 1).drop_last() =~= ev.take(i));
            assert(ev.take(i + 1).last() == ev[i]);
        }
        let ghost s0 = sources@;
        let ghost t0 = transforms@;
        let ghost k0 = sinks@;
        let ghost prev = ev.take(i);
        assert(event_well_formed(ev[i]));
        match e {
            Event::Metric(m) => {
                proof {
                    assert forall|r: ComponentRole| #![auto]
                        metrics_of_role(prev, registry@, r).push(m@).map_values(wrap)
                            =~= metrics_of_role(prev, registry@, r).map_values(wrap).push((m@, false)) by {}
                    assert forall|v: Seq<(Metric, bool)>| #![auto]
                        items_view(v.push((m, false))) =~= items_view(v).push((m@, false)) by {}
                }
                match role_of(registry, &m) {
                    Some(ComponentRole::Source) => sources.push((m, false)),
                    Some(ComponentRole::Transform) => transforms.push((m, false)),
                    Some(ComponentRole::Sink) => sinks.push((m, false)),
                    None => {},
                }
            },
            Event::Log(_) => {},
        }
        assert forall|j: int| 0 <= j < sources@.len() implies tags_ordered((#[trigger] sources@[j]).0@.tags) by {
            if j < s0.len() {
                assert(sources@[j] == s0[j]);
            }
        }
        assert forall|j: int| 0 <= j < transforms@.len() implies tags_ordered((#[trigger] transforms@[j]).0@.tags) by {
            if j < t0.len() {
                assert(transforms@[j] == t0[j]);
            }
        }
        assert forall|j: int| 0 <= j < sinks@.len() implies tags_ordered((#[trigger] sinks@[j]).0@.tags) by {
            if j < k0.len() {
                assert(sinks@[j] == k0[j]);
            }
        }
        proof {
            i = i + 1;
        }
        assert(items_view(sources@) =~= metrics_of_role(ev.take(i), registry@, ComponentRole::Source).map_values(wrap));
        assert(items_view(transforms@) =~= metrics_of_role(ev.take(i), registry@, ComponentRole::Transform).map_values(wrap));
        assert(items_view(sinks@) =~= metrics_of_role(ev.take(i), registry@, ComponentRole::Sink).map_values(wrap));
    }
    assert(ev.take(i) =~= ev);
    let mut out: Vec<Metric> = Vec::new();
    let mut s = sort_ordered(sources);
    aggregate_by_component(&mut s, &mut out);
    let mut t = sort_ordered(transforms);
    aggregate_by_component(&mut t, &mut out);
    let mut k = sort_ordered(sinks);
    aggregate_by_component(&mut k, &mut out);
    assert(metrics_view(Seq::<Metric>::empty()) =~= Seq::<MetricView>::empty());
    assert(metrics_view(out@) =~= component_metrics_spec(ev, registry@));
    out
}

proof fn lemma_tag_value_push(t: Seq<TagView>, x: TagView, k: Seq<char>)
    ensures
        tag_value_spec(t.push(x), k) == match tag_value_spec(t, k) {
            Some(v) => Some(v),
            None => if x.0 == k {
                Some(x.1)
            } else {
                None
            },
        },
    decreases t.len(),
{
    if t.len() > 0 {
        assert(t.push(x)[0] == t[0]);
        assert(t.push(x).drop_first() =~= t.drop_first().push(x));
        lemma_tag_value_push(t.drop_first(), x, k);
        assert(t.push(x).len() > 0);
    } else {
        assert(t.push(x) =~= seq![x]);
        assert(seq![x].drop_first() =~= Seq::<TagView>::empty());
        assert(seq![x][0] == x);
        assert(tag_value_spec(Seq::<TagView>::empty(), k) is None);
        assert(tag_value_spec(t, k) is None);
    }
}

proof fn lemma_tag_value_without(t: Seq<TagView>, gone: Seq<char>, k: Seq<char>)
    requires
        gone != k,
    ensures
        tag_value_spec(without_key(t, gone), k) == tag_value_spec(t, k),
    decreases t.len(),
{
    if t.len() > 0 {
        let p = t.drop_last();
        lemma_tag_value_without(p, gone, k);
        assert(p.push(t.last()) =~= t);
        lemma_tag_value_push(p, t.last(), k);
        if t.last().0 != gone {
            lemma_tag_value_push(without_key(p, gone), t.last(), k);
        }
    }
}

/// The tags name a component registered with role `r`.
pub open spec fn tags_of_role(reg: Seq<(Seq<char>, ComponentRole)>, r: ComponentRole) -> spec_fn(Seq<TagView>) -> bool {
    |t: Seq<TagView>| match tag_value_spec(t, component_key()) {
        Some(c) => lookup_spec(reg, c) == Some(r),
        None => false,
    }
}

proof fn lemma_metrics_of_role(events: Seq<Event>, reg: Seq<(Seq<char>, ComponentRole)>, r: ComponentRole)
    ensures
        forall|i: int| 0 <= i < metrics_of_role(events, reg, r).len() ==> metric_role(reg, #[trigger] metrics_of_role(events, reg, r)[i]) == Some(r),
    decreases events.len(),
{
    if events.len() > 0 {
        lemma_metrics_of_role(events.drop_last(), reg, r);
        let rest = metrics_of_role(events.drop_last(), reg, r);
        let all = metrics_of_role(events, reg, r);
        assert forall|i: int| 0 <= i < all.len() implies metric_role(reg, #[trigger] all[i]) == Some(r) by {
            if i < rest.len() {
                assert(all[i] == rest[i]);
            }
        }
    }
}

proof fn lemma_runs_all(s: Seq<MetricView>, p: spec_fn(Seq<TagView>) -> bool)
    requires
        forall|i: int| 0 <= i < s.len() ==> p(#[trigger] s[i].tags),
    ensures
        forall|g: int, e: int| 0 <= g < runs_spec(s).len() && 0 <= e < runs_spec(s)[g].len() ==> p(#[trigger] runs_spec(s)[g][e].tags),
    decreases s.len(),
{
    if s.len() > 0 {
        let q = s.drop_last();
        assert forall|i: int| 0 <= i < q.len() implies p(#[trigger] q[i].tags) by {
            assert(q[i] == s[i]);
        }
        lemma_runs_all(q, p);
        let g0 = runs_spec(q);
        let g1 = runs_spec(s);
        assert(p(s[s.len() - 1].tags));
        assert forall|g: int, e: int| 0 <= g < g1.len() && 0 <= e < g1[g].len() implies p(#[trigger] g1[g][e].tags) by {
            if g < g0.len() - 1 {
                assert(g1[g] == g0[g]);
            } else if g == g0.len() - 1 && g0.len() > 0 && g0.last().len() > 0 && same_component(g0.last().last(), s.last()) {
                assert(g1[g] == g0.last().push(s.last()));
                if e < g0.last().len() {
                    assert(g1[g][e] == g0[g][e]);
                }
            } else if g < g0.len() {
                assert(g1[g] == g0[g]);
            } else {
                assert(g1[g] == seq![s.last()]);
            }
        }
    }
}

proof fn lemma_aggregate_runs_all(g: Seq<Seq<MetricView>>, p: spec_fn(Seq<TagView>) -> bool)
    requires
        forall|a: int, e: int| 0 <= a < g.len() && 0 <= e < g[a].len() ==> p(without_key(#[trigger] g[a][e].tags, origin_key())),
    ensures
        forall|i: int| 0 <= i < aggregate_runs(g).len() ==> p(#[trigger] aggregate_runs(g)[i].tags),
    decreases g.len(),
{
    if g.len() > 0 {
        let h = g.drop_last();
        assert forall|a: int, e: int| 0 <= a < h.len() && 0 <= e < h[a].len() implies p(without_key(#[trigger] h[a][e].tags, origin_key())) by {
            assert(h[a] == g[a]);
        }
        lemma_aggregate_runs_all(h, p);
        let last = g[g.len() - 1];
        assert forall|e: int| 0 <= e < last.len() implies p(without_key(#[trigger] last[e].tags, origin_key())) by {
            assert(g[g.len() - 1][e] == last[e]);
        }
        lemma_aggregate_all(last, p);
        let a = aggregate_runs(h);
        let b = aggregate_spec(last);
        assert forall|i: int| 0 <= i < aggregate_runs(g).len() implies p(#[trigger] aggregate_runs(g)[i].tags) by {
            if i < a.len() {
                assert(aggregate_runs(g)[i] == a[i]);
            } else {
                assert(aggregate_runs(g)[i] == b[i - a.len()]);
            }
        }
    }
}

proof fn lemma_role_output(events: Seq<Event>, reg: Seq<(Seq<char>, ComponentRole)>, r: ComponentRole)
    ensures
        forall|i: int| 0 <= i < role_output(events, reg, r).len() ==> metric_role(reg, #[trigger] role_output(events, reg, r)[i]) == Some(r),
{
    let p = tags_of_role(reg, r);
    let ms = metrics_of_role(events, reg, r);
    lemma_metrics_of_role(events, reg, r);
    let items = ms.map_values(|m: MetricView| (m, false));
    assert forall|i: int| 0 <= i < items.len() implies p(#[trigger] items[i].0.tags) by {
        assert(items[i].0 == ms[i]);
        assert(metric_role(reg, ms[i]) == Some(r));
    }
    assert(all_tags(items, p));
    lemma_sort_all(MetricOrder::Component, items, p);
    let sorted = firsts(sort_spec(MetricOrder::Component, items));
    assert forall|i: int| 0 <= i < sorted.len() implies p(#[trigger] sorted[i].tags) by {
        assert(sorted[i] == sort_spec(MetricOrder::Component, items)[i].0);
    }
    lemma_runs_all(sorted, p);
    let g = runs_spec(sorted);
    assert(component_key().len() != origin_key().len());
    assert forall|a: int, e: int| 0 <= a < g.len() && 0 <= e < g[a].len() implies p(without_key(#[trigger] g[a][e].tags, origin_key())) by {
        lemma_tag_value_without(g[a][e].tags, origin_key(), component_key());
    }
    lemma_aggregate_runs_all(g, p);
}

/// One interval's output comes sources first, then transforms, then sinks: every metric
/// belongs to a registered component, and no metric comes after one of a later role.
pub proof fn lemma_component_metrics_role_order(events: Seq<Event>, reg: Seq<(Seq<char>, ComponentRole)>)
    ensures
        forall|i: int| 0 <= i < component_metrics_spec(events, reg).len() ==> metric_role(reg, #[trigger] component_metrics_spec(events, reg)[i]) is Some,
        forall|i: int, j: int| 0 <= i < j < component_metrics_spec(events, reg).len() ==> role_rank(
            metric_role(reg, #[trigger] component_metrics_spec(events, reg)[i])->0,
        ) <= role_rank(metric_role(reg, #[trigger] component_metrics_spec(events, reg)[j])->0),
{
    let a = role_output(events, reg, ComponentRole::Source);
    let b = role_output(events, reg, ComponentRole::Transform);
    let c = role_output(events, reg, ComponentRole::Sink);
    lemma_role_output(events, reg, ComponentRole::Source);
    lemma_role_output(events, reg, ComponentRole::Transform);
    lemma_role_output(events, reg, ComponentRole::Sink);
    let o = component_metrics_spec(events, reg);
    assert(o == a + b + c);
    assert forall|i: int| 0 <= i < o.len() implies metric_role(reg, #[trigger] o[i]) is Some && (i < a.len() ==> metric_role(reg, o[i]) == Some(ComponentRole::Source)) && (a.len() <= i < a.len() + b.len() ==> metric_role(reg, o[i]) == Some(ComponentRole::Transform)) && (a.len() + b.len() <= i ==> metric_role(reg, o[i]) == Some(ComponentRole::Sink)) by {
        if i < a.len() {
            assert(o[i] == a[i]);
        } else if i < a.len() + b.len() {
            assert(o[i] == b[i - a.len()]);
        } else {
            assert(o[i] == c[i - a.len() - b.len()]);
        }
    }
}

pub open spec fn comp(m: MetricView) -> Option<Seq<char>> {
    tag_value_spec(m.tags, component_key())
}

/// Adjacent metrics are in component order.
pub open spec fn adjacent_by_component(s: Seq<MetricView>) -> bool {
    forall|i: int| 0 <= i < s.len() - 1 ==> cmp_opt_chars(comp(#[trigger] s[i]), comp(s[i + 1])) <= 0
}

/// Runs are nonempty, hold one component each, and their components rise strictly.
pub open spec fn runs_rising(g: Seq<Seq<MetricView>>) -> bool {
    &&& forall|a: int| 0 <= a < g.len() ==> #[trigger] g[a].len() > 0
    &&& forall|a: int, e: int| 0 <= a < g.len() && 0 <= e < g[a].len() ==> comp(#[trigger] g[a][e]) == comp(g[a][0])
    &&& forall|a: int, b: int| 0 <= a < b < g.len() ==> cmp_opt_chars(comp(#[trigger] g[a][0]), comp(#[trigger] g[b][0])) < 0
}

proof fn lemma_runs_rising(s: Seq<MetricView>)
    requires
        adjacent_by_component(s),
    ensures
        runs_rising(runs_spec(s)),
        s.len() > 0 ==> runs_spec(s).len() > 0 && comp(runs_spec(s).last()[0]) == comp(s.last()),
    decreases s.len(),
{
    if s.len() > 0 {
        let q = s.drop_last();
        assert forall|i: int| 0 <= i < q.len() - 1 implies cmp_opt_chars(comp(#[trigger] q[i]), comp(q[i + 1])) <= 0 by {
            assert(q[i] == s[i] && q[i + 1] == s[i + 1]);
        }
        lemma_runs_rising(q);
        let g0 = runs_spec(q);
        let g = runs_spec(s);
        let x = s.last();
        if g0.len() > 0 && g0.last().len() > 0 && same_component(g0.last().last(), x) {
            let l = g0.last().push(x);
            assert(g == g0.drop_last().push(l));
            assert forall|a: int| 0 <= a < g.len() implies #[trigger] g[a].len() > 0 by {
                if a < g0.len() - 1 {
                    assert(g[a] == g0[a]);
                }
            }
            assert forall|a: int, e: int| 0 <= a < g.len() && 0 <= e < g[a].len() implies comp(#[trigger] g[a][e]) == comp(g[a][0]) by {
                if a < g0.len() - 1 {
                    assert(g[a] == g0[a]);
                } else {
                    assert(g[a] == l);
                    assert(l[0] == g0[a][0]);
                    if e < g0[a].len() {
                        assert(l[e] == g0[a][e]);
                    } else {
                        assert(l[e] == x);
                        assert(g0.last().last() == g0[a][g0[a].len() - 1]);
                    }
                }
            }
            assert forall|a: int, b: int| 0 <= a < b < g.len() implies cmp_opt_chars(comp(#[trigger] g[a][0]), comp(#[trigger] g[b][0])) < 0 by {
                assert(g[a][0] == g0[a][0]);
                assert(g[b][0] == g0[b][0]);
            }
            assert(g.last()[0] == g0.last()[0]);
            assert(comp(g0.last().last()) == comp(g0.last()[0]));
        } else {
            let l = seq![x];
            assert(g == g0.push(l));
            if q.len() > 0 {
                assert(q.last() == s[s.len() - 2]);
                assert(cmp_opt_chars(comp(s[s.len() - 2]), comp(s[s.len() - 1])) <= 0);
                assert(comp(g0.last().last()) == comp(g0.last()[0]));
                lemma_cmp_opt_laws(comp(q.last()), comp(x), comp(x));
            }
            assert forall|a: int| 0 <= a < g.len() implies #[trigger] g[a].len() > 0 by {
                if a < g0.len() {
                    assert(g[a] == g0[a]);
                }
            }
            assert forall|a: int, e: int| 0 <= a < g.len() && 0 <= e < g[a].len() implies comp(#[trigger] g[a][e]) == comp(g[a][0]) by {
                if a < g0.len() {
                    assert(g[a] == g0[a]);
                }
            }
            assert forall|a: int, b: int| 0 <= a < b < g.len() implies cmp_opt_chars(comp(#[trigger] g[a][0]), comp(#[trigger] g[b][0])) < 0 by {
                assert(g[a] == g0[a]);
                if b < g0.len() {
                    assert(g[b] == g0[b]);
                } else {
                    assert(g[b][0] == x);
                    if a < g0.len() - 1 {
                        assert(cmp_opt_chars(comp(g0[a][0]), comp(g0[g0.len() - 1][0])) < 0);
                        lemma_cmp_opt_laws(comp(g0[a][0]), comp(g0[g0.len() - 1][0]), comp(x));
                    }
                }
            }
            assert(g.last()[0] == x);
        }
    }
}

/// Component order holds between every two metrics, not only adjacent ones.
pub open spec fn ordered_by_component(s: Seq<MetricView>) -> bool {
    forall|i: int, j: int| 0 <= i < j < s.len() ==> cmp_opt_chars(comp(#[trigger] s[i]), comp(#[trigger] s[j])) <= 0
}

proof fn lemma_aggregate_runs_ordered(g: Seq<Seq<MetricView>>)
    requires
        runs_rising(g),
    ensures
        ordered_by_component(aggregate_runs(g)),
        g.len() > 0 ==> forall|i: int| 0 <= i < aggregate_runs(g).len() ==> cmp_opt_chars(comp(#[trigger] aggregate_runs(g)[i]), comp(g.last()[0])) <= 0,
    decreases g.len(),
{
    if g.len() > 0 {
        let h = g.drop_last();
        assert forall|a: int| 0 <= a < h.len() implies #[trigger] h[a].len() > 0 by {
            assert(h[a] == g[a]);
        }
        assert forall|a: int, e: int| 0 <= a < h.len() && 0 <= e < h[a].len() implies comp(#[trigger] h[a][e]) == comp(h[a][0]) by {
            assert(h[a] == g[a]);
        }
        assert forall|a: int, b: int| 0 <= a < b < h.len() implies cmp_opt_chars(comp(#[trigger] h[a][0]), comp(#[trigger] h[b][0])) < 0 by {
            assert(h[a] == g[a] && h[b] == g[b]);
        }
        lemma_aggregate_runs_ordered(h);
        let last = g[g.len() - 1];
        let c = comp(last[0]);
        let p = |t: Seq<TagView>| tag_value_spec(t, component_key()) == c;
        assert(component_key().len() != origin_key().len());
        assert forall|e: int| 0 <= e < last.len() implies p(without_key(#[trigger] last[e].tags, origin_key())) by {
            lemma_tag_value_without(last[e].tags, origin_key(), component_key());
            assert(comp(g[g.len() - 1][e]) == comp(g[g.len() - 1][0]));
        }
        lemma_aggregate_all(last, p);
        let a = aggregate_runs(h);
        let b = aggregate_spec(last);
        let o = aggregate_runs(g);
        assert(o == a + b);
        lemma_cmp_opt_laws(c, c, c);
        if h.len() > 0 {
            assert(h.last() == g[g.len() - 2]);
            assert(cmp_opt_chars(comp(g[g.len() - 2][0]), comp(g[g.len() - 1][0])) < 0);
        }
        assert forall|i: int| 0 <= i < a.len() implies cmp_opt_chars(comp(#[trigger] a[i]), c) <= 0 by {
            lemma_cmp_opt_laws(comp(a[i]), comp(h.last()[0]), c);
        }
        assert forall|i: int| 0 <= i < o.len() implies cmp_opt_chars(comp(#[trigger] o[i]), comp(g.last()[0])) <= 0 by {
            if i < a.len() {
                assert(o[i] == a[i]);
            } else {
                assert(o[i] == b[i - a.len()]);
            }
        }
        assert forall|i: int, j: int| 0 <= i < j < o.len() implies cmp_opt_chars(comp(#[trigger] o[i]), comp(#[trigger] o[j])) <= 0 by {
            if j < a.len() {
                assert(o[i] == a[i] && o[j] == a[j]);
            } else if i < a.len() {
                assert(o[i] == a[i] && o[j] == b[j - a.len()]);
            } else {
                assert(o[i] == b[i - a.len()] && o[j] == b[j - a.len()]);
            }
        }
    }
}

proof fn lemma_role_output_ordered(events: Seq<Event>, reg: Seq<(Seq<char>, ComponentRole)>, r: ComponentRole)
    ensures
        ordered_by_component(role_output(events, reg, r)),
{
    let items = metrics_of_role(events, reg, r).map_values(|m: MetricView| (m, false));
    lemma_sort_sorted(items);
    let srt = sort_spec(MetricOrder::Component, items);
    let f = firsts(srt);
    assert forall|i: int| 0 <= i < f.len() - 1 implies cmp_opt_chars(comp(#[trigger] f[i]), comp(f[i + 1])) <= 0 by {
        assert(f[i] == srt[i].0 && f[i + 1] == srt[i + 1].0);
    }
    lemma_runs_rising(f);
    lemma_aggregate_runs_ordered(runs_spec(f));
}

/// One interval's output keeps each component's metrics together: between two metrics of
/// one component there is no metric of another.
pub proof fn lemma_component_metrics_grouped(events: Seq<Event>, reg: Seq<(Seq<char>, ComponentRole)>)
    ensures
        forall|i: int, j: int, k: int|
            0 <= i < j < k < component_metrics_spec(events, reg).len() && comp(
                #[trigger] component_metrics_spec(events, reg)[i],
            ) == comp(#[trigger] component_metrics_spec(events, reg)[k]) ==> comp(
                #[trigger] component_metrics_spec(events, reg)[j],
            ) == comp(component_metrics_spec(events, reg)[i]),
{
    let a = role_output(events, reg, ComponentRole::Source);
    let b = role_output(events, reg, ComponentRole::Transform);
    let c = role_output(events, reg, ComponentRole::Sink);
    lemma_role_output(events, reg, ComponentRole::Source);
    lemma_role_output(events, reg, ComponentRole::Transform);
    lemma_role_output(events, reg, ComponentRole::Sink);
    lemma_role_output_ordered(events, reg, ComponentRole::Source);
    lemma_role_output_ordered(events, reg, ComponentRole::Transform);
    lemma_role_output_ordered(events, reg, ComponentRole::Sink);
    let o = component_metrics_spec(events, reg);
    assert(o == a + b + c);
    let na = a.len();
    let nb = a.len() + b.len();
    assert forall|i: int, j: int, k: int|
        0 <= i < j < k < o.len() && comp(#[trigger] o[i]) == comp(#[trigger] o[k]) implies comp(#[trigger] o[j]) == comp(o[i]) by {
        assert(metric_role(reg, o[i]) == metric_role(reg, o[k]));
        let (ri, rj, rk) = if k < na {
            (a[i], a[j], a[k])
        } else if i >= na && k < nb {
            (b[i - na], b[j - na], b[k - na])
        } else if i >= nb {
            (c[i - nb], c[j - nb], c[k - nb])
        } else {
            (o[i], o[j], o[k])
        };
        if i < na {
            assert(o[i] == a[i]);
            assert(metric_role(reg, o[i]) == Some(ComponentRole::Source));
        } else if i < nb {
            assert(o[i] == b[i - na]);
            assert(metric_role(reg, o[i]) == Some(ComponentRole::Transform));
        } else {
            assert(o[i] == c[i - nb]);
        }
        if k < na {
            assert(o[k] == a[k]);
        } else if k < nb {
            assert(o[k] == b[k - na]);
            assert(metric_role(reg, o[k]) == Some(ComponentRole::Transform));
        } else {
            assert(o[k] == c[k - nb]);
            assert(metric_role(reg, o[k]) == Some(ComponentRole::Sink));
        }
        if k < na {
            assert(o[j] == a[j]);
        } else if i >= na && k < nb {
            assert(o[j] == b[j - na]);
        } else {
            assert(o[j] == c[j - nb]);
        }
        assert(o[i] == ri && o[j] == rj && o[k] == rk);
        lemma_cmp_opt_laws(comp(ri), comp(rj), comp(rk));
        lemma_cmp_opt_laws(comp(rj), comp(ri), comp(rk));
    }
}

} // verus!
