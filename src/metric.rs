use vstd::prelude::*;
use crate::text::{cmp_chars, compare_str, lemma_cmp_chars_antisym, lemma_cmp_chars_zero_iff};

verus! {

/// The reading a metric carries. Counters are monotonic totals; any other kind is
/// carried through untouched.
#[derive(Clone, Copy, Debug, PartialEq, Eq, Structural)]
pub enum MetricValue {
    Counter { value: u64 },
    Gauge { value: i64 },
}

/// One metric data point: a name, key/value tags and a value, with an optional
/// timestamp in milliseconds since the Unix epoch. Tags are held as a map holds them: one
/// entry per key, in key order. Two metrics are the same series when name and tags agree.
#[derive(Clone, Debug, PartialEq, Eq)]
pub struct Metric {
    pub name: String,
    pub tags: Vec<(String, String)>,
    pub value: MetricValue,
    pub timestamp: Option<i64>,
}

/// A tag as two character sequences.
pub type TagView = (Seq<char>, Seq<char>);

pub struct MetricView {
    pub name: Seq<char>,
    pub tags: Seq<TagView>,
    pub value: MetricValue,
    pub timestamp: Option<i64>,
}

pub open spec fn tags_view(tags: Seq<(String, String)>) -> Seq<TagView> {
    tags.map_values(|t: (String, String)| (t.0@, t.1@))
}

impl View for Metric {
    type V = MetricView;

    open spec fn view(&self) -> MetricView {
        MetricView {
            name: self.name@,
            tags: tags_view(self.tags@),
            value: self.value,
            timestamp: self.timestamp,
        }
    }
}

pub open spec fn metrics_view(ms: Seq<Metric>) -> Seq<MetricView> {
    ms.map_values(|m: Metric| m@)
}

/// The value of the first tag with key `key`, if any.
pub open spec fn tag_value_spec(tags: Seq<TagView>, key: Seq<char>) -> Option<Seq<char>>
    decreases tags.len(),
{
    if tags.len() == 0 {
        None
    } else if tags[0].0 == key {
        Some(tags[0].1)
    } else {
        tag_value_spec(tags.drop_first(), key)
    }
}

/// Whether any tag has key `key`.
pub open spec fn has_tag(tags: Seq<TagView>, key: Seq<char>) -> bool {
    exists|i: int| 0 <= i < tags.len() && #[trigger] tags[i].0 == key
}

/// A copy of the tag at position `i` of `tags` with the same characters.
pub(crate) fn clone_tag(tags: &Vec<(String, String)>, i: usize) -> (r: (String, String))
    requires
        i < tags@.len(),
    ensures
        r.0@ == tags@[i as int].0@,
        r.1@ == tags@[i as int].1@,
{
    (tags[i].0.clone(), tags[i].1.clone())
}


/// Puts `x` into key-ordered tags: it replaces the entry with its key, or goes before the
/// first entry with a larger key.
pub open spec fn put_tag(t: Seq<TagView>, x: TagView) -> Seq<TagView>
    decreases t.len(),
{
    if t.len() == 0 {
        seq![x]
    } else if cmp_chars(x.0, t[0].0) < 0 {
        seq![x] + t
    } else if x.0 == t[0].0 {
        t.update(0, x)
    } else {
        seq![t[0]] + put_tag(t.drop_first(), x)
    }
}

/// The tags as a map holds them: put one after the other, so the last value of a key wins.
pub open spec fn tags_map(t: Seq<TagView>) -> Seq<TagView>
    decreases t.len(),
{
    if t.len() == 0 {
        t
    } else {
        put_tag(tags_map(t.drop_last()), t.last())
    }
}


/// Tags as a map holds them: keys strictly rising, so each key once.
pub open spec fn tags_ordered(t: Seq<TagView>) -> bool {
    forall|i: int| 0 <= i < t.len() - 1 ==> cmp_chars((#[trigger] t[i]).0, t[i + 1].0) < 0
}

proof fn lemma_put_tag_ordered(t: Seq<TagView>, x: TagView)
    requires
        tags_ordered(t),
    ensures
        tags_ordered(put_tag(t, x)),
        put_tag(t, x).len() > 0,
        put_tag(t, x)[0].0 == x.0 || (t.len() > 0 && put_tag(t, x)[0].0 == t[0].0),
    decreases t.len(),
{
    let r = put_tag(t, x);
    if t.len() == 0 {
        assert(r =~= seq![x]);
    } else if cmp_chars(x.0, t[0].0) < 0 {
        assert(r =~= seq![x] + t);
        assert forall|i: int| 0 <= i < r.len() - 1 implies cmp_chars((#[trigger] r[i]).0, r[i + 1].0) < 0 by {
            if i > 0 {
                assert(r[i] == t[i - 1] && r[i + 1] == t[i]);
            }
        }
    } else if x.0 == t[0].0 {
        assert forall|i: int| 0 <= i < r.len() - 1 implies cmp_chars((#[trigger] r[i]).0, r[i + 1].0) < 0 by {
            assert(r[i].0 == t[i].0 && r[i + 1].0 == t[i + 1].0);
        }
    } else {
        let u = t.drop_first();
        assert forall|i: int| 0 <= i < u.len() - 1 implies cmp_chars((#[trigger] u[i]).0, u[i + 1].0) < 0 by {
            assert(u[i] == t[i + 1] && u[i + 1] == t[i + 2]);
        }
        lemma_put_tag_ordered(u, x);
        let v = put_tag(u, x);
        assert(r =~= seq![t[0]] + v);
        lemma_cmp_chars_zero_iff(x.0, t[0].0);
        lemma_cmp_chars_antisym(x.0, t[0].0);
        if u.len() > 0 {
            assert(u[0] == t[1]);
        }
        assert forall|i: int| 0 <= i < r.len() - 1 implies cmp_chars((#[trigger] r[i]).0, r[i + 1].0) < 0 by {
            if i > 0 {
                assert(r[i] == v[i - 1] && r[i + 1] == v[i]);
            } else {
                assert(r[1] == v[0]);
            }
        }
    }
}

proof fn lemma_tags_map_ordered(t: Seq<TagView>)
    ensures
        tags_ordered(tags_map(t)),
    decreases t.len(),
{
    if t.len() > 0 {
        lemma_tags_map_ordered(t.drop_last());
        lemma_put_tag_ordered(tags_map(t.drop_last()), t.last());
    }
}

proof fn lemma_put_tag_at(t: Seq<TagView>, x: TagView, p: int)
    requires
        0 <= p <= t.len(),
        forall|j: int| 0 <= j < p ==> cmp_chars(x.0, #[trigger] t[j].0) > 0,
        p < t.len() ==> cmp_chars(x.0, t[p].0) <= 0,
    ensures
        put_tag(t, x) == if p < t.len() && x.0 == t[p].0 {
            t.update(p, x)
        } else {
            t.take(p).push(x) + t.skip(p)
        },
    decreases p,
{
    if p < t.len() {
        lemma_cmp_chars_zero_iff(x.0, t[p].0);
    }
    if t.len() == 0 {
        assert(t.take(p).push(x) + t.skip(p) =~= seq![x]);
    } else if p == 0 {
        assert(t.take(p).push(x) + t.skip(p) =~= seq![x] + t);
    } else {
        let u = t.drop_first();
        lemma_cmp_chars_zero_iff(x.0, t[0].0);
        assert forall|j: int| 0 <= j < p - 1 implies cmp_chars(x.0, #[trigger] u[j].0) > 0 by {
            assert(u[j] == t[j + 1]);
        }
        lemma_put_tag_at(u, x, p - 1);
        if p < t.len() && x.0 == t[p].0 {
            assert(seq![t[0]] + u.update(p - 1, x) =~= t.update(p, x));
        } else {
            assert(seq![t[0]] + (u.take(p - 1).push(x) + u.skip(p - 1)) =~= t.take(p).push(x) + t.skip(p));
        }
    }
}

/// Puts the tag `x` into the key-ordered tags `v`.
fn put_tag_exec(v: &mut Vec<(String, String)>, x: (String, String))
    ensures
        tags_view(final(v)@) == put_tag(tags_view(old(v)@), (x.0@, x.1@)),
{
    let ghost t = tags_view(v@);
    let ghost xv = (x.0@, x.1@);
    let mut p: usize = 0;
    let mut stop = false;
    while !stop && p < v.len()
        invariant
            t == tags_view(v@),
            xv == (x.0@, x.1@),
            p <= v@.len(),
            stop ==> p < t.len() && cmp_chars(xv.0, t[p as int].0) <= 0,
            forall|j: int| 0 <= j < p ==> cmp_chars(xv.0, #[trigger] t[j].0) > 0,
        decreases v@.len() - p + (if stop { 0int } else { 1int }),
    {
        let c = compare_str(x.0.as_str(), v[p].0.as_str());
        assert(t[p as int].0 == v@[p as int].0@);
        if c <= 0 {
            stop = true;
        } else {
            p = p + 1;
        }
    }
    proof {
        lemma_put_tag_at(t, xv, p as int);
        if p < t.len() {
            lemma_cmp_chars_zero_iff(xv.0, t[p as int].0);
        }
    }
    if p < v.len() {
        assert(t[p as int].0 == v@[p as int].0@);
    }
    if p < v.len() && compare_str(x.0.as_str(), v[p].0.as_str()) == 0 {
        v.set(p, x);
        assert(tags_view(v@) =~= t.update(p as int, xv));
    } else {
        v.insert(p, x);
        assert(tags_view(v@) =~= t.take(p as int).push(xv) + t.skip(p as int));
    }
}

impl Metric {
    /// A metric whose tags are put in key order, the last value given for a key winning.
    pub fn new(name: String, tags: Vec<(String, String)>, value: MetricValue, timestamp: Option<i64>) -> (r: Metric)
        ensures
            r.name@ == name@,
            r@.tags == tags_map(tags_view(tags@)),
            tags_ordered(r@.tags),
            r.value == value,
            r.timestamp == timestamp,
    {
        proof {
            lemma_tags_map_ordered(tags_view(tags@));
        }
        let ghost given = tags_view(tags@);
        let mut rest = tags;
        let mut map: Vec<(String, String)> = Vec::new();
        let ghost mut i: int = 0;
        assert(given.take(0) =~= Seq::<TagView>::empty());
        while rest.len() > 0
            invariant
                0 <= i <= given.len(),
                tags_view(rest@) == given.skip(i),
                tags_view(map@) == tags_map(given.take(i)),
            decreases rest@.len(),
        {
            assert(tags_view(rest@).len() == rest@.len());
            assert((rest@[0].0@, rest@[0].1@) == given.skip(i)[0]);
            let x = rest.remove(0);
            proof {
                assert(given.skip(i)[0] == given[i]);
                assert(given.skip(i + 1) =~= given.skip(i).drop_first());
                assert(given.take(i + 1).drop_last() =~= given.take(i));
                assert(given.take(i + 1).last() == given[i]);
            }
            put_tag_exec(&mut map, x);
            proof {
                i = i + 1;
            }
            assert(tags_view(rest@) =~= given.skip(i));
        }
        assert(given.take(i) =~= given);
        Metric { name, tags: map, value, timestamp }
    }

    /// Whether the tags are held as a map holds them: keys strictly rising.
    pub fn is_well_formed(&self) -> (r: bool)
        ensures
            r == tags_ordered(self@.tags),
    {
        let ghost t = self@.tags;
        let mut i: usize = 1;
        while i < self.tags.len()
            invariant
                1 <= i,
                t == self@.tags,
                t.len() == self.tags@.len(),
                forall|j: int| 0 <= j < i - 1 && j < t.len() - 1 ==> cmp_chars((#[trigger] t[j]).0, t[j + 1].0) < 0,
            decreases self.tags@.len() - i,
        {
            let c = compare_str(self.tags[i - 1].0.as_str(), self.tags[i].0.as_str());
            if c >= 0 {
                assert(cmp_chars(t[i - 1].0, t[i as int].0) >= 0);
                return false;
            }
            i = i + 1;
        }
        true
    }

    /// A counter metric without timestamp, its tags put in key order.
    pub fn counter(name: String, tags: Vec<(String, String)>, value: u64) -> (r: Metric)
        ensures
            r.name@ == name@,
            r@.tags == tags_map(tags_view(tags@)),
            tags_ordered(r@.tags),
            r.value == (MetricValue::Counter { value }),
            r.timestamp is None,
    {
        Metric::new(name, tags, MetricValue::Counter { value }, None)
    }

    /// A copy of the metric.
    pub fn clone_metric(&self) -> (r: Metric)
        ensures
            r@ == self@,
    {
        let mut tags: Vec<(String, String)> = Vec::new();
        let mut i: usize = 0;
        while i < self.tags.len()
            invariant
                i <= self.tags@.len(),
                tags_view(tags@) == tags_view(self.tags@).take(i as int),
            decreases self.tags@.len() - i,
        {
            let t = clone_tag(&self.tags, i);
            let ghost before = tags@;
            tags.push(t);
            assert(tags_view(tags@) =~= tags_view(before).push((t.0@, t.1@)));
            i = i + 1;
            assert(tags_view(tags@) =~= tags_view(self.tags@).take(i as int));
        }
        assert(tags_view(self.tags@).take(i as int) =~= tags_view(self.tags@));
        Metric { name: self.name.clone(), tags, value: self.value, timestamp: self.timestamp }
    }

    /// The value of the first tag with key `key`, copied.
    pub fn tag_value(&self, key: &str) -> (r: Option<String>)
        ensures
            match r {
                Some(v) => tag_value_spec(self@.tags, key@) == Some(v@),
                None => tag_value_spec(self@.tags, key@) is None,
            },
    {
        let mut i: usize = 0;
        assert(self@.tags.skip(0) =~= self@.tags);
        while i < self.tags.len()
            invariant
                i <= self.tags@.len(),
                tag_value_spec(self@.tags, key@) == tag_value_spec(self@.tags.skip(i as int), key@),
            decreases self.tags@.len() - i,
        {
            let t = clone_tag(&self.tags, i);
            assert(self@.tags.skip(i as int)[0] == self@.tags[i as int]);
            assert(self@.tags.skip(i as int).drop_first() =~= self@.tags.skip(i + 1));
            if crate::text::str_eq(t.0.as_str(), key) {
                return Some(t.1);
            }
            i = i + 1;
        }
        None
    }
}

/// A structured log record as a list of named fields.
#[derive(Clone, Debug, PartialEq, Eq)]
pub struct LogEvent {
    pub fields: Vec<(String, String)>,
}

/// What flows through the pipeline: a log record or a metric.
#[derive(Clone, Debug, PartialEq, Eq)]
pub enum Event {
    Log(LogEvent),
    Metric(Metric),
}

} // verus!
