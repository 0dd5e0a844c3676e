use vstd::prelude::*;
use crate::metric::{Metric, MetricView, TagView, tag_value_spec};
use crate::text::{cmp_chars, compare_str, lemma_cmp_chars_antisym, lemma_cmp_chars_trans, lemma_cmp_chars_zero_iff};

verus! {

/// The orders in which metrics are sorted.
#[derive(Clone, Copy, Debug, PartialEq, Eq, Structural)]
pub enum MetricOrder {
    /// By name, then by tags (each tag by key, then by value).
    Series,
    /// By the `component_name` tag; a metric without one comes first.
    Component,
}

pub open spec fn component_key() -> Seq<char> {
    seq!['c', 'o', 'm', 'p', 'o', 'n', 'e', 'n', 't', '_', 'n', 'a', 'm', 'e']
}

/// Three-way lexicographic comparison of tag lists from position `i` on.
pub open spec fn cmp_tags_from(a: Seq<TagView>, b: Seq<TagView>, i: int) -> int
    decreases a.len() - i,
{
    if i >= a.len() {
        if i >= b.len() {
            0
        } else {
            -1
        }
    } else if i >= b.len() {
        1
    } else if cmp_chars(a[i].0, b[i].0) != 0 {
        cmp_chars(a[i].0, b[i].0)
    } else if cmp_chars(a[i].1, b[i].1) != 0 {
        cmp_chars(a[i].1, b[i].1)
    } else {
        cmp_tags_from(a, b, i + 1)
    }
}

pub open spec fn cmp_opt_chars(a: Option<Seq<char>>, b: Option<Seq<char>>) -> int {
    match (a, b) {
        (None, None) => 0,
        (None, Some(_)) => -1,
        (Some(_), None) => 1,
        (Some(x), Some(y)) => cmp_chars(x, y),
    }
}

pub open spec fn cmp_metrics(o: MetricOrder, a: MetricView, b: MetricView) -> int {
    match o {
        MetricOrder::Series => if cmp_chars(a.name, b.name) != 0 {
            cmp_chars(a.name, b.name)
        } else {
            cmp_tags_from(a.tags, b.tags, 0)
        },
        MetricOrder::Component => cmp_opt_chars(
            tag_value_spec(a.tags, component_key()),
            tag_value_spec(b.tags, component_key()),
        ),
    }
}

/// `a` sorts strictly before `b`.
pub open spec fn metric_lt(o: MetricOrder, a: MetricView, b: MetricView) -> bool {
    cmp_metrics(o, a, b) < 0
}

/// Inserts `x` after every item that does not sort strictly after it.
pub open spec fn insert_spec(o: MetricOrder, s: Seq<(MetricView, bool)>, x: (MetricView, bool)) -> Seq<
    (MetricView, bool),
>
    decreases s.len(),
{
    if s.len() == 0 {
        seq![x]
    } else if metric_lt(o, x.0, s[0].0) {
        seq![x] + s
    } else {
        seq![s[0]] + insert_spec(o, s.drop_first(), x)
    }
}

/// Stable insertion sort of `s` in the order `o`.
pub open spec fn sort_spec(o: MetricOrder, s: Seq<(MetricView, bool)>) -> Seq<(MetricView, bool)>
    decreases s.len(),
{
    if s.len() == 0 {
        s
    } else {
        insert_spec(o, sort_spec(o, s.drop_last()), s.last())
    }
}

pub open spec fn items_view(s: Seq<(Metric, bool)>) -> Seq<(MetricView, bool)> {
    s.map_values(|p: (Metric, bool)| (p.0@, p.1))
}

fn compare_tags(a: &Vec<(String, String)>, b: &Vec<(String, String)>) -> (r: i8)
    ensures
        r as int == cmp_tags_from(
            crate::metric::tags_view(a@),
            crate::metric::tags_view(b@),
            0,
        ),
{
    let ghost ta = crate::metric::tags_view(a@);
    let ghost tb = crate::metric::tags_view(b@);
    let mut i: usize = 0;
    while i < a.len() && i < b.len()
        invariant
            i <= a@.len(),
            i <= b@.len(),
            ta == crate::metric::tags_view(a@),
            tb == crate::metric::tags_view(b@),
            cmp_tags_from(ta, tb, 0) == cmp_tags_from(ta, tb, i as int),
        decreases a@.len() - i,
    {
        let k = compare_str(a[i].0.as_str(), b[i].0.as_str());
        if k != 0 {
            return k;
        }
        let v = compare_str(a[i].1.as_str(), b[i].1.as_str());
        if v != 0 {
            return v;
        }
        i = i + 1;
    }
    if i >= a.len() {
        if i >= b.len() {
            0
        } else {
            -1
        }
    } else {
        1
    }
}

fn compare_opt_str(a: &Option<String>, b: &Option<String>) -> (r: i8)
    ensures
        r as int == cmp_opt_chars(
            match a {
                Some(x) => Some(x@),
                None => None,
            },
            match b {
                Some(x) => Some(x@),
                None => None,
            },
        ),
{
    match (a, b) {
        (None, None) => 0,
        (None, Some(_)) => -1,
        (Some(_), None) => 1,
        (Some(x), Some(y)) => compare_str(x.as_str(), y.as_str()),
    }
}

/// Compares two metrics in the order `o`.
pub fn compare_metrics(o: MetricOrder, a: &Metric, b: &Metric) -> (r: i8)
    ensures
        r as int == cmp_metrics(o, a@, b@),
{
    match o {
        MetricOrder::Series => {
            let c = compare_str(a.name.as_str(), b.name.as_str());
            if c != 0 {
                c
            } else {
                compare_tags(&a.tags, &b.tags)
            }
        },
        MetricOrder::Component => {
            proof {
                reveal_strlit("component_name");
                assert("component_name"@ =~= component_key());
            }
            let ca = a.tag_value("component_name");
            let cb = b.tag_value("component_name");
            compare_opt_str(&ca, &cb)
        },
    }
}

pub proof fn lemma_insert_at(o: MetricOrder, s: Seq<(MetricView, bool)>, x: (MetricView, bool), p: int)
    requires
        0 <= p <= s.len(),
        forall|j: int| 0 <= j < p ==> !metric_lt(o, x.0, #[trigger] s[j].0),
        p < s.len() ==> metric_lt(o, x.0, s[p].0),
    ensures
        insert_spec(o, s, x) == s.take(p).push(x) + s.skip(p),
    decreases p,
{
    if s.len() == 0 {
        assert(s.take(p).push(x) + s.skip(p) =~= seq![x]);
    } else if p == 0 {
        assert(s.take(p).push(x) + s.skip(p) =~= seq![x] + s);
    } else {
        let t = s.drop_first();
        assert forall|j: int| 0 <= j < p - 1 implies !metric_lt(o, x.0, #[trigger] t[j].0) by {
            assert(t[j] == s[j + 1]);
        }
        lemma_insert_at(o, t, x, p - 1);
        assert(s.take(p).push(x) + s.skip(p) =~= seq![s[0]] + (t.take(p - 1).push(x) + t.skip(p - 1)));
    }
}

/// Inserts `x` into `v` after every item that does not sort strictly after it.
fn insert_sorted(o: MetricOrder, v: &mut Vec<(Metric, bool)>, x: (Metric, bool))
    ensures
        items_view(final(v)@) == insert_spec(o, items_view(old(v)@), (x.0@, x.1)),
{
    let ghost s = items_view(v@);
    let mut p: usize = 0;
    let mut found = false;
    while !found && p < v.len()
        invariant
            s == items_view(v@),
            p <= v@.len(),
            found ==> p < s.len() && metric_lt(o, x.0@, s[p as int].0),
            forall|j: int| 0 <= j < p ==> !metric_lt(o, x.0@, #[trigger] s[j].0),
        decreases v@.len() - p + (if found { 0int } else { 1int }),
    {
        let c = compare_metrics(o, &x.0, &v[p].0);
        if c < 0 {
            found = true;
        } else {
            p = p + 1;
        }
    }
    proof {
        lemma_insert_at(o, s, (x.0@, x.1), p as int);
    }
    v.insert(p, x);
    assert(items_view(v@) =~= s.take(p as int).push((x.0@, x.1)) + s.skip(p as int));
}

/// Sorts `items` stably in the order `o`, leaving `items` empty.
pub fn sort_items(o: MetricOrder, items: &mut Vec<(Metric, bool)>) -> (r: Vec<(Metric, bool)>)
    ensures
        items_view(r@) == sort_spec(o, items_view(old(items)@)),
        final(items)@.len() == 0,
{
    let ghost input = items_view(items@);
    let mut out: Vec<(Metric, bool)> = Vec::new();
    let ghost mut i: int = 0;
    assert(input.take(0) =~= Seq::<(MetricView, bool)>::empty());
    while items.len() > 0
        invariant
            0 <= i <= input.len(),
            items_view(items@) == input.skip(i),
            items_view(out@) == sort_spec(o, input.take(i)),
        decreases items@.len(),
    {
        assert(items_view(items@).len() == items@.len());
        let x = items.remove(0);
        proof {
            assert(input.skip(i)[0] == input[i]);
            assert(input.take(i + 1).drop_last() =~= input.take(i));
            assert(input.skip(i + 1) =~= input.skip(i).drop_first());
            i = i + 1;
        }
        assert(items_view(items@) =~= input.skip(i));
        insert_sorted(o, &mut out, x);
    }
    assert(input.take(i) =~= input);
    out
}


/// The comparison of optional names is a total order with equality as its ties.
pub proof fn lemma_cmp_opt_laws(x: Option<Seq<char>>, y: Option<Seq<char>>, z: Option<Seq<char>>)
    ensures
        cmp_opt_chars(x, y) == -cmp_opt_chars(y, x),
        (cmp_opt_chars(x, y) == 0) <==> (x == y),
        cmp_opt_chars(x, y) <= 0 && cmp_opt_chars(y, z) <= 0 ==> cmp_opt_chars(x, z) <= 0,
        cmp_opt_chars(x, y) <= 0 && cmp_opt_chars(y, z) <= 0 && (cmp_opt_chars(x, y) < 0 || cmp_opt_chars(y, z) < 0)
            ==> cmp_opt_chars(x, z) < 0,
{
    match (x, y) {
        (Some(a), Some(b)) => {
            lemma_cmp_chars_antisym(a, b);
            lemma_cmp_chars_zero_iff(a, b);
        },
        _ => {},
    }
    match (x, y, z) {
        (Some(a), Some(b), Some(c)) => {
            if cmp_chars(a, b) <= 0 && cmp_chars(b, c) <= 0 {
                lemma_cmp_chars_trans(a, b, c);
            }
        },
        _ => {},
    }
}

/// Adjacent items are in component order.
pub open spec fn sorted_by_component(s: Seq<(MetricView, bool)>) -> bool {
    forall|i: int| 0 <= i < s.len() - 1 ==> cmp_metrics(MetricOrder::Component, #[trigger] s[i].0, s[i + 1].0) <= 0
}

proof fn lemma_insert_sorted(s: Seq<(MetricView, bool)>, x: (MetricView, bool))
    requires
        sorted_by_component(s),
    ensures
        sorted_by_component(insert_spec(MetricOrder::Component, s, x)),
        insert_spec(MetricOrder::Component, s, x).len() == s.len() + 1,
        insert_spec(MetricOrder::Component, s, x)[0] == x || (s.len() > 0
            && insert_spec(MetricOrder::Component, s, x)[0] == s[0]),
    decreases s.len(),
{
    let o = MetricOrder::Component;
    let r = insert_spec(o, s, x);
    if s.len() == 0 {
        assert(r =~= seq![x]);
    } else if metric_lt(o, x.0, s[0].0) {
        assert(r =~= seq![x] + s);
        assert forall|i: int| 0 <= i < r.len() - 1 implies cmp_metrics(o, #[trigger] r[i].0, r[i + 1].0) <= 0 by {
            if i > 0 {
                assert(r[i] == s[i - 1] && r[i + 1] == s[i]);
            }
        }
    } else {
        let t = s.drop_first();
        assert forall|i: int| 0 <= i < t.len() - 1 implies cmp_metrics(o, #[trigger] t[i].0, t[i + 1].0) <= 0 by {
            assert(t[i] == s[i + 1] && t[i + 1] == s[i + 2]);
        }
        lemma_insert_sorted(t, x);
        let u = insert_spec(o, t, x);
        assert(r =~= seq![s[0]] + u);
        lemma_cmp_opt_laws(
            tag_value_spec(x.0.tags, component_key()),
            tag_value_spec(s[0].0.tags, component_key()),
            tag_value_spec(x.0.tags, component_key()),
        );
        if t.len() > 0 {
            assert(s[1] == t[0]);
        }
        assert forall|i: int| 0 <= i < r.len() - 1 implies cmp_metrics(o, #[trigger] r[i].0, r[i + 1].0) <= 0 by {
            if i > 0 {
                assert(r[i] == u[i - 1] && r[i + 1] == u[i]);
            } else {
                assert(r[1] == u[0]);
            }
        }
    }
}

/// Sorting by component leaves adjacent items in component order.
pub proof fn lemma_sort_sorted(s: Seq<(MetricView, bool)>)
    ensures
        sorted_by_component(sort_spec(MetricOrder::Component, s)),
        sort_spec(MetricOrder::Component, s).len() == s.len(),
    decreases s.len(),
{
    if s.len() > 0 {
        lemma_sort_sorted(s.drop_last());
        lemma_insert_sorted(sort_spec(MetricOrder::Component, s.drop_last()), s.last());
    }
}

} // verus!
