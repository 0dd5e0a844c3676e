use vstd::prelude::*;
use crate::ids::{new_uuid, uuid_string, uuid_text};
use crate::metric::{Event, LogEvent};
use crate::text::str_eq;

verus! {

/// Whether a requested input currently resolves to a live component.
#[derive(Clone, Copy, Debug, PartialEq, Eq, Structural)]
pub enum TapNotification {
    ComponentMatched,
    ComponentNotMatched,
}

/// What a tap hands its subscriber, tagged by input name.
#[derive(Clone, Debug, PartialEq, Eq)]
pub enum TapResult {
    LogEvent(String, LogEvent),
    Notification(String, TapNotification),
}

/// `r` is the notification `n` for the input `name`.
pub open spec fn is_notification(r: TapResult, name: Seq<char>, n: TapNotification) -> bool {
    match r {
        TapResult::Notification(s, k) => s@ == name && k == n,
        TapResult::LogEvent(..) => false,
    }
}

impl TapResult {
    pub fn component_matched(input_name: &str) -> (r: Self)
        ensures
            is_notification(r, input_name@, TapNotification::ComponentMatched),
    {
        TapResult::Notification(input_name.to_owned(), TapNotification::ComponentMatched)
    }

    pub fn component_not_matched(input_name: &str) -> (r: Self)
        ensures
            is_notification(r, input_name@, TapNotification::ComponentNotMatched),
    {
        TapResult::Notification(input_name.to_owned(), TapNotification::ComponentNotMatched)
    }
}

/// What the forwarding of one input makes of an event that reaches it: a log event is
/// passed on, tagged with the input's name; anything else is dropped.
pub fn tap_event(input_name: &str, ev: Event) -> (r: Option<TapResult>)
    ensures
        match ev {
            Event::Log(l) => match r {
                Some(TapResult::LogEvent(n, e)) => n@ == input_name@ && e == l,
                _ => false,
            },
            Event::Metric(_) => r is None,
        },
{
    match ev {
        Event::Log(l) => Some(TapResult::LogEvent(input_name.to_owned(), l)),
        Event::Metric(_) => None,
    }
}

pub struct TapSinkView {
    pub id: u128,
    pub inputs: Seq<(Seq<char>, u128)>,
}

/// The identifier of the input `name`, if it is one.
pub open spec fn input_id_spec(inputs: Seq<(Seq<char>, u128)>, name: Seq<char>) -> Option<u128>
    decreases inputs.len(),
{
    if inputs.len() == 0 {
        None
    } else if inputs[0].0 == name {
        Some(inputs[0].1)
    } else {
        input_id_spec(inputs.drop_first(), name)
    }
}

pub open spec fn names_unique(inputs: Seq<(Seq<char>, u128)>) -> bool {
    forall|i: int, j: int| 0 <= i < j < inputs.len() ==> inputs[i].0 != inputs[j].0
}

/// Whether `n` is one of the first `k` of `names`.
pub open spec fn is_named(names: Seq<String>, n: Seq<char>, k: int) -> bool {
    exists|i: int| 0 <= i < k && #[trigger] names[i]@ == n
}

pub open spec fn has_input(inputs: Seq<(Seq<char>, u128)>, name: Seq<char>) -> bool {
    exists|i: int| 0 <= i < inputs.len() && #[trigger] inputs[i].0 == name
}

proof fn lemma_input_id_none(inputs: Seq<(Seq<char>, u128)>, name: Seq<char>)
    ensures
        (input_id_spec(inputs, name) is None) <==> !has_input(inputs, name),
    decreases inputs.len(),
{
    if inputs.len() > 0 {
        lemma_input_id_none(inputs.drop_first(), name);
        if has_input(inputs, name) && inputs[0].0 != name {
            let i = choose|i: int| 0 <= i < inputs.len() && #[trigger] inputs[i].0 == name;
            assert(inputs.drop_first()[i - 1].0 == name);
        }
        if has_input(inputs.drop_first(), name) {
            let i = choose|i: int|
                0 <= i < inputs.drop_first().len() && #[trigger] inputs.drop_first()[i].0 == name;
            assert(inputs[i + 1].0 == name);
        }
    }
}

/// A set of pipeline inputs to observe, each with its own identifier, under one sink
/// identifier. Two sinks are the same sink when their identifiers agree.
pub struct TapSink {
    id: u128,
    inputs: Vec<(String, u128)>,
}

pub open spec fn table_view(t: Seq<(String, u128)>) -> Seq<(Seq<char>, u128)> {
    t.map_values(|e: (String, u128)| (e.0@, e.1))
}

/// `e` is one of the first `k` pairs of `given`, and no later one of them names `e`'s name.
pub open spec fn is_last_given(given: Seq<(Seq<char>, u128)>, e: (Seq<char>, u128), k: int) -> bool {
    exists|i: int|
        0 <= i < k && given[i] == e && forall|i2: int| i < i2 < k ==> #[trigger] given[i2].0 != e.0
}

/// The position of the first entry named `name`, or the table's length.
fn find_in(table: &Vec<(String, u128)>, name: &str) -> (r: usize)
    ensures
        r <= table@.len(),
        forall|i: int| 0 <= i < r ==> #[trigger] table_view(table@)[i].0 != name@,
        r < table@.len() ==> table_view(table@)[r as int].0 == name@,
{
    let mut i: usize = 0;
    while i < table.len()
        invariant
            i <= table@.len(),
            forall|j: int| 0 <= j < i ==> #[trigger] table_view(table@)[j].0 != name@,
        decreases table@.len() - i,
    {
        if str_eq(table[i].0.as_str(), name) {
            return i;
        }
        i = i + 1;
    }
    i
}

impl TapSink {
    /// The input names are unique.
    #[verifier::type_invariant]
    spec fn wf(&self) -> bool {
        names_unique(table_view(self.inputs@))
    }
}

impl View for TapSink {
    type V = TapSinkView;

    closed spec fn view(&self) -> TapSinkView {
        TapSinkView { id: self.id, inputs: table_view(self.inputs@) }
    }
}

impl TapSink {
    /// A sink over `input_names` under a fresh identifier, each name given a fresh
    /// identifier of its own; a name given twice keeps one entry.
    pub fn new(input_names: &Vec<String>) -> (r: TapSink)
        ensures
            names_unique(r@.inputs),
            forall|i: int| 0 <= i < input_names@.len() ==> has_input(r@.inputs, #[trigger] input_names@[i]@),
            forall|j: int| 0 <= j < r@.inputs.len() ==> is_named(input_names@, #[trigger] r@.inputs[j].0, input_names@.len() as int),
    {
        let id = new_uuid();
        let mut given: Vec<(String, u128)> = Vec::new();
        let mut k: usize = 0;
        while k < input_names.len()
            invariant
                k <= input_names@.len(),
                given@.len() == k,
                forall|j: int| 0 <= j < k ==> (#[trigger] given@[j]).0@ == input_names@[j]@,
            decreases input_names@.len() - k,
        {
            given.push((input_names[k].clone(), new_uuid()));
            k = k + 1;
        }
        let r = TapSink::from_parts(id, given);
        proof {
            let g = table_view(given@);
            assert forall|i: int| 0 <= i < input_names@.len() implies has_input(r@.inputs, #[trigger] input_names@[i]@) by {
                assert(g[i].0 == input_names@[i]@);
            }
            assert forall|j: int| 0 <= j < r@.inputs.len() implies is_named(input_names@, #[trigger] r@.inputs[j].0, input_names@.len() as int) by {
                let e = r@.inputs[j];
                assert(is_last_given(g, e, g.len() as int));
                let i = choose|i: int| 0 <= i < g.len() && g[i] == e && forall|i2: int| i < i2 < g.len() ==> #[trigger] g[i2].0 != e.0;
                assert(input_names@[i]@ == e.0);
            }
        }
        r
    }

    /// A sink with identifier `id` over the (name, identifier) pairs `given`, kept as a map
    /// keeps them: one entry per name, holding the identifier given last for it.
    pub fn from_parts(id: u128, given: Vec<(String, u128)>) -> (r: TapSink)
        ensures
            r@.id == id,
            names_unique(r@.inputs),
            forall|i: int| 0 <= i < given@.len() ==> has_input(r@.inputs, (#[trigger] given@[i]).0@),
            forall|j: int| 0 <= j < r@.inputs.len() ==> is_last_given(table_view(given@), #[trigger] r@.inputs[j], given@.len() as int),
    {
        let ghost g = table_view(given@);
        let mut table: Vec<(String, u128)> = Vec::new();
        let mut k: usize = 0;
        while k < given.len()
            invariant
                k <= given@.len(),
                g == table_view(given@),
                names_unique(table_view(table@)),
                forall|i: int| 0 <= i < k ==> has_input(table_view(table@), #[trigger] g[i].0),
                forall|j: int| 0 <= j < table@.len() ==> is_last_given(g, #[trigger] table_view(table@)[j], k as int),
            decreases given@.len() - k,
        {
            let name = given[k].0.clone();
            let nid = given[k].1;
            let p = find_in(&table, name.as_str());
            let ghost before = table_view(table@);
            let ghost nv = name@;
            assert(g[k as int] == (nv, nid));
            if p < table.len() {
                table.set(p, (name, nid));
                assert(table_view(table@) =~= before.update(p as int, (nv, nid)));
            } else {
                table.push((name, nid));
                assert(table_view(table@) =~= before.push((nv, nid)));
            }
            let ghost after = table_view(table@);
            assert forall|i: int| 0 <= i < k + 1 implies has_input(after, #[trigger] g[i].0) by {
                if i < k {
                    let q = choose|q: int| 0 <= q < before.len() && #[trigger] before[q].0 == g[i].0;
                    assert(after[q].0 == g[i].0);
                } else {
                    let q: int = p as int;
                    assert(after[q].0 == g[i].0);
                }
            }
            assert forall|j: int| 0 <= j < after.len() implies is_last_given(g, #[trigger] after[j], k + 1) by {
                if j < before.len() && j != p {
                    assert(after[j] == before[j]);
                    assert(before[j].0 != nv);
                    assert(is_last_given(g, before[j], k as int));
                    let i = choose|i: int| 0 <= i < k && g[i] == before[j] && forall|i2: int| i < i2 < k ==> #[trigger] g[i2].0 != before[j].0;
                    assert forall|i2: int| i < i2 < k + 1 implies #[trigger] g[i2].0 != after[j].0 by {
                        if i2 == k {
                            assert(g[i2].0 == nv);
                        }
                    }
                } else {
                    assert(after[j] == (nv, nid));
                    assert(g[k as int] == after[j]);
                    assert forall|i2: int| k < i2 < k + 1 implies #[trigger] g[i2].0 != after[j].0 by {}
                }
            }
            k = k + 1;
        }
        assert forall|i: int| 0 <= i < given@.len() implies has_input(table_view(table@), (#[trigger] given@[i]).0@) by {
            assert(g[i].0 == given@[i].0@);
        }
        TapSink { id, inputs: table }
    }

    fn find(&self, name: &str) -> (r: usize)
        ensures
            r <= self@.inputs.len(),
            forall|i: int| 0 <= i < r ==> #[trigger] self@.inputs[i].0 != name@,
            r < self@.inputs.len() ==> self@.inputs[r as int].0 == name@,
    {
        let mut i: usize = 0;
        while i < self.inputs.len()
            invariant
                i <= self.inputs@.len(),
                self@.inputs.len() == self.inputs@.len(),
                forall|j: int| 0 <= j < i ==> #[trigger] self@.inputs[j].0 != name@,
            decreases self.inputs@.len() - i,
        {
            if str_eq(self.inputs[i].0.as_str(), name) {
                return i;
            }
            i = i + 1;
        }
        i
    }

    proof fn lemma_find(&self, name: Seq<char>, p: int)
        requires
            0 <= p <= self@.inputs.len(),
            forall|i: int| 0 <= i < p ==> #[trigger] self@.inputs[i].0 != name,
            p < self@.inputs.len() ==> self@.inputs[p].0 == name,
        ensures
            input_id_spec(self@.inputs, name) == if p < self@.inputs.len() {
                Some(self@.inputs[p].1)
            } else {
                None::<u128>
            },
    {
        let s = self@.inputs;
        lemma_input_id_none(s, name);
        if p < s.len() {
            lemma_input_id_at(s, name, p);
        } else {
            assert(!has_input(s, name));
        }
    }

    pub fn id(&self) -> (r: u128)
        ensures
            r == self@.id,
    {
        self.id
    }

    /// The names of the inputs, in the order of the table.
    pub fn input_names(&self) -> (r: Vec<String>)
        ensures
            r@.len() == self@.inputs.len(),
            forall|i: int| 0 <= i < r@.len() ==> #[trigger] r@[i]@ == self@.inputs[i].0,
            forall|i: int, j: int| 0 <= i < j < r@.len() ==> r@[i]@ != r@[j]@,
    {
        proof {
            use_type_invariant(self);
        }
        let mut r: Vec<String> = Vec::new();
        let mut i: usize = 0;
        while i < self.inputs.len()
            invariant
                i <= self.inputs@.len(),
                self@.inputs.len() == self.inputs@.len(),
                r@.len() == i,
                forall|j: int| 0 <= j < i ==> #[trigger] r@[j]@ == self@.inputs[j].0,
            decreases self.inputs@.len() - i,
        {
            r.push(self.inputs[i].0.clone());
            i = i + 1;
        }
        r
    }

    /// The input table: each input's name with its identifier.
    pub fn inputs(&self) -> (r: Vec<(String, u128)>)
        ensures
            r@.len() == self@.inputs.len(),
            forall|i: int| 0 <= i < r@.len() ==> (#[trigger] r@[i]).0@ == self@.inputs[i].0 && r@[i].1
                == self@.inputs[i].1,
    {
        let mut r: Vec<(String, u128)> = Vec::new();
        let mut i: usize = 0;
        while i < self.inputs.len()
            invariant
                i <= self.inputs@.len(),
                self@.inputs.len() == self.inputs@.len(),
                r@.len() == i,
                forall|j: int| 0 <= j < i ==> (#[trigger] r@[j]).0@ == self@.inputs[j].0 && r@[j].1
                    == self@.inputs[j].1,
            decreases self.inputs@.len() - i,
        {
            r.push((self.inputs[i].0.clone(), self.inputs[i].1));
            i = i + 1;
        }
        r
    }

    /// The routing key under which the topology registers the input `input_name`: the
    /// text of its identifier; `None` where it is not an input of this sink.
    pub fn make_output(&self, input_name: &str) -> (r: Option<String>)
        ensures
            match input_id_spec(self@.inputs, input_name@) {
                Some(id) => r is Some && r->0@ == uuid_text(id),
                None => r is None,
            },
    {
        let p = self.find(input_name);
        proof {
            self.lemma_find(input_name@, p as int);
        }
        if p < self.inputs.len() {
            Some(uuid_string(self.inputs[p].1))
        } else {
            None
        }
    }

    /// The notification that `input_name` matched a component, for one of this sink's
    /// inputs; `None` for any other name.
    pub fn component_matched(&self, input_name: &str) -> (r: Option<TapResult>)
        ensures
            has_input(self@.inputs, input_name@) ==> r is Some && is_notification(
                r->0,
                input_name@,
                TapNotification::ComponentMatched,
            ),
            !has_input(self@.inputs, input_name@) ==> r is None,
    {
        let p = self.find(input_name);
        proof {
            self.lemma_find(input_name@, p as int);
            lemma_input_id_none(self@.inputs, input_name@);
        }
        if p < self.inputs.len() {
            Some(TapResult::component_matched(input_name))
        } else {
            None
        }
    }

    /// The notification that `input_name` matched no component, for one of this sink's
    /// inputs; `None` for any other name.
    pub fn component_not_matched(&self, input_name: &str) -> (r: Option<TapResult>)
        ensures
            has_input(self@.inputs, input_name@) ==> r is Some && is_notification(
                r->0,
                input_name@,
                TapNotification::ComponentNotMatched,
            ),
            !has_input(self@.inputs, input_name@) ==> r is None,
    {
        let p = self.find(input_name);
        proof {
            self.lemma_find(input_name@, p as int);
            lemma_input_id_none(self@.inputs, input_name@);
        }
        if p < self.inputs.len() {
            Some(TapResult::component_not_matched(input_name))
        } else {
            None
        }
    }

    /// Whether two sinks are the same sink.
    pub fn same_sink(&self, other: &TapSink) -> (r: bool)
        ensures
            r == (self@.id == other@.id),
    {
        self.id == other.id
    }
}

proof fn lemma_input_id_at(s: Seq<(Seq<char>, u128)>, name: Seq<char>, p: int)
    requires
        0 <= p < s.len(),
        forall|i: int| 0 <= i < p ==> #[trigger] s[i].0 != name,
        s[p].0 == name,
    ensures
        input_id_spec(s, name) == Some(s[p].1),
    decreases p,
{
    if p > 0 {
        let t = s.drop_first();
        assert forall|i: int| 0 <= i < p - 1 implies #[trigger] t[i].0 != name by {
            assert(t[i] == s[i + 1]);
        }
        lemma_input_id_at(t, name, p - 1);
    }
}

/// A message to the running topology about a tap sink, by the sink's identifier.
#[derive(Clone, Copy, Debug, PartialEq, Eq, Structural)]
pub enum TapControl {
    Start(u128),
    Stop(u128),
}

pub struct TapControllerView {
    pub sink: TapSinkView,
    pub active: bool,
}

/// A controller just made over a sink, and the message that registers the sink.
pub open spec fn controller_new_spec(s: TapSinkView) -> (TapControllerView, TapControl) {
    (TapControllerView { sink: s, active: true }, TapControl::Start(s.id))
}

/// A controller after it is stopped, and the message that unregisters its sink, the first
/// time only.
pub open spec fn controller_stop_spec(c: TapControllerView) -> (TapControllerView, Option<TapControl>) {
    (
        TapControllerView { sink: c.sink, active: false },
        if c.active {
            Some(TapControl::Stop(c.sink.id))
        } else {
            None
        },
    )
}

/// Owns a registered tap sink: made with the message that starts the sink, and stopped
/// once, with the message that stops the same sink. A stopped controller passes nothing on.
pub struct TapController {
    sink: TapSink,
    active: bool,
}

impl View for TapController {
    type V = TapControllerView;

    closed spec fn view(&self) -> TapControllerView {
        TapControllerView { sink: self.sink@, active: self.active }
    }
}

impl TapController {
    /// Takes over `sink` and returns the message that registers it with the topology.
    pub fn new(sink: TapSink) -> (r: (TapController, TapControl))
        ensures
            (r.0@, r.1) == controller_new_spec(sink@),
    {
        let id = sink.id;
        (TapController { sink, active: true }, TapControl::Start(id))
    }

    pub fn sink(&self) -> (r: &TapSink)
        ensures
            r@ == self@.sink,
    {
        &self.sink
    }

    pub fn is_active(&self) -> (r: bool)
        ensures
            r == self@.active,
    {
        self.active
    }

    /// Stops the controller; the message that unregisters the sink comes the first time.
    pub fn stop(&mut self) -> (r: Option<TapControl>)
        ensures
            (final(self)@, r) == controller_stop_spec(old(self)@),
    {
        if self.active {
            self.active = false;
            Some(TapControl::Stop(self.sink.id))
        } else {
            None
        }
    }

    /// What the forwarding of `input_name` passes on for `ev` while the controller is
    /// active; nothing once it is stopped.
    pub fn forward(&self, input_name: &str, ev: Event) -> (r: Option<TapResult>)
        ensures
            !self@.active ==> r is None,
            self@.active ==> match ev {
                Event::Log(l) => match r {
                    Some(TapResult::LogEvent(n, e)) => n@ == input_name@ && e == l,
                    _ => false,
                },
                Event::Metric(_) => r is None,
            },
    {
        if self.active {
            tap_event(input_name, ev)
        } else {
            None
        }
    }

    /// The matched notification for `input_name` while active and an input of the sink.
    pub fn component_matched(&self, input_name: &str) -> (r: Option<TapResult>)
        ensures
            self@.active && has_input(self@.sink.inputs, input_name@) ==> r is Some
                && is_notification(r->0, input_name@, TapNotification::ComponentMatched),
            !(self@.active && has_input(self@.sink.inputs, input_name@)) ==> r is None,
    {
        if self.active {
            self.sink.component_matched(input_name)
        } else {
            None
        }
    }

    /// The not-matched notification for `input_name` while active and an input of the sink.
    pub fn component_not_matched(&self, input_name: &str) -> (r: Option<TapResult>)
        ensures
            self@.active && has_input(self@.sink.inputs, input_name@) ==> r is Some
                && is_notification(r->0, input_name@, TapNotification::ComponentNotMatched),
            !(self@.active && has_input(self@.sink.inputs, input_name@)) ==> r is None,
    {
        if self.active {
            self.sink.component_not_matched(input_name)
        } else {
            None
        }
    }
}

/// A controller issues exactly one stop message, for the sink it started, and is inactive
/// from then on, however often it is stopped.
pub proof fn lemma_controller_stops_once(s: TapSinkView)
    ensures
        ({
            let (c1, start) = controller_new_spec(s);
            let (c2, first) = controller_stop_spec(c1);
            let (c3, second) = controller_stop_spec(c2);
            &&& start == TapControl::Start(s.id)
            &&& first == Some(TapControl::Stop(s.id))
            &&& second is None
            &&& !c2.active
            &&& !c3.active
            &&& c3.sink == s
        }),
{
}

} // verus!
