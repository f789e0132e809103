//! The events that share a correlation key: the surroundings of a trigger.

use vstd::prelude::*;
use vstd::string::StringExecFns;
use vstd::multiset::Multiset;

use crate::errors::{LaikaError, LaikaResult};
use crate::event::{Event, Trigger, trigger_jsonv};
use crate::json::{Json, JsonV, JsonEntry, entries_view, items_view};
use crate::numtext::{i64_to_string, int_text, nat_text, u64_to_string};

verus! {

broadcast use
    vstd::std_specs::vec::group_vec_axioms,
    vstd::seq::group_seq_axioms,
    vstd::seq_lib::group_seq_lib_default,
    vstd::seq_lib::group_to_multiset_ensures,
    vstd::multiset::group_multiset_axioms,
    vstd::seq_lib::to_multiset_insert;

/// Non-decreasing by arrival instant.
pub open spec fn sorted_by_received(s: Seq<Event>) -> bool {
    forall|i: int, j: int|
        0 <= i < j < s.len() ==> s[i].spec_received() <= s[j].spec_received()
}

/// Whether any event of the group lacks a correlation key.
pub open spec fn has_non_correlated(s: Seq<Event>) -> bool {
    exists|i: int| 0 <= i < s.len() && s[i] is NonCorrelated
}

/// A group may hold a non-correlated event only alone.
pub open spec fn group_valid(s: Seq<Event>) -> bool {
    s.len() <= 1 || !has_non_correlated(s)
}

/// The events of `s` received at instant `t`, in order.
pub open spec fn filter_received(s: Seq<Event>, t: i64) -> Seq<Event>
    decreases s.len(),
{
    if s.len() == 0 {
        Seq::empty()
    } else if s[0].spec_received() == t {
        seq![s[0]] + filter_received(s.drop_first(), t)
    } else {
        filter_received(s.drop_first(), t)
    }
}

/// Inserting after every element of the same instant appends to that
/// instant's subsequence and leaves the others alone.
proof fn lemma_filter_insert(s: Seq<Event>, p: int, e: Event, t: i64)
    requires
        0 <= p <= s.len(),
        forall|k: int| p <= k < s.len() ==> (#[trigger] s[k]).spec_received() > e.spec_received(),
    ensures
        filter_received(s.insert(p, e), t) == (if t == e.spec_received() {
            filter_received(s, t).push(e)
        } else {
            filter_received(s, t)
        }),
    decreases s.len(),
{
    let ins = s.insert(p, e);
    if p == 0 {
        assert(ins[0] == e);
        assert(ins.drop_first() =~= s);
        if t == e.spec_received() {
            assert forall|k: int| 0 <= k < s.len() implies (#[trigger] s[k]).spec_received()
                != t by {}
            lemma_filter_empty(s, t);
            assert(filter_received(ins, t) =~= filter_received(s, t).push(e));
        }
    } else {
        assert(ins[0] == s[0]);
        assert(ins.drop_first() =~= s.drop_first().insert(p - 1, e));
        let tail = s.drop_first();
        assert forall|k: int| p - 1 <= k < tail.len() implies (#[trigger] tail[k]).spec_received()
            > e.spec_received() by {
            assert(tail[k] == s[k + 1]);
        }
        lemma_filter_insert(s.drop_first(), p - 1, e, t);
        if s[0].spec_received() == t {
            if t == e.spec_received() {
                assert(filter_received(ins, t) =~= filter_received(s, t).push(e));
            } else {
                assert(filter_received(ins, t) =~= filter_received(s, t));
            }
        }
    }
}

/// A sequence whose elements all miss the instant filters to nothing.
proof fn lemma_filter_empty(s: Seq<Event>, t: i64)
    requires
        forall|k: int| 0 <= k < s.len() ==> (#[trigger] s[k]).spec_received() != t,
    ensures
        filter_received(s, t) == Seq::<Event>::empty(),
    decreases s.len(),
{
    if s.len() > 0 {
        let tail = s.drop_first();
        assert forall|k: int| 0 <= k < tail.len() implies (#[trigger] tail[k]).spec_received()
            != t by {
            assert(tail[k] == s[k + 1]);
        }
        lemma_filter_empty(s.drop_first(), t);
    }
}

/// The ordered events sharing one correlation key, *not* including the
/// trigger under evaluation.
#[derive(Debug)]
pub struct EventContext {
    pub sequence: Vec<Event>,
}

impl EventContext {
    /// The context is ordered by arrival and holds a non-correlated
    /// event only alone.
    pub open spec fn wf(&self) -> bool {
        sorted_by_received(self.sequence@) && group_valid(self.sequence@)
    }

    /// Build a context from a group of events: the group is ordered by
    /// arrival instant as a stable sort — each instant's events keep
    /// their input order — and rejected when a non-correlated event
    /// would share it with another event.
    #[verifier::loop_isolation(false)]
    pub fn try_from(value: Vec<Event>) -> (r: LaikaResult<EventContext>)
        ensures
            match r {
                Ok(ctx) => {
                    &&& ctx.wf()
                    &&& ctx.sequence@.to_multiset() == value@.to_multiset()
                    &&& forall|t: i64|
                        #[trigger] filter_received(ctx.sequence@, t) == filter_received(value@, t)
                    &&& group_valid(value@)
                },
                Err(e) => e == LaikaError::InvalidEventGroup && !group_valid(value@),
            },
    {
        let ghost orig = value@;
        if value.len() > 1 {
            let mut i: usize = 0;
            while i < value.len()
                invariant
                    i <= value@.len(),
                    orig == value@,
                    value@.len() > 1,
                    forall|k: int| 0 <= k < i ==> !(value@[k] is NonCorrelated),
                decreases value@.len() - i,
            {
                match &value[i] {
                    Event::NonCorrelated(_) => {
                        proof {
                            assert(value@[i as int] is NonCorrelated);
                            assert(has_non_correlated(value@));
                            assert(!group_valid(value@));
                        }
                        return Err(LaikaError::InvalidEventGroup);
                    }
                    _ => {}
                }
                i = i + 1;
            }
        }
        proof {
            assert(orig.len() > 1 ==> forall|k: int| 0 <= k < orig.len() ==> !(orig[k]
                is NonCorrelated));
            assert(group_valid(orig));
        }
        let mut rest = value;
        let mut sorted: Vec<Event> = Vec::new();
        let ghost all = rest@.to_multiset();
        proof {
            assert(sorted@.to_multiset().add(rest@.to_multiset()) =~= all);
        }
        while rest.len() > 0
            invariant
                sorted_by_received(sorted@),
                sorted@.to_multiset().add(rest@.to_multiset()) == all,
                forall|t: i64|
                    #[trigger] filter_received(orig, t) == filter_received(sorted@, t)
                        + filter_received(rest@, t),
            decreases rest@.len(),
        {
            let ghost pre = rest@;
            let e = rest.remove(0);
            let received: i64 = e.received();
            let mut p: usize = sorted.len();
            while p > 0 && sorted[p - 1].received() > received
                invariant
                    p <= sorted@.len(),
                    forall|k: int| p <= k < sorted@.len() ==> sorted@[k].spec_received() > received,
                decreases p,
            {
                p = p - 1;
            }
            proof {
                assert(e == pre[0]);
                assert(rest@ =~= pre.remove(0));
                assert(pre.remove(0).to_multiset() =~= pre.to_multiset().remove(pre[0]));
                assert(pre.contains(pre[0]));
                assert(pre.to_multiset().count(pre[0]) > 0);
                assert(pre.to_multiset() =~= rest@.to_multiset().insert(e));
                assert(sorted@.insert(p as int, e).to_multiset() == sorted@.to_multiset().insert(
                    e,
                ));
                assert(sorted@.to_multiset().insert(e).add(rest@.to_multiset()) =~= sorted@
                    .to_multiset().add(pre.to_multiset()));
                assert forall|a: int, b: int|
                    0 <= a < b < sorted@.insert(p as int, e).len() implies sorted@.insert(
                    p as int,
                    e,
                )[a].spec_received() <= sorted@.insert(p as int, e)[b].spec_received() by {
                    sorted@.insert_ensures(p as int, e);
                }
                assert(pre.drop_first() =~= rest@);
                assert forall|t: i64|
                    #[trigger] filter_received(orig, t) == filter_received(
                    sorted@.insert(p as int, e),
                    t,
                ) + filter_received(rest@, t) by {
                    lemma_filter_insert(sorted@, p as int, e, t);
                    if t == e.spec_received() {
                        assert(filter_received(pre, t) =~= seq![e] + filter_received(rest@, t));
                        assert(filter_received(sorted@, t).push(e) + filter_received(rest@, t)
                            =~= filter_received(sorted@, t) + (seq![e] + filter_received(
                            rest@,
                            t,
                        )));
                    } else {
                        assert(filter_received(pre, t) =~= filter_received(rest@, t));
                    }
                }
            }
            sorted.insert(p, e);
        }
        proof {
            assert(rest@.to_multiset() =~= Multiset::<Event>::empty());
            assert(sorted@.to_multiset().add(Multiset::<Event>::empty()) =~= sorted@.to_multiset());
            assert(sorted@.to_multiset() =~= all);
            assert forall|t: i64| #[trigger] filter_received(sorted@, t) == filter_received(
                orig,
                t,
            ) by {
                assert(filter_received(rest@, t) =~= Seq::<Event>::empty());
                assert(filter_received(sorted@, t) + Seq::<Event>::empty() =~= filter_received(
                    sorted@,
                    t,
                ));
            }
            assert(sorted@.len() == all.len());
            assert(orig.len() == all.len());
            if sorted@.len() > 1 && has_non_correlated(sorted@) {
                let i = choose|i: int| 0 <= i < sorted@.len() && sorted@[i] is NonCorrelated;
                let w = sorted@[i];
                assert(sorted@.contains(w));
                assert(sorted@.to_multiset().count(w) > 0);
                assert(orig.to_multiset().count(w) > 0);
                assert(orig.contains(w));
                let k = choose|k: int| 0 <= k < orig.len() && orig[k] == w;
                assert(!(orig[k] is NonCorrelated));
                assert(false);
            }
        }
        Ok(EventContext { sequence: sorted })
    }

    /// The events of the context, in order.
    pub fn events(&self) -> (r: &Vec<Event>)
        ensures
            r@ == self.sequence@,
    {
        &self.sequence
    }

    /// Render the context as the document a predicate sees:
    /// `{sequence: [{type, data}, ...], events: {type: [event, ...], ...}}`.
    pub fn to_json(&self) -> (r: Json)
        ensures
            r@ == context_jsonv(self.sequence@),
    {
        let mut entries: Vec<JsonEntry> = Vec::new();
        entries.push(
            JsonEntry { key: "sequence".to_owned(), value: Json::Arr(sequence_json(&self.sequence)) },
        );
        entries.push(
            JsonEntry { key: "events".to_owned(), value: Json::Obj(events_map_json(&self.sequence)) },
        );
        let r = Json::Obj(entries);
        proof {
            assert(entries_view(entries@) =~~= context_jsonv(self.sequence@)->Obj_0);
            assert(r@ =~~= context_jsonv(self.sequence@));
        }
        r
    }
}

impl Clone for EventContext {
    /// A copy whose events have the same fields.
    fn clone(&self) -> (r: Self)
        ensures
            r.sequence@.len() == self.sequence@.len(),
            forall|i: int|
                0 <= i < self.sequence@.len() ==> event_same(#[trigger] r.sequence@[i], self.sequence@[i]),
    {
        let mut out: Vec<Event> = Vec::new();
        let mut i: usize = 0;
        while i < self.sequence.len()
            invariant
                i <= self.sequence@.len(),
                out@.len() == i,
                forall|k: int| 0 <= k < i ==> event_same(#[trigger] out@[k], self.sequence@[k]),
            decreases self.sequence@.len() - i,
        {
            out.push(self.sequence[i].clone());
            i = i + 1;
        }
        EventContext { sequence: out }
    }
}

/// The observable fields of the two events agree.
pub open spec fn event_same(a: Event, b: Event) -> bool {
    &&& a.spec_received() == b.spec_received()
    &&& a.spec_type() == b.spec_type()
    &&& a.spec_data() == b.spec_data()
    &&& a.spec_key() == b.spec_key()
    &&& (a is Correlated <==> b is Correlated)
}

/// The document that stands for one event inside the by-type index:
/// `{type, timestamp, data}`.
pub open spec fn event_jsonv(e: Event) -> JsonV {
    JsonV::Obj(
        seq![
            ("type"@, JsonV::Str(e.spec_type())),
            ("timestamp"@, JsonV::Num(int_text(e.spec_received() as int))),
            ("data"@, e.spec_data()),
        ],
    )
}

/// The document that stands for one event inside the sequence:
/// `{type, data}`.
pub open spec fn sequence_item_jsonv(e: Event) -> JsonV {
    JsonV::Obj(seq![("type"@, JsonV::Str(e.spec_type())), ("data"@, e.spec_data())])
}

/// The sequence part of a context document.
pub open spec fn sequence_jsonv(s: Seq<Event>) -> Seq<JsonV> {
    Seq::new(
        s.len(),
        |i: int|
            if 0 <= i < s.len() {
                sequence_item_jsonv(s[i])
            } else {
                JsonV::Null
            },
    )
}

/// The distinct event types of a group, in order of first appearance.
pub open spec fn distinct_types(s: Seq<Event>) -> Seq<Seq<char>>
    decreases s.len(),
{
    if s.len() == 0 {
        Seq::empty()
    } else {
        let rest = distinct_types(s.drop_last());
        if rest.contains(s.last().spec_type()) {
            rest
        } else {
            rest.push(s.last().spec_type())
        }
    }
}

/// The documents of the group's events of one type, in order.
pub open spec fn typed_events_jsonv(s: Seq<Event>, t: Seq<char>) -> Seq<JsonV>
    decreases s.len(),
{
    if s.len() == 0 {
        Seq::empty()
    } else {
        let rest = typed_events_jsonv(s.drop_last(), t);
        if s.last().spec_type() == t {
            rest.push(event_jsonv(s.last()))
        } else {
            rest
        }
    }
}

/// The by-type index of a context document: one entry per distinct type.
pub open spec fn events_map_jsonv(s: Seq<Event>) -> Seq<(Seq<char>, JsonV)> {
    Seq::new(
        distinct_types(s).len(),
        |j: int|
            if 0 <= j < distinct_types(s).len() {
                (distinct_types(s)[j], JsonV::Arr(typed_events_jsonv(s, distinct_types(s)[j])))
            } else {
                (Seq::empty(), JsonV::Null)
            },
    )
}

/// The per-type counters of the default extraction payload.
pub open spec fn meta_jsonv(s: Seq<Event>) -> Seq<(Seq<char>, JsonV)> {
    Seq::new(
        distinct_types(s).len(),
        |j: int|
            if 0 <= j < distinct_types(s).len() {
                (
                    distinct_types(s)[j] + "_count"@,
                    JsonV::Num(nat_text(typed_events_jsonv(s, distinct_types(s)[j]).len() as int)),
                )
            } else {
                (Seq::empty(), JsonV::Null)
            },
    )
}

/// The document a context shows to a predicate.
pub open spec fn context_jsonv(s: Seq<Event>) -> JsonV {
    JsonV::Obj(
        seq![
            ("sequence"@, JsonV::Arr(sequence_jsonv(s))),
            ("events"@, JsonV::Obj(events_map_jsonv(s))),
        ],
    )
}

/// The extraction payload of the default predicate:
/// `{trigger, events, meta}`.
pub open spec fn default_payload_jsonv(t: Trigger, s: Seq<Event>) -> JsonV {
    JsonV::Obj(
        seq![
            ("trigger"@, trigger_jsonv(t)),
            ("events"@, JsonV::Obj(events_map_jsonv(s))),
            ("meta"@, JsonV::Obj(meta_jsonv(s))),
        ],
    )
}

/// Render one event as it stands in the by-type index.
fn event_to_json(e: &Event) -> (r: Json)
    ensures
        r@ == event_jsonv(*e),
{
    let mut entries: Vec<JsonEntry> = Vec::new();
    let et = match e.event_type() {
        Some(t) => t,
        None => String::new(),
    };
    entries.push(JsonEntry { key: "type".to_owned(), value: Json::Str(et) });
    entries.push(
        JsonEntry { key: "timestamp".to_owned(), value: Json::Num(i64_to_string(e.received())) },
    );
    entries.push(JsonEntry { key: "data".to_owned(), value: e.get_data().duplicate() });
    let r = Json::Obj(entries);
    proof {
        assert(entries_view(entries@) =~~= event_jsonv(*e)->Obj_0);
        assert(r@ =~~= event_jsonv(*e));
    }
    r
}

/// Render one event as it stands in the sequence.
fn sequence_item_to_json(e: &Event) -> (r: Json)
    ensures
        r@ == sequence_item_jsonv(*e),
{
    let mut entries: Vec<JsonEntry> = Vec::new();
    let et = match e.event_type() {
        Some(t) => t,
        None => String::new(),
    };
    entries.push(JsonEntry { key: "type".to_owned(), value: Json::Str(et) });
    entries.push(JsonEntry { key: "data".to_owned(), value: e.get_data().duplicate() });
    let r = Json::Obj(entries);
    proof {
        assert(entries_view(entries@) =~~= sequence_item_jsonv(*e)->Obj_0);
        assert(r@ =~~= sequence_item_jsonv(*e));
    }
    r
}

/// Render the sequence part of a context document.
fn sequence_json(events: &Vec<Event>) -> (r: Vec<Json>)
    ensures
        items_view(r@) == sequence_jsonv(events@),
{
    let mut out: Vec<Json> = Vec::new();
    let mut i: usize = 0;
    while i < events.len()
        invariant
            i <= events@.len(),
            out@.len() == i,
            forall|k: int| 0 <= k < i ==> (#[trigger] out@[k])@ == sequence_item_jsonv(events@[k]),
        decreases events@.len() - i,
    {
        out.push(sequence_item_to_json(&events[i]));
        i = i + 1;
    }
    proof {
        assert(items_view(out@) =~~= sequence_jsonv(events@));
    }
    out
}

/// Whether a string stands among the given ones.
fn contains_string(v: &Vec<String>, s: &String) -> (r: bool)
    ensures
        r == Seq::new(v@.len(), |k: int| if 0 <= k < v@.len() { v@[k]@ } else { Seq::empty() }).contains(s@),
{
    let ghost views = Seq::new(
        v@.len(),
        |k: int|
            if 0 <= k < v@.len() {
                v@[k]@
            } else {
                Seq::empty()
            },
    );
    let mut i: usize = 0;
    while i < v.len()
        invariant
            i <= v@.len(),
            views == Seq::new(
                v@.len(),
                |k: int|
                    if 0 <= k < v@.len() {
                        v@[k]@
                    } else {
                        Seq::empty()
                    },
            ),
            forall|k: int| 0 <= k < i ==> views[k] != s@,
        decreases v@.len() - i,
    {
        if v[i] == *s {
            proof {
                assert(views[i as int] == s@);
            }
            return true;
        }
        i = i + 1;
    }
    false
}

/// The distinct event types of the group, in order of first appearance.
fn distinct_types_exec(events: &Vec<Event>) -> (r: Vec<String>)
    ensures
        r@.len() == distinct_types(events@).len(),
        forall|j: int| 0 <= j < r@.len() ==> (#[trigger] r@[j])@ == distinct_types(events@)[j],
{
    let mut seen: Vec<String> = Vec::new();
    let mut i: usize = 0;
    proof {
        assert(events@.subrange(0, 0) =~= Seq::<Event>::empty());
    }
    while i < events.len()
        invariant
            i <= events@.len(),
            seen@.len() == distinct_types(events@.subrange(0, i as int)).len(),
            forall|j: int|
                0 <= j < seen@.len() ==> (#[trigger] seen@[j])@ == distinct_types(
                    events@.subrange(0, i as int),
                )[j],
        decreases events@.len() - i,
    {
        let ghost prefix = events@.subrange(0, i as int);
        let ghost next_prefix = events@.subrange(0, i + 1);
        proof {
            assert(next_prefix.drop_last() =~= prefix);
            assert(next_prefix.last() == events@[i as int]);
        }
        let et = match events[i].event_type() {
            Some(t) => t,
            None => String::new(),
        };
        let present = contains_string(&seen, &et);
        proof {
            let views = Seq::new(
                seen@.len(),
                |k: int|
                    if 0 <= k < seen@.len() {
                        seen@[k]@
                    } else {
                        Seq::empty()
                    },
            );
            let dt = distinct_types(prefix);
            assert(views.len() == dt.len());
            assert forall|k: int| 0 <= k < views.len() implies views[k] == dt[k] by {}
            assert(views =~= dt);
            assert(present == dt.contains(et@));
        }
        if !present {
            seen.push(et);
        }
        i = i + 1;
    }
    proof {
        assert(events@.subrange(0, events@.len() as int) =~= events@);
    }
    seen
}

/// The rendered events of one type, in order.
fn typed_events_json(events: &Vec<Event>, t: &String) -> (r: Vec<Json>)
    ensures
        items_view(r@) == typed_events_jsonv(events@, t@),
{
    let mut out: Vec<Json> = Vec::new();
    let mut i: usize = 0;
    proof {
        assert(events@.subrange(0, 0) =~= Seq::<Event>::empty());
        assert(items_view(out@) =~= typed_events_jsonv(events@.subrange(0, 0), t@));
    }
    while i < events.len()
        invariant
            i <= events@.len(),
            items_view(out@) == typed_events_jsonv(events@.subrange(0, i as int), t@),
        decreases events@.len() - i,
    {
        let ghost prefix = events@.subrange(0, i as int);
        let ghost next_prefix = events@.subrange(0, i + 1);
        proof {
            assert(next_prefix.drop_last() =~= prefix);
            assert(next_prefix.last() == events@[i as int]);
        }
        let et = match events[i].event_type() {
            Some(x) => x,
            None => String::new(),
        };
        if et == *t {
            out.push(event_to_json(&events[i]));
        }
        i = i + 1;
        proof {
            assert(items_view(out@) =~= typed_events_jsonv(next_prefix, t@));
        }
    }
    proof {
        assert(events@.subrange(0, events@.len() as int) =~= events@);
    }
    out
}

/// The by-type index of the group, rendered.
pub fn events_map_json(events: &Vec<Event>) -> (r: Vec<JsonEntry>)
    ensures
        entries_view(r@) == events_map_jsonv(events@),
{
    let types = distinct_types_exec(events);
    let mut out: Vec<JsonEntry> = Vec::new();
    let mut j: usize = 0;
    while j < types.len()
        invariant
            j <= types@.len(),
            types@.len() == distinct_types(events@).len(),
            forall|k: int|
                0 <= k < types@.len() ==> (#[trigger] types@[k])@ == distinct_types(events@)[k],
            out@.len() == j,
            forall|k: int|
                0 <= k < j ==> entries_view(out@)[k] == events_map_jsonv(events@)[k],
        decreases types@.len() - j,
    {
        let arr = typed_events_json(events, &types[j]);
        out.push(JsonEntry { key: types[j].clone(), value: Json::Arr(arr) });
        j = j + 1;
    }
    proof {
        assert(entries_view(out@) =~~= events_map_jsonv(events@));
    }
    out
}

/// The per-type counters of the default extraction payload, rendered.
pub fn meta_json(events: &Vec<Event>) -> (r: Vec<JsonEntry>)
    ensures
        entries_view(r@) == meta_jsonv(events@),
{
    let types = distinct_types_exec(events);
    let mut out: Vec<JsonEntry> = Vec::new();
    let mut j: usize = 0;
    while j < types.len()
        invariant
            j <= types@.len(),
            types@.len() == distinct_types(events@).len(),
            forall|k: int|
                0 <= k < types@.len() ==> (#[trigger] types@[k])@ == distinct_types(events@)[k],
            out@.len() == j,
            forall|k: int|
                0 <= k < j ==> entries_view(out@)[k] == meta_jsonv(events@)[k],
        decreases types@.len() - j,
    {
        let arr = typed_events_json(events, &types[j]);
        let count: u64 = arr.len() as u64;
        let mut key = types[j].clone();
        key.append("_count");
        out.push(JsonEntry { key, value: Json::Num(u64_to_string(count)) });
        j = j + 1;
        proof {
            assert(entries_view(out@)[j - 1] == meta_jsonv(events@)[j - 1]);
        }
    }
    proof {
        assert(entries_view(out@) =~~= meta_jsonv(events@));
    }
    out
}

/// The extraction payload of the default predicate, rendered.
pub fn default_payload_json(trigger: &Trigger, events: &Vec<Event>) -> (r: Json)
    ensures
        r@ == default_payload_jsonv(*trigger, events@),
{
    let mut entries: Vec<JsonEntry> = Vec::new();
    entries.push(JsonEntry { key: "trigger".to_owned(), value: trigger.to_json() });
    entries.push(JsonEntry { key: "events".to_owned(), value: Json::Obj(events_map_json(events)) });
    entries.push(JsonEntry { key: "meta".to_owned(), value: Json::Obj(meta_json(events)) });
    let r = Json::Obj(entries);
    proof {
        assert(entries_view(entries@) =~~= default_payload_jsonv(*trigger, events@)->Obj_0);
        assert(r@ =~~= default_payload_jsonv(*trigger, events@));
    }
    r
}

} // verus!
