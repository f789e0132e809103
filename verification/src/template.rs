//! Payload templates: a structured document whose strings interpolate
//! `${{ path }}` references against an extraction payload.

pub mod values;

use vstd::prelude::*;

use crate::json::{Json, JsonV, JsonEntry, entries_view};
use crate::template::values::{
    ParseErrV, TValV, TemplateError, TemplateValue, lex_spec, parse_spec, render_leaf,
    render_values, tvals_view,
};

verus! {

broadcast use vstd::std_specs::vec::group_vec_axioms, vstd::seq::group_seq_axioms;

/// One `key: value` pair of a template object.
#[derive(Debug)]
pub struct TemplateEntry {
    pub key: Vec<TemplateValue>,
    pub value: TemplateNode,
}

/// A compiled template: a string of pieces, or an object of pairs.
#[derive(Debug)]
pub enum TemplateNode {
    Leaf(Vec<TemplateValue>),
    Branch(Vec<TemplateEntry>),
}

/// What a compiled template holds.
pub enum TNodeV {
    Leaf(Seq<TValV>),
    Branch(Seq<(Seq<TValV>, TNodeV)>),
}

/// What a template object's entries hold.
pub open spec fn tentries_view(s: Seq<TemplateEntry>) -> Seq<(Seq<TValV>, TNodeV)>
    decreases s,
{
    Seq::new(
        s.len(),
        |i: int|
            if 0 <= i < s.len() {
                (tvals_view(s[i].key@), s[i].value@)
            } else {
                (Seq::empty(), TNodeV::Leaf(Seq::empty()))
            },
    )
}

impl View for TemplateNode {
    type V = TNodeV;

    open spec fn view(&self) -> TNodeV
        decreases self,
    {
        match self {
            TemplateNode::Leaf(vals) => TNodeV::Leaf(tvals_view(vals@)),
            TemplateNode::Branch(entries) => TNodeV::Branch(tentries_view(entries@)),
        }
    }
}

/// What compiling a document into a template yields: a leaf for a
/// string, a branch for an object, an error otherwise.
pub open spec fn node_of_json(v: JsonV) -> Result<TNodeV, ParseErrV>
    decreases v, 1int,
{
    match v {
        JsonV::Str(s) => match parse_spec(lex_spec(s)) {
            Ok(vals) => Ok(TNodeV::Leaf(vals)),
            Err(e) => Err(e),
        },
        JsonV::Obj(entries) => match entries_of_json(entries) {
            Ok(es) => Ok(TNodeV::Branch(es)),
            Err(e) => Err(e),
        },
        _ => Err(ParseErrV::Unexpected(0)),
    }
}

/// Compile an object's entries: each key is a template string, each
/// value a nested template.
pub open spec fn entries_of_json(entries: Seq<(Seq<char>, JsonV)>) -> Result<
    Seq<(Seq<TValV>, TNodeV)>,
    ParseErrV,
>
    decreases entries, 0int,
{
    if entries.len() == 0 {
        Ok(Seq::empty())
    } else {
        match parse_spec(lex_spec(entries[0].0)) {
            Ok(kvals) => match node_of_json(entries[0].1) {
                Ok(n) => match entries_of_json(entries.drop_first()) {
                    Ok(rest) => Ok(seq![(kvals, n)] + rest),
                    Err(e) => Err(e),
                },
                Err(e) => Err(e),
            },
            Err(e) => Err(e),
        }
    }
}

/// A rendered template: a text, or an object whose keys rendered to
/// texts.
#[derive(Debug, PartialEq, Eq)]
pub enum RenderedTemplate {
    Leaf(String),
    Branch(Vec<RenderedEntry>),
}

/// One rendered `key: value` pair.
#[derive(Debug, PartialEq, Eq)]
pub struct RenderedEntry {
    pub key: String,
    pub value: RenderedTemplate,
}

/// What a rendered template holds.
pub enum RenderedV {
    Leaf(Seq<char>),
    Branch(Seq<(Seq<char>, RenderedV)>),
}

/// What rendered entries hold.
pub open spec fn rentries_view(s: Seq<RenderedEntry>) -> Seq<(Seq<char>, RenderedV)>
    decreases s,
{
    Seq::new(
        s.len(),
        |i: int|
            if 0 <= i < s.len() {
                (s[i].key@, s[i].value@)
            } else {
                (Seq::empty(), RenderedV::Leaf(Seq::empty()))
            },
    )
}

impl View for RenderedTemplate {
    type V = RenderedV;

    open spec fn view(&self) -> RenderedV
        decreases self,
    {
        match self {
            RenderedTemplate::Leaf(t) => RenderedV::Leaf(t@),
            RenderedTemplate::Branch(entries) => RenderedV::Branch(rentries_view(entries@)),
        }
    }
}

/// Render a compiled template against a payload.  `Err` carries the
/// first missing field.
pub open spec fn render_node(n: TNodeV, v: JsonV) -> Result<RenderedV, Seq<char>>
    decreases n, 1int,
{
    match n {
        TNodeV::Leaf(vals) => match render_leaf(vals, v) {
            Ok(t) => Ok(RenderedV::Leaf(t)),
            Err(p) => Err(p),
        },
        TNodeV::Branch(entries) => match render_entries(entries, v) {
            Ok(es) => Ok(RenderedV::Branch(es)),
            Err(p) => Err(p),
        },
    }
}

/// Render an object's pairs in order.
pub open spec fn render_entries(entries: Seq<(Seq<TValV>, TNodeV)>, v: JsonV) -> Result<
    Seq<(Seq<char>, RenderedV)>,
    Seq<char>,
>
    decreases entries, 0int,
{
    if entries.len() == 0 {
        Ok(Seq::empty())
    } else {
        match render_leaf(entries[0].0, v) {
            Ok(k) => match render_node(entries[0].1, v) {
                Ok(rv) => match render_entries(entries.drop_first(), v) {
                    Ok(rest) => Ok(seq![(k, rv)] + rest),
                    Err(p) => Err(p),
                },
                Err(p) => Err(p),
            },
            Err(p) => Err(p),
        }
    }
}

/// The document a rendered template stands for: texts become strings,
/// branches become objects.
pub open spec fn rendered_jsonv(r: RenderedV) -> JsonV
    decreases r, 1int,
{
    match r {
        RenderedV::Leaf(t) => JsonV::Str(t),
        RenderedV::Branch(entries) => JsonV::Obj(rendered_entries_jsonv(entries)),
    }
}

/// The object entries a rendered branch stands for.
pub open spec fn rendered_entries_jsonv(entries: Seq<(Seq<char>, RenderedV)>) -> Seq<
    (Seq<char>, JsonV),
>
    decreases entries, 0int,
{
    if entries.len() == 0 {
        Seq::empty()
    } else {
        seq![(entries[0].0, rendered_jsonv(entries[0].1))] + rendered_entries_jsonv(
            entries.drop_first(),
        )
    }
}

impl RenderedTemplate {
    /// The document this rendered template stands for.
    pub fn to_json(&self) -> (r: Json)
        ensures
            r@ == rendered_jsonv(self@),
        decreases self@,
    {
        match self {
            RenderedTemplate::Leaf(t) => Json::Str(t.clone()),
            RenderedTemplate::Branch(entries) => {
                let ghost ev = rentries_view(entries@);
                let mut out: Vec<JsonEntry> = Vec::new();
                let mut i: usize = 0;
                while i < entries.len()
                    invariant
                        i <= entries@.len(),
                        ev == rentries_view(entries@),
                        self@ == RenderedV::Branch(ev),
                        entries_view(out@) == rendered_entries_jsonv(ev.take(i as int)),
                    decreases entries@.len() - i,
                {
                    let ghost pre = entries_view(out@);
                    proof {
                        assert(ev[i as int] == (entries@[i as int].key@, entries@[i as int].value@));
                        assert(decreases_to!(self@ => self@->Branch_0));
                        assert(decreases_to!(self@->Branch_0 => self@->Branch_0[i as int]));
                        assert(self@->Branch_0[i as int].1 == entries@[i as int].value@);
                        assert(decreases_to!(self@->Branch_0[i as int] => self@->Branch_0[
                            i as int
                        ].1));
                    }
                    let piece = entries[i].value.to_json();
                    out.push(JsonEntry { key: entries[i].key.clone(), value: piece });
                    i = i + 1;
                    proof {
                        let t = ev.take(i as int);
                        assert(t.drop_first() =~= ev.subrange(1, i as int));
                        lemma_rendered_entries_snoc(ev, i as int);
                        assert(entries_view(out@) =~= rendered_entries_jsonv(t));
                    }
                }
                let r = Json::Obj(out);
                proof {
                    assert(ev.take(i as int) =~= ev);
                    assert(r@ =~~= rendered_jsonv(self@));
                }
                r
            }
        }
    }
}

proof fn lemma_rendered_entries_snoc(ev: Seq<(Seq<char>, RenderedV)>, i: int)
    requires
        0 < i <= ev.len(),
    ensures
        rendered_entries_jsonv(ev.take(i)) == rendered_entries_jsonv(ev.take(i - 1)).push(
            (ev[i - 1].0, rendered_jsonv(ev[i - 1].1)),
        ),
    decreases i,
{
    if i == 1 {
        assert(ev.take(1).drop_first() =~= Seq::<(Seq<char>, RenderedV)>::empty());
        assert(ev.take(0) =~= Seq::<(Seq<char>, RenderedV)>::empty());
        assert(ev.take(1)[0] == ev[0]);
        assert(rendered_entries_jsonv(ev.take(1)) =~= rendered_entries_jsonv(ev.take(0)).push(
            (ev[0].0, rendered_jsonv(ev[0].1)),
        ));
    } else {
        let t = ev.take(i);
        assert(t[0] == ev[0]);
        assert(t.drop_first() =~= ev.subrange(1, i));
        let sub = ev.subrange(1, ev.len() as int);
        assert(ev.subrange(1, i) =~= sub.take(i - 1));
        lemma_rendered_entries_snoc(sub, i - 1);
        assert(sub.take(i - 2) =~= ev.take(i - 1).drop_first());
        assert(ev.take(i - 1)[0] == ev[0]);
        assert(sub[i - 2] == ev[i - 1]);
        assert(rendered_entries_jsonv(ev.take(i)) =~= rendered_entries_jsonv(ev.take(i - 1)).push(
            (ev[i - 1].0, rendered_jsonv(ev[i - 1].1)),
        ));
    }
}

/// A compiled payload template, rendered against each extraction.
#[derive(Debug)]
pub struct Template {
    pub root: TemplateNode,
}

fn node_from_json(value: &Json) -> (r: Result<TemplateNode, TemplateError>)
    ensures
        match r {
            Ok(n) => node_of_json(value@) == Ok::<TNodeV, ParseErrV>(n@),
            Err(_) => node_of_json(value@) is Err,
        },
    decreases value@,
{
    match value {
        Json::Str(text) => {
            match TemplateValue::try_parse(text.as_str()) {
                Ok(vals) => Ok(TemplateNode::Leaf(vals)),
                Err(e) => Err(e),
            }
        }
        Json::Obj(entries) => {
            let ghost ev = crate::json::entries_view(entries@);
            let mut out: Vec<TemplateEntry> = Vec::new();
            let mut i: usize = 0;
            proof {
                assert(ev.subrange(0, ev.len() as int) =~= ev);
            }
            while i < entries.len()
                invariant
                    i <= entries@.len(),
                    ev == crate::json::entries_view(entries@),
                    value@ == JsonV::Obj(ev),
                    (entries_of_json(ev.subrange(i as int, ev.len() as int)) matches Ok(rest) ==>
                    entries_of_json(ev) == Ok::<Seq<(Seq<TValV>, TNodeV)>, ParseErrV>(
                        tentries_view(out@) + rest,
                    )),
                    (entries_of_json(ev.subrange(i as int, ev.len() as int)) is Err ==>
                    entries_of_json(ev) is Err),
                decreases entries@.len() - i,
            {
                let ghost rest_pre = ev.subrange(i as int, ev.len() as int);
                proof {
                    assert(rest_pre[0] == ev[i as int]);
                    assert(ev[i as int] == (entries@[i as int].key@, entries@[i as int].value@));
                    assert(rest_pre.drop_first() =~= ev.subrange(i + 1, ev.len() as int));
                    assert(decreases_to!(value@ => value@->Obj_0));
                    assert(decreases_to!(value@->Obj_0 => value@->Obj_0[i as int]));
                    assert(value@->Obj_0[i as int].1 == entries@[i as int].value@);
                    assert(decreases_to!(value@->Obj_0[i as int] => value@->Obj_0[i as int].1));
                }
                let kvals = match TemplateValue::try_parse(entries[i].key.as_str()) {
                    Ok(kv) => kv,
                    Err(e) => {
                        return Err(e);
                    }
                };
                let node = match node_from_json(&entries[i].value) {
                    Ok(n) => n,
                    Err(e) => {
                        return Err(e);
                    }
                };
                let ghost pre_out = tentries_view(out@);
                out.push(TemplateEntry { key: kvals, value: node });
                i = i + 1;
                proof {
                    assert(tentries_view(out@) =~= pre_out.push(
                        (tvals_view(out@.last().key@), out@.last().value@),
                    ));
                    let rest_now = ev.subrange(i as int, ev.len() as int);
                    match entries_of_json(rest_now) {
                        Ok(rest2) => {
                            assert(entries_of_json(rest_pre) == Ok::<
                                Seq<(Seq<TValV>, TNodeV)>,
                                ParseErrV,
                            >(seq![(tvals_view(out@.last().key@), out@.last().value@)] + rest2));
                            assert(pre_out + (seq![
                                (tvals_view(out@.last().key@), out@.last().value@),
                            ] + rest2) =~= tentries_view(out@) + rest2);
                        }
                        Err(_) => {}
                    }
                }
            }
            proof {
                assert(ev.subrange(i as int, ev.len() as int) =~= Seq::<(Seq<char>, JsonV)>::empty());
                assert(tentries_view(out@) + Seq::<(Seq<TValV>, TNodeV)>::empty() =~= tentries_view(
                    out@,
                ));
            }
            Ok(TemplateNode::Branch(out))
        }
        _ => Err(TemplateError::NoMappingFound),
    }
}

fn render_node_exec(node: &TemplateNode, json: &Json) -> (r: Result<
    RenderedTemplate,
    TemplateError,
>)
    ensures
        match r {
            Ok(rt) => render_node(node@, json@) == Ok::<RenderedV, Seq<char>>(rt@),
            Err(e) => {
                &&& render_node(node@, json@) matches Err(p)
                &&& e matches TemplateError::RenderError(m) && m@ == p
            },
        },
    decreases node@,
{
    match node {
        TemplateNode::Leaf(vals) => {
            match render_values(vals, json) {
                Ok(t) => Ok(RenderedTemplate::Leaf(t)),
                Err(e) => Err(e),
            }
        }
        TemplateNode::Branch(entries) => {
            let ghost ev = tentries_view(entries@);
            let mut out: Vec<RenderedEntry> = Vec::new();
            let mut i: usize = 0;
            proof {
                assert(ev.subrange(0, ev.len() as int) =~= ev);
            }
            while i < entries.len()
                invariant
                    i <= entries@.len(),
                    ev == tentries_view(entries@),
                    node@ == TNodeV::Branch(ev),
                    (render_entries(ev.subrange(i as int, ev.len() as int), json@) matches Ok(rest)
                        ==> render_entries(ev, json@) == Ok::<
                        Seq<(Seq<char>, RenderedV)>,
                        Seq<char>,
                    >(rentries_view(out@) + rest)),
                    (render_entries(ev.subrange(i as int, ev.len() as int), json@) matches Err(p)
                        ==> render_entries(ev, json@) == Err::<
                        Seq<(Seq<char>, RenderedV)>,
                        Seq<char>,
                    >(p)),
                decreases entries@.len() - i,
            {
                let ghost rest_pre = ev.subrange(i as int, ev.len() as int);
                proof {
                    assert(rest_pre[0] == ev[i as int]);
                    assert(ev[i as int] == (
                        tvals_view(entries@[i as int].key@),
                        entries@[i as int].value@,
                    ));
                    assert(rest_pre.drop_first() =~= ev.subrange(i + 1, ev.len() as int));
                    assert(decreases_to!(node@ => node@->Branch_0));
                    assert(decreases_to!(node@->Branch_0 => node@->Branch_0[i as int]));
                    assert(node@->Branch_0[i as int].1 == entries@[i as int].value@);
                    assert(decreases_to!(node@->Branch_0[i as int] => node@->Branch_0[
                        i as int
                    ].1));
                }
                let key = match render_values(&entries[i].key, json) {
                    Ok(k) => k,
                    Err(e) => {
                        return Err(e);
                    }
                };
                let piece = match render_node_exec(&entries[i].value, json) {
                    Ok(p) => p,
                    Err(e) => {
                        return Err(e);
                    }
                };
                let ghost pre_out = rentries_view(out@);
                out.push(RenderedEntry { key, value: piece });
                i = i + 1;
                proof {
                    assert(rentries_view(out@) =~= pre_out.push(
                        (out@.last().key@, out@.last().value@),
                    ));
                    let rest_now = ev.subrange(i as int, ev.len() as int);
                    match render_entries(rest_now, json@) {
                        Ok(rest2) => {
                            assert(render_entries(rest_pre, json@) == Ok::<
                                Seq<(Seq<char>, RenderedV)>,
                                Seq<char>,
                            >(seq![(out@.last().key@, out@.last().value@)] + rest2));
                            assert(pre_out + (seq![(out@.last().key@, out@.last().value@)] + rest2)
                                =~= rentries_view(out@) + rest2);
                        }
                        Err(_) => {}
                    }
                }
            }
            proof {
                assert(ev.subrange(i as int, ev.len() as int) =~= Seq::<
                    (Seq<TValV>, TNodeV),
                >::empty());
                assert(rentries_view(out@) + Seq::<(Seq<char>, RenderedV)>::empty()
                    =~= rentries_view(out@));
            }
            Ok(RenderedTemplate::Branch(out))
        }
    }
}

impl Template {
    /// Compile a structured document into a template: an object becomes
    /// a branch of key and value templates, a string becomes a leaf of
    /// pieces, anything else is rejected.
    pub fn from_payload(value: &Json) -> (r: Result<Template, TemplateError>)
        ensures
            match r {
                Ok(t) => node_of_json(value@) == Ok::<TNodeV, ParseErrV>(t.root@),
                Err(_) => node_of_json(value@) is Err,
            },
    {
        match node_from_json(value) {
            Ok(root) => Ok(Template { root }),
            Err(e) => Err(e),
        }
    }

    /// Render the template against an extraction payload.
    pub fn render(&self, associated_value: &Json) -> (r: Result<RenderedTemplate, TemplateError>)
        ensures
            match r {
                Ok(rt) => render_node(self.root@, associated_value@) == Ok::<RenderedV, Seq<char>>(
                    rt@,
                ),
                Err(e) => {
                    &&& render_node(self.root@, associated_value@) matches Err(p)
                    &&& e matches TemplateError::RenderError(m) && m@ == p
                },
            },
    {
        render_node_exec(&self.root, associated_value)
    }
}


impl TemplateNode {
    /// A copy holding the same template.
    pub fn duplicate(&self) -> (r: TemplateNode)
        ensures
            r@ == self@,
        decreases self@,
    {
        match self {
            TemplateNode::Leaf(vals) => {
                let r = TemplateNode::Leaf(crate::template::values::clone_values(vals));
                proof {
                    assert(r@ =~~= self@);
                }
                r
            }
            TemplateNode::Branch(entries) => {
                let ghost ev = tentries_view(entries@);
                let mut out: Vec<TemplateEntry> = Vec::new();
                let mut i: usize = 0;
                while i < entries.len()
                    invariant
                        i <= entries@.len(),
                        ev == tentries_view(entries@),
                        self@ == TNodeV::Branch(ev),
                        out@.len() == i,
                        forall|k: int|
                            0 <= k < i ==> tvals_view((#[trigger] out@[k]).key@) == ev[k].0
                                && out@[k].value@ == ev[k].1,
                    decreases entries@.len() - i,
                {
                    proof {
                        assert(ev[i as int] == (
                            tvals_view(entries@[i as int].key@),
                            entries@[i as int].value@,
                        ));
                        assert(decreases_to!(self@ => self@->Branch_0));
                        assert(decreases_to!(self@->Branch_0 => self@->Branch_0[i as int]));
                        assert(self@->Branch_0[i as int].1 == entries@[i as int].value@);
                        assert(decreases_to!(self@->Branch_0[i as int] => self@->Branch_0[
                            i as int
                        ].1));
                    }
                    let key = crate::template::values::clone_values(&entries[i].key);
                    let value = entries[i].value.duplicate();
                    out.push(TemplateEntry { key, value });
                    i = i + 1;
                }
                let r = TemplateNode::Branch(out);
                proof {
                    assert forall|k: int| 0 <= k < out@.len() implies (r@->Branch_0)[k] == (
                    self@->Branch_0)[k] by {
                        assert(tentries_view(out@)[k] == (
                            tvals_view(out@[k].key@),
                            out@[k].value@,
                        ));
                    }
                    assert(r@->Branch_0.len() == out@.len());
                    assert(self@->Branch_0.len() == out@.len());
                    assert(r@->Branch_0 =~= self@->Branch_0);
                    assert(r@ =~~= self@);
                }
                r
            }
        }
    }
}

impl Clone for Template {
    /// A copy holding the same template.
    fn clone(&self) -> (r: Self)
        ensures
            r.root@ == self.root@,
    {
        Template { root: self.root.duplicate() }
    }
}

} // verus!
