//! A structured payload value, and lookups along dotted field paths.
//!
//! Inbound messages and rendered payloads are JSON documents.  The engine
//! reads them through this tree: a number is carried as its decimal text
//! (the engine never computes with it), an object keeps its entries in
//! document order.

use vstd::prelude::*;

use crate::errors::LaikaError;

verus! {

broadcast use vstd::std_specs::vec::group_vec_axioms, vstd::seq::group_seq_axioms;

/// A JSON document as the engine sees it.
#[derive(Debug)]
pub enum Json {
    Null,
    Bool(bool),
    /// A number, held as its decimal text.
    Num(String),
    Str(String),
    Arr(Vec<Json>),
    /// An object: entries in document order, keys expected unique.
    Obj(Vec<JsonEntry>),
}

/// One `key: value` entry of a JSON object.
#[derive(Debug)]
pub struct JsonEntry {
    pub key: String,
    pub value: Json,
}

/// The mathematical shape of a document: texts as character sequences,
/// lists as sequences.
#[verifier::ext_equal]
pub enum JsonV {
    Null,
    Bool(bool),
    Num(Seq<char>),
    Str(Seq<char>),
    Arr(Seq<JsonV>),
    Obj(Seq<(Seq<char>, JsonV)>),
}

/// The shapes of a sequence of documents.
pub open spec fn items_view(items: Seq<Json>) -> Seq<JsonV>
    decreases items,
{
    Seq::new(
        items.len(),
        |i: int|
            if 0 <= i < items.len() {
                items[i]@
            } else {
                JsonV::Null
            },
    )
}

/// The shapes of an object's entries.
pub open spec fn entries_view(entries: Seq<JsonEntry>) -> Seq<(Seq<char>, JsonV)>
    decreases entries,
{
    Seq::new(
        entries.len(),
        |i: int|
            if 0 <= i < entries.len() {
                (entries[i].key@, entries[i].value@)
            } else {
                (Seq::empty(), JsonV::Null)
            },
    )
}

impl View for Json {
    type V = JsonV;

    open spec fn view(&self) -> JsonV
        decreases self,
    {
        match self {
            Json::Null => JsonV::Null,
            Json::Bool(b) => JsonV::Bool(*b),
            Json::Num(s) => JsonV::Num(s@),
            Json::Str(s) => JsonV::Str(s@),
            Json::Arr(items) => JsonV::Arr(items_view(items@)),
            Json::Obj(entries) => JsonV::Obj(entries_view(entries@)),
        }
    }
}

impl Json {
    /// An equal copy of the document.
    pub fn duplicate(&self) -> (r: Json)
        ensures
            r@ == self@,
        decreases self@,
    {
        match self {
            Json::Null => Json::Null,
            Json::Bool(b) => Json::Bool(*b),
            Json::Num(s) => Json::Num(s.clone()),
            Json::Str(s) => Json::Str(s.clone()),
            Json::Arr(items) => {
                let mut out: Vec<Json> = Vec::new();
                let mut i: usize = 0;
                while i < items.len()
                    invariant
                        i <= items@.len(),
                        out@.len() == i,
                        self@ == Json::Arr(*items)@,
                        forall|k: int| 0 <= k < i ==> (#[trigger] out@[k])@ == items@[k]@,
                    decreases items@.len() - i,
                {
                    proof {
                        assert(decreases_to!(self@ => self@->Arr_0));
                        assert(decreases_to!(self@->Arr_0 => self@->Arr_0[i as int]));
                        assert(self@->Arr_0[i as int] == items@[i as int]@);
                    }
                    out.push(items[i].duplicate());
                    i = i + 1;
                }
                let r = Json::Arr(out);
                proof {
                    assert(r@->Arr_0 =~~= self@->Arr_0);
                    assert(r@ =~~= self@);
                }
                r
            }
            Json::Obj(entries) => {
                let mut out: Vec<JsonEntry> = Vec::new();
                let mut i: usize = 0;
                while i < entries.len()
                    invariant
                        i <= entries@.len(),
                        out@.len() == i,
                        self@ == Json::Obj(*entries)@,
                        forall|k: int|
                            0 <= k < i ==> (#[trigger] out@[k]).key@ == entries@[k].key@
                                && out@[k].value@ == entries@[k].value@,
                    decreases entries@.len() - i,
                {
                    let e = &entries[i];
                    proof {
                        assert(entries_view(entries@)[i as int] == (
                            entries@[i as int].key@,
                            entries@[i as int].value@,
                        ));
                        assert(decreases_to!(self@ => self@->Obj_0));
                        assert(decreases_to!(self@->Obj_0 => self@->Obj_0[i as int]));
                        assert(self@->Obj_0[i as int].1 == entries@[i as int].value@);
                        assert(decreases_to!(self@->Obj_0[i as int] => self@->Obj_0[i as int].1));
                    }
                    out.push(JsonEntry { key: e.key.clone(), value: e.value.duplicate() });
                    i = i + 1;
                }
                let r = Json::Obj(out);
                proof {
                    assert forall|k: int| 0 <= k < out@.len() implies (r@->Obj_0)[k]
                        == (self@->Obj_0)[k] by {
                        assert(entries_view(out@)[k] == (out@[k].key@, out@[k].value@));
                        assert(entries_view(entries@)[k] == (
                            entries@[k].key@,
                            entries@[k].value@,
                        ));
                        assert((r@->Obj_0)[k].0 =~= (self@->Obj_0)[k].0);
                        assert((r@->Obj_0)[k] =~~= (self@->Obj_0)[k]);
                    }
                    assert(r@ == JsonV::Obj(entries_view(out@)));
                    assert(entries_view(out@).len() == out@.len());
                    assert(self@ == JsonV::Obj(entries_view(entries@)));
                    assert(entries_view(entries@).len() == entries@.len());
                    assert(out@.len() == entries@.len());
                    assert(r@->Obj_0.len() == self@->Obj_0.len());
                    assert(r@->Obj_0 =~= self@->Obj_0);
                    assert(r@ =~~= self@);
                }
                r
            }
        }
    }
}

impl Clone for Json {
    /// An equal copy of the document.
    fn clone(&self) -> (r: Json)
        ensures
            r@ == self@,
    {
        self.duplicate()
    }
}

impl Clone for JsonEntry {
    /// An equal copy of the entry.
    fn clone(&self) -> (r: JsonEntry)
        ensures
            r.key@ == self.key@ && r.value@ == self.value@,
    {
        JsonEntry { key: self.key.clone(), value: self.value.duplicate() }
    }
}

fn json_eq_rec(a: &Json, b: &Json) -> (r: bool)
    ensures
        r == (a@ == b@),
    decreases a@,
{
    match (a, b) {
        (Json::Null, Json::Null) => true,
        (Json::Bool(x), Json::Bool(y)) => *x == *y,
        (Json::Num(x), Json::Num(y)) => *x == *y,
        (Json::Str(x), Json::Str(y)) => *x == *y,
        (Json::Arr(x), Json::Arr(y)) => {
            proof {
                assert(a@ == JsonV::Arr(items_view(x@)));
                assert(b@ == JsonV::Arr(items_view(y@)));
            }
            if x.len() != y.len() {
                proof {
                    assert(items_view(x@).len() != items_view(y@).len());
                }
                return false;
            }
            let mut i: usize = 0;
            while i < x.len()
                invariant
                    i <= x@.len(),
                    x@.len() == y@.len(),
                    a@ == Json::Arr(*x)@ && b@ == Json::Arr(*y)@,
                    forall|k: int| 0 <= k < i ==> (#[trigger] x@[k])@ == y@[k]@,
                decreases x@.len() - i,
            {
                proof {
                    assert(decreases_to!(a@ => a@->Arr_0));
                    assert(decreases_to!(a@->Arr_0 => a@->Arr_0[i as int]));
                    assert(a@->Arr_0[i as int] == x@[i as int]@);
                }
                if !json_eq_rec(&x[i], &y[i]) {
                    proof {
                        assert((a@->Arr_0)[i as int] != (b@->Arr_0)[i as int]);
                    }
                    return false;
                }
                i = i + 1;
            }
            proof {
                assert(a@->Arr_0 =~~= b@->Arr_0);
                assert(a@ =~~= b@);
            }
            true
        }
        (Json::Obj(x), Json::Obj(y)) => {
            proof {
                assert(a@ == JsonV::Obj(entries_view(x@)));
                assert(b@ == JsonV::Obj(entries_view(y@)));
            }
            if x.len() != y.len() {
                proof {
                    assert(entries_view(x@).len() != entries_view(y@).len());
                }
                return false;
            }
            let mut i: usize = 0;
            while i < x.len()
                invariant
                    i <= x@.len(),
                    x@.len() == y@.len(),
                    a@ == Json::Obj(*x)@ && b@ == Json::Obj(*y)@,
                    forall|k: int|
                        0 <= k < i ==> (#[trigger] x@[k]).key@ == y@[k].key@ && x@[k].value@
                            == y@[k].value@,
                decreases x@.len() - i,
            {
                if !(x[i].key == y[i].key) {
                    proof {
                        assert(entries_view(x@)[i as int] == (
                            x@[i as int].key@,
                            x@[i as int].value@,
                        ));
                        assert(entries_view(y@)[i as int] == (
                            y@[i as int].key@,
                            y@[i as int].value@,
                        ));
                        assert((a@->Obj_0)[i as int].0 != (b@->Obj_0)[i as int].0);
                    }
                    return false;
                }
                proof {
                    assert(entries_view(x@)[i as int] == (x@[i as int].key@, x@[i as int].value@));
                    assert(decreases_to!(a@ => a@->Obj_0));
                    assert(decreases_to!(a@->Obj_0 => a@->Obj_0[i as int]));
                    assert(a@->Obj_0[i as int].1 == x@[i as int].value@);
                    assert(decreases_to!(a@->Obj_0[i as int] => a@->Obj_0[i as int].1));
                }
                if !json_eq_rec(&x[i].value, &y[i].value) {
                    proof {
                        assert(entries_view(y@)[i as int] == (
                            y@[i as int].key@,
                            y@[i as int].value@,
                        ));
                        assert((a@->Obj_0)[i as int].1 != (b@->Obj_0)[i as int].1);
                    }
                    return false;
                }
                i = i + 1;
            }
            proof {
                assert forall|k: int| 0 <= k < x@.len() implies (a@->Obj_0)[k] == (b@->Obj_0)[k] by {
                    assert((a@->Obj_0)[k].0 =~= (b@->Obj_0)[k].0);
                }
                assert(a@->Obj_0 =~~= b@->Obj_0);
                assert(a@ =~~= b@);
            }
            true
        }
        _ => false,
    }
}

impl PartialEq for Json {
    /// Two documents are equal when they have the same shape.
    fn eq(&self, other: &Json) -> (r: bool) {
        json_eq_rec(self, other)
    }
}

impl vstd::std_specs::cmp::PartialEqSpecImpl for Json {
    open spec fn obeys_eq_spec() -> bool {
        true
    }

    open spec fn eq_spec(&self, other: &Json) -> bool {
        self@ == other@
    }
}

/// The value at `key` among `entries`: the first entry whose key equals
/// `key`, if any.
pub open spec fn obj_lookup(entries: Seq<(Seq<char>, JsonV)>, key: Seq<char>) -> Option<JsonV>
    decreases entries.len(),
{
    if entries.len() == 0 {
        None
    } else if entries[0].0 == key {
        Some(entries[0].1)
    } else {
        obj_lookup(entries.drop_first(), key)
    }
}

/// Strip one leading `$` from a path, if present.
pub open spec fn strip_dollar(path: Seq<char>) -> Seq<char> {
    if path.len() > 0 && path[0] == '$' {
        path.drop_first()
    } else {
        path
    }
}

/// Index of the first `.` in `s`, or -1 if there is none.
pub open spec fn first_dot(s: Seq<char>) -> int
    decreases s.len(),
{
    if s.len() == 0 {
        -1
    } else if s[0] == '.' {
        0
    } else if first_dot(s.drop_first()) < 0 {
        -1
    } else {
        1 + first_dot(s.drop_first())
    }
}

/// The segments of `s` split at `.`, empty segments dropped.
pub open spec fn split_dots(s: Seq<char>) -> Seq<Seq<char>>
    decreases s.len(),
    via split_dots_decreases
{
    if first_dot(s) < 0 {
        if s.len() == 0 {
            Seq::empty()
        } else {
            seq![s]
        }
    } else {
        if first_dot(s) == 0 {
            split_dots(s.drop_first())
        } else {
            seq![s.subrange(0, first_dot(s))] + split_dots(
                s.subrange(first_dot(s) + 1, s.len() as int),
            )
        }
    }
}

#[via_fn]
proof fn split_dots_decreases(s: Seq<char>) {
    lemma_first_dot(s);
}

/// The field names a dotted path descends through.
pub open spec fn path_parts(path: Seq<char>) -> Seq<Seq<char>> {
    split_dots(strip_dollar(path))
}

/// Descend from `v` through the given field names.  `Err` carries the
/// first name at which the descent failed.
pub open spec fn lookup_parts(v: JsonV, parts: Seq<Seq<char>>) -> Result<JsonV, Seq<char>>
    decreases parts.len(),
{
    if parts.len() == 0 {
        Ok(v)
    } else {
        match v {
            JsonV::Obj(entries) => match obj_lookup(entries, parts[0]) {
                Some(child) => lookup_parts(child, parts.drop_first()),
                None => Err(parts[0]),
            },
            _ => Err(parts[0]),
        }
    }
}

/// The value a dotted path names inside `v`, or the first missing field.
pub open spec fn lookup_path(v: JsonV, path: Seq<char>) -> Result<JsonV, Seq<char>> {
    lookup_parts(v, path_parts(path))
}

proof fn lemma_first_dot(s: Seq<char>)
    ensures
        first_dot(s) < 0 ==> forall|k: int| 0 <= k < s.len() ==> s[k] != '.',
        first_dot(s) >= 0 ==> first_dot(s) < s.len() && s[first_dot(s)] == '.' && forall|k: int|
            0 <= k < first_dot(s) ==> s[k] != '.',
    decreases s.len(),
{
    if s.len() > 0 && s[0] != '.' {
        lemma_first_dot(s.drop_first());
        assert forall|k: int| 0 <= k < s.len() && first_dot(s) < 0 implies s[k] != '.' by {
            if k > 0 {
                assert(s.drop_first()[k - 1] == s[k]);
            }
        }
        if first_dot(s) >= 0 {
            assert forall|k: int| 0 <= k < first_dot(s) implies s[k] != '.' by {
                if k > 0 {
                    assert(s.drop_first()[k - 1] == s[k]);
                }
            }
        }
    }
}

/// Split a path into its field-name segments: strip one leading `$`,
/// split at `.`, drop empty segments.
pub fn split_path(path: &str) -> (r: Vec<String>)
    ensures
        r@.map_values(|p: String| p@) == path_parts(path@),
{
    let chars = crate::strutil::chars_of(path);
    let start: usize = if chars.len() > 0 && chars[0] == '$' {
        1
    } else {
        0
    };
    let r = split_segments(&chars, start);
    proof {
        assert(chars@.subrange(start as int, chars@.len() as int) =~= strip_dollar(path@));
    }
    r
}

/// Split the suffix of `chars` beginning at `i` at every `.`.
fn split_segments(chars: &Vec<char>, i: usize) -> (r: Vec<String>)
    requires
        i <= chars@.len(),
    ensures
        r@.map_values(|p: String| p@) == split_dots(chars@.subrange(i as int, chars@.len() as int)),
    decreases chars@.len() - i,
{
    let ghost suffix = chars@.subrange(i as int, chars@.len() as int);
    let mut j: usize = i;
    while j < chars.len() && chars[j] != '.'
        invariant
            i <= j <= chars@.len(),
            forall|k: int| i <= k < j ==> chars@[k] != '.',
        decreases chars@.len() - j,
    {
        j = j + 1;
    }
    proof {
        lemma_first_dot(suffix);
        if j == chars@.len() {
            if first_dot(suffix) >= 0 {
                assert(chars@[i + first_dot(suffix)] == '.');
            }
            assert(first_dot(suffix) < 0);
        } else {
            assert(suffix[j - i] == '.');
            if first_dot(suffix) < 0 {
                assert(false);
            }
            if first_dot(suffix) < j - i {
                assert(chars@[i + first_dot(suffix)] == '.');
                assert(false);
            }
            if first_dot(suffix) > j - i {
                assert(suffix[j - i] != '.');
                assert(false);
            }
            assert(first_dot(suffix) == j - i);
        }
    }
    if j >= chars.len() {
        // No dot in the suffix: one final segment, unless it is empty.
        if j == i {
            let r: Vec<String> = Vec::new();
            proof {
                assert(r@.map_values(|p: String| p@) =~= split_dots(suffix));
            }
            r
        } else {
            let seg = segment_string(chars, i, j);
            let mut r: Vec<String> = Vec::new();
            r.push(seg);
            proof {
                assert(r@.map_values(|p: String| p@) =~= split_dots(suffix));
            }
            r
        }
    } else {
        // chars[j] is the first dot at or after i.
        let rest = split_segments(chars, j + 1);
        proof {
            assert(chars@.subrange(j + 1, chars@.len() as int) =~= suffix.subrange(
                j - i + 1,
                suffix.len() as int,
            ));
        }
        if j == i {
            proof {
                assert(rest@.map_values(|p: String| p@) =~= split_dots(suffix));
            }
            rest
        } else {
            let seg = segment_string(chars, i, j);
            let mut r: Vec<String> = Vec::new();
            r.push(seg);
            let mut k: usize = 0;
            while k < rest.len()
                invariant
                    k <= rest@.len(),
                    r@.len() == k + 1,
                    r@[0] == seg,
                    forall|m: int| 0 <= m < k ==> r@[m + 1] == rest@[m],
                decreases rest@.len() - k,
            {
                r.push(rest[k].clone());
                k = k + 1;
            }
            proof {
                assert(seg@ =~= suffix.subrange(0, first_dot(suffix)));
                assert(r@.map_values(|p: String| p@) =~= split_dots(suffix));
            }
            r
        }
    }
}

/// The characters of `chars[from..to]`, as a string.
fn segment_string(chars: &Vec<char>, from: usize, to: usize) -> (r: String)
    requires
        from <= to <= chars@.len(),
    ensures
        r@ == chars@.subrange(from as int, to as int),
{
    let mut r = String::new();
    let mut k: usize = from;
    while k < to
        invariant
            from <= k <= to <= chars@.len(),
            r@ == chars@.subrange(from as int, k as int),
        decreases to - k,
    {
        crate::strutil::push_char(&mut r, chars[k]);
        k = k + 1;
        proof {
            assert(r@ =~= chars@.subrange(from as int, k as int));
        }
    }
    r
}

/// The value stored under `key` in an object's entries, if any.
pub fn obj_get<'a>(entries: &'a Vec<JsonEntry>, key: &String) -> (r: Option<&'a Json>)
    ensures
        match r {
            Some(j) => obj_lookup(entries_view(entries@), key@) == Some(j@),
            None => obj_lookup(entries_view(entries@), key@) is None,
        },
{
    let ghost ev = entries_view(entries@);
    let mut k: usize = 0;
    proof {
        assert(ev.subrange(0, ev.len() as int) =~= ev);
    }
    while k < entries.len()
        invariant
            k <= entries@.len(),
            ev == entries_view(entries@),
            obj_lookup(ev, key@) == obj_lookup(ev.subrange(k as int, ev.len() as int), key@),
        decreases entries@.len() - k,
    {
        proof {
            assert(ev.subrange(k as int, ev.len() as int).drop_first() =~= ev.subrange(
                k + 1,
                ev.len() as int,
            ));
        }
        if entries[k].key == *key {
            return Some(&entries[k].value);
        }
        k = k + 1;
    }
    None
}

/// Descend from `v` through `parts`, reporting the first missing field.
pub fn descend<'a>(v: &'a Json, parts: &Vec<String>) -> (r: Result<&'a Json, String>)
    ensures
        match r {
            Ok(j) => lookup_parts(v@, parts@.map_values(|p: String| p@)) == Ok::<JsonV, Seq<char>>(
                j@,
            ),
            Err(p) => lookup_parts(v@, parts@.map_values(|p: String| p@)) == Err::<
                JsonV,
                Seq<char>,
            >(p@),
        },
{
    let ghost all_parts = parts@.map_values(|p: String| p@);
    let mut cur: &Json = v;
    let mut k: usize = 0;
    proof {
        assert(all_parts.subrange(0, all_parts.len() as int) =~= all_parts);
    }
    while k < parts.len()
        invariant
            k <= parts@.len(),
            all_parts == parts@.map_values(|p: String| p@),
            lookup_parts(v@, all_parts) == lookup_parts(
                cur@,
                all_parts.subrange(k as int, all_parts.len() as int),
            ),
        decreases parts@.len() - k,
    {
        let ghost rest = all_parts.subrange(k as int, all_parts.len() as int);
        proof {
            assert(rest.drop_first() =~= all_parts.subrange(k + 1, all_parts.len() as int));
        }
        match cur {
            Json::Obj(entries) => {
                match obj_get(entries, &parts[k]) {
                    Some(child) => {
                        cur = child;
                        k = k + 1;
                    }
                    None => {
                        return Err(parts[k].clone());
                    }
                }
            }
            _ => {
                return Err(parts[k].clone());
            }
        }
    }
    proof {
        assert(all_parts.subrange(k as int, all_parts.len() as int) =~= Seq::<Seq<char>>::empty());
    }
    Ok(cur)
}

/// The value a dotted path names inside `value`.
///
/// The path may carry one leading `$`; empty segments are ignored.  The
/// error names the first field of the path that was absent, and the path.
pub fn extract_json_field<'a>(value: &'a Json, field_path: &str) -> (r: Result<
    &'a Json,
    LaikaError,
>)
    ensures
        match r {
            Ok(j) => lookup_path(value@, field_path@) == Ok::<JsonV, Seq<char>>(j@),
            Err(e) => {
                &&& lookup_path(value@, field_path@) matches Err(p)
                &&& e matches LaikaError::FieldNotFound(f, whole) && f@ == p && whole@
                    == field_path@
            },
        },
{
    let parts = split_path(field_path);
    match descend(value, &parts) {
        Ok(j) => Ok(j),
        Err(p) => Err(LaikaError::FieldNotFound(p, field_path.to_owned())),
    }
}

} // verus!
