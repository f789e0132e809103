//! The canonical text of a document, as templates interpolate it.
//!
//! A scalar renders to its plain text (a string without quotes), an array
//! to `[a, b, ...]`, an object to `{k: v, ...}`.

use vstd::prelude::*;

use crate::json::{Json, JsonV, entries_view, items_view};
use vstd::string::StringExecFns;

verus! {

broadcast use vstd::std_specs::vec::group_vec_axioms, vstd::seq::group_seq_axioms;

/// The canonical text of a document.
pub open spec fn json_text(v: JsonV) -> Seq<char>
    decreases v,
{
    match v {
        JsonV::Null => "null"@,
        JsonV::Bool(b) => if b {
            "true"@
        } else {
            "false"@
        },
        JsonV::Num(s) => s,
        JsonV::Str(s) => s,
        JsonV::Arr(items) => "["@ + arr_text(items) + "]"@,
        JsonV::Obj(entries) => "{"@ + obj_text(entries) + "}"@,
    }
}

/// The texts of an array's items, joined by `, `.
pub open spec fn arr_text(items: Seq<JsonV>) -> Seq<char>
    decreases items,
{
    if items.len() == 0 {
        Seq::empty()
    } else if items.len() == 1 {
        json_text(items[0])
    } else {
        arr_text(items.drop_last()) + ", "@ + json_text(items.last())
    }
}

/// The `key: value` texts of an object's entries, joined by `, `.
pub open spec fn obj_text(entries: Seq<(Seq<char>, JsonV)>) -> Seq<char>
    decreases entries,
{
    if entries.len() == 0 {
        Seq::empty()
    } else if entries.len() == 1 {
        entries[0].0 + ": "@ + json_text(entries[0].1)
    } else {
        obj_text(entries.drop_last()) + ", "@ + entries.last().0 + ": "@ + json_text(
            entries.last().1,
        )
    }
}

/// Render a document to its canonical text.
pub fn format_json_value(v: &Json) -> (r: String)
    ensures
        r@ == json_text(v@),
    decreases v@,
{
    match v {
        Json::Null => "null".to_owned(),
        Json::Bool(b) => {
            if *b {
                "true".to_owned()
            } else {
                "false".to_owned()
            }
        }
        Json::Num(s) => s.clone(),
        Json::Str(s) => s.clone(),
        Json::Arr(items) => {
            let ghost iv = items_view(items@);
            let mut out: String = "[".to_owned();
            let mut i: usize = 0;
            while i < items.len()
                invariant
                    i <= items@.len(),
                    iv == items_view(items@),
                    v@ == JsonV::Arr(iv),
                    out@ == "["@ + arr_text(iv.take(i as int)),
                decreases items@.len() - i,
            {
                proof {
                    assert(decreases_to!(v@ => v@->Arr_0));
                    assert(decreases_to!(v@->Arr_0 => v@->Arr_0[i as int]));
                    assert(v@->Arr_0[i as int] == items@[i as int]@);
                }
                if i > 0 {
                    out.append(", ");
                }
                let piece = format_json_value(&items[i]);
                out.append(piece.as_str());
                i = i + 1;
                proof {
                    let t = iv.take(i as int);
                    assert(t.drop_last() =~= iv.take(i - 1));
                    assert(t.last() == iv[i - 1]);
                    if i == 1 {
                        assert(out@ =~= "["@ + arr_text(t));
                    } else {
                        assert(out@ =~= "["@ + arr_text(t));
                    }
                }
            }
            out.append("]");
            proof {
                assert(iv.take(i as int) =~= iv);
                assert(out@ =~= json_text(v@));
            }
            out
        }
        Json::Obj(entries) => {
            let ghost ev = entries_view(entries@);
            let mut out: String = "{".to_owned();
            let mut i: usize = 0;
            while i < entries.len()
                invariant
                    i <= entries@.len(),
                    ev == entries_view(entries@),
                    v@ == JsonV::Obj(ev),
                    out@ == "{"@ + obj_text(ev.take(i as int)),
                decreases entries@.len() - i,
            {
                proof {
                    assert(ev[i as int] == (entries@[i as int].key@, entries@[i as int].value@));
                    assert(decreases_to!(v@ => v@->Obj_0));
                    assert(decreases_to!(v@->Obj_0 => v@->Obj_0[i as int]));
                    assert(decreases_to!(v@->Obj_0[i as int] => v@->Obj_0[i as int].1));
                    assert(v@->Obj_0[i as int].1 == entries@[i as int].value@);
                }
                if i > 0 {
                    out.append(", ");
                }
                out.append(entries[i].key.as_str());
                out.append(": ");
                let piece = format_json_value(&entries[i].value);
                out.append(piece.as_str());
                i = i + 1;
                proof {
                    let t = ev.take(i as int);
                    assert(t.drop_last() =~= ev.take(i - 1));
                    assert(t.last() == ev[i - 1]);
                    assert(out@ =~= "{"@ + obj_text(t));
                }
            }
            out.append("}");
            proof {
                assert(ev.take(i as int) =~= ev);
                assert(out@ =~= json_text(v@));
            }
            out
        }
    }
}

} // verus!
