//! The binary form in which event batches are persisted.
//!
//! Every multi-byte count is little-endian.  A string is its UTF-8 bytes
//! behind a four-byte length; a signed instant is a sign byte and an
//! eight-byte magnitude.  The encoding of a document tree tags each node
//! with one byte.

use vstd::prelude::*;
use vstd::utf8::{valid_utf8, decode_utf8, encode_utf8};

use crate::errors::LaikaError;
use crate::json::{Json, JsonV, JsonEntry, entries_view, items_view};

verus! {

broadcast use
    vstd::std_specs::vec::group_vec_axioms,
    vstd::seq::group_seq_axioms,
    vstd::utf8::encode_utf8_valid_utf8,
    vstd::utf8::encode_utf8_decode_utf8;

pub const MAX_CHUNK: u64 = 0xffff_ffff;

/// The four little-endian bytes of a 32-bit count.
pub open spec fn enc_u32(n: int) -> Seq<u8> {
    seq![
        (n % 256) as u8,
        ((n / 256) % 256) as u8,
        ((n / 65536) % 256) as u8,
        ((n / 16777216) % 256) as u8,
    ]
}

/// The count held by four little-endian bytes.
pub open spec fn dec_u32(b: Seq<u8>) -> int
    recommends
        b.len() == 4,
{
    b[0] + 256 * b[1] + 65536 * b[2] + 16777216 * b[3]
}

/// Four bytes round-trip any count below 2^32.
pub proof fn lemma_u32_round_trip(n: int)
    requires
        0 <= n < 0x1_0000_0000,
    ensures
        dec_u32(enc_u32(n)) == n,
        enc_u32(n).len() == 4,
{
    let q1 = n / 256;
    let q2 = n / 65536;
    let q3 = n / 16777216;
    vstd::arithmetic::div_mod::lemma_div_denominator(n, 256, 256);
    vstd::arithmetic::div_mod::lemma_div_denominator(n, 65536, 256);
    assert(q1 / 256 == q2);
    assert(q2 / 256 == q3);
    vstd::arithmetic::div_mod::lemma_fundamental_div_mod(n, 256);
    vstd::arithmetic::div_mod::lemma_fundamental_div_mod(q1, 256);
    vstd::arithmetic::div_mod::lemma_fundamental_div_mod(q2, 256);
    assert(q3 % 256 == q3) by {
        vstd::arithmetic::div_mod::lemma_basic_div(q3, 256);
        vstd::arithmetic::div_mod::lemma_small_mod(q3 as nat, 256nat);
    }
    assert(n == (n % 256) + 256 * (q1 % 256) + 65536 * (q2 % 256) + 16777216 * (q3 % 256));
}

/// The nine bytes of a signed instant: a sign byte, then the eight
/// little-endian bytes of the magnitude.
pub open spec fn enc_i64(n: int) -> Seq<u8> {
    let sign: u8 = if n < 0 {
        1u8
    } else {
        0u8
    };
    let m: int = if n < 0 {
        -n
    } else {
        n
    };
    seq![sign] + enc_u64(m)
}

/// The eight little-endian bytes of a 64-bit magnitude.
pub open spec fn enc_u64(n: int) -> Seq<u8> {
    seq![
        (n % 256) as u8,
        ((n / 256) % 256) as u8,
        ((n / 65536) % 256) as u8,
        ((n / 16777216) % 256) as u8,
        ((n / 0x1_0000_0000) % 256) as u8,
        ((n / 0x100_0000_0000) % 256) as u8,
        ((n / 0x1_0000_0000_0000) % 256) as u8,
        ((n / 0x100_0000_0000_0000) % 256) as u8,
    ]
}

/// The magnitude held by eight little-endian bytes.
pub open spec fn dec_u64(b: Seq<u8>) -> int
    recommends
        b.len() == 8,
{
    b[0] + 256 * b[1] + 65536 * b[2] + 16777216 * b[3] + 0x1_0000_0000 * b[4] + 0x100_0000_0000
        * b[5] + 0x1_0000_0000_0000 * b[6] + 0x100_0000_0000_0000 * b[7]
}

/// The instant held by a sign byte and eight magnitude bytes.
pub open spec fn dec_i64(b: Seq<u8>) -> int
    recommends
        b.len() == 9,
{
    if b[0] == 1u8 {
        -dec_u64(b.drop_first())
    } else {
        dec_u64(b.drop_first())
    }
}

/// Eight bytes round-trip any magnitude below 2^64.
pub proof fn lemma_u64_round_trip(n: int)
    requires
        0 <= n < 0x1_0000_0000_0000_0000,
    ensures
        dec_u64(enc_u64(n)) == n,
        enc_u64(n).len() == 8,
{
    let q1 = n / 256;
    let q2 = n / 65536;
    let q3 = n / 16777216;
    let q4 = n / 0x1_0000_0000;
    let q5 = n / 0x100_0000_0000;
    let q6 = n / 0x1_0000_0000_0000;
    let q7 = n / 0x100_0000_0000_0000;
    vstd::arithmetic::div_mod::lemma_div_denominator(n, 256, 256);
    vstd::arithmetic::div_mod::lemma_div_denominator(n, 65536, 256);
    vstd::arithmetic::div_mod::lemma_div_denominator(n, 16777216, 256);
    vstd::arithmetic::div_mod::lemma_div_denominator(n, 0x1_0000_0000, 256);
    vstd::arithmetic::div_mod::lemma_div_denominator(n, 0x100_0000_0000, 256);
    vstd::arithmetic::div_mod::lemma_div_denominator(n, 0x1_0000_0000_0000, 256);
    assert(q1 / 256 == q2);
    assert(q2 / 256 == q3);
    assert(q3 / 256 == q4);
    assert(q4 / 256 == q5);
    assert(q5 / 256 == q6);
    assert(q6 / 256 == q7);
    vstd::arithmetic::div_mod::lemma_fundamental_div_mod(n, 256);
    vstd::arithmetic::div_mod::lemma_fundamental_div_mod(q1, 256);
    vstd::arithmetic::div_mod::lemma_fundamental_div_mod(q2, 256);
    vstd::arithmetic::div_mod::lemma_fundamental_div_mod(q3, 256);
    vstd::arithmetic::div_mod::lemma_fundamental_div_mod(q4, 256);
    vstd::arithmetic::div_mod::lemma_fundamental_div_mod(q5, 256);
    vstd::arithmetic::div_mod::lemma_fundamental_div_mod(q6, 256);
    assert(q7 % 256 == q7) by {
        vstd::arithmetic::div_mod::lemma_basic_div(q7, 256);
        vstd::arithmetic::div_mod::lemma_small_mod(q7 as nat, 256nat);
    }
    assert(n == (n % 256) + 256 * (q1 % 256) + 65536 * (q2 % 256) + 16777216 * (q3 % 256)
        + 0x1_0000_0000 * (q4 % 256) + 0x100_0000_0000 * (q5 % 256) + 0x1_0000_0000_0000 * (q6
        % 256) + 0x100_0000_0000_0000 * (q7 % 256));
}

/// Nine bytes round-trip any signed 64-bit instant.
pub proof fn lemma_i64_round_trip(n: int)
    requires
        -0x8000_0000_0000_0000 <= n < 0x8000_0000_0000_0000,
    ensures
        dec_i64(enc_i64(n)) == n,
        enc_i64(n).len() == 9,
{
    let m: int = if n < 0 {
        -n
    } else {
        n
    };
    lemma_u64_round_trip(m);
    assert(enc_i64(n).drop_first() =~= enc_u64(m));
}

/// A string's encoding: the length of its UTF-8 bytes, then the bytes.
pub open spec fn enc_str(s: Seq<char>) -> Seq<u8> {
    enc_u32(encode_utf8(s).len() as int) + encode_utf8(s)
}

/// A string fits the format when its UTF-8 bytes fit a 32-bit length.
pub open spec fn str_fits(s: Seq<char>) -> bool {
    encode_utf8(s).len() <= MAX_CHUNK
}

/// The string read at `pos`: a length, then that many UTF-8 bytes.
/// `None` when the bytes run out or are not UTF-8.
pub open spec fn dec_str_at(bytes: Seq<u8>, pos: int) -> Option<(Seq<char>, int)> {
    if pos < 0 || pos + 4 > bytes.len() {
        None
    } else {
        let n = dec_u32(bytes.subrange(pos, pos + 4));
        if pos + 4 + n > bytes.len() {
            None
        } else {
            let content = bytes.subrange(pos + 4, pos + 4 + n);
            if valid_utf8(content) {
                Some((decode_utf8(content), pos + 4 + n))
            } else {
                None
            }
        }
    }
}

/// Reading where a string was written yields that string.
pub proof fn lemma_str_round_trip(s: Seq<char>, bytes: Seq<u8>, pos: int)
    requires
        str_fits(s),
        0 <= pos,
        pos + enc_str(s).len() <= bytes.len(),
        bytes.subrange(pos, pos + enc_str(s).len() as int) == enc_str(s),
    ensures
        dec_str_at(bytes, pos) == Some((s, pos + enc_str(s).len() as int)),
{
    let content = encode_utf8(s);
    let n = content.len() as int;
    lemma_u32_round_trip(n);
    assert(enc_str(s).len() == 4 + n);
    assert forall|k: int| 0 <= k < 4 implies bytes.subrange(pos, pos + 4)[k] == enc_u32(n)[k] by {
        assert(bytes.subrange(pos, pos + enc_str(s).len() as int)[k] == enc_str(s)[k]);
    }
    assert(bytes.subrange(pos, pos + 4) =~= enc_u32(n));
    assert forall|k: int| 0 <= k < n implies bytes.subrange(pos + 4, pos + 4 + n)[k]
        == content[k] by {
        assert(bytes.subrange(pos, pos + enc_str(s).len() as int)[4 + k] == enc_str(s)[4 + k]);
        assert(enc_str(s)[4 + k] == content[k]);
    }
    assert(bytes.subrange(pos + 4, pos + 4 + n) =~= content);
}

/// Whether a document fits the format: every string and every count
/// fits a 32-bit length.
pub open spec fn json_fits(v: JsonV) -> bool
    decreases v,
{
    match v {
        JsonV::Null => true,
        JsonV::Bool(_) => true,
        JsonV::Num(s) => str_fits(s),
        JsonV::Str(s) => str_fits(s),
        JsonV::Arr(items) => items.len() <= MAX_CHUNK && (forall|i: int|
            0 <= i < items.len() ==> json_fits(#[trigger] items[i])),
        JsonV::Obj(entries) => entries.len() <= MAX_CHUNK && (forall|i: int|
            0 <= i < entries.len() ==> str_fits((#[trigger] entries[i]).0) && json_fits(
                entries[i].1,
            )),
    }
}

/// The encoding of a document: a tag byte, then the node's content.
pub open spec fn json_enc(v: JsonV) -> Seq<u8>
    decreases v, 1int,
{
    match v {
        JsonV::Null => seq![0u8],
        JsonV::Bool(b) => seq![1u8, if b { 1u8 } else { 0u8 }],
        JsonV::Num(s) => seq![2u8] + enc_str(s),
        JsonV::Str(s) => seq![3u8] + enc_str(s),
        JsonV::Arr(items) => seq![4u8] + enc_u32(items.len() as int) + enc_items(items),
        JsonV::Obj(entries) => seq![5u8] + enc_u32(entries.len() as int) + enc_entries(entries),
    }
}

/// The encodings of an array's items, in order.
pub open spec fn enc_items(items: Seq<JsonV>) -> Seq<u8>
    decreases items, 0int,
{
    if items.len() == 0 {
        Seq::empty()
    } else {
        json_enc(items[0]) + enc_items(items.drop_first())
    }
}

/// The encodings of an object's entries, in order: each a key, then a
/// value.
pub open spec fn enc_entries(entries: Seq<(Seq<char>, JsonV)>) -> Seq<u8>
    decreases entries, 0int,
{
    if entries.len() == 0 {
        Seq::empty()
    } else {
        enc_str(entries[0].0) + json_enc(entries[0].1) + enc_entries(entries.drop_first())
    }
}

/// Every encoding starts with its tag byte.
pub proof fn lemma_json_enc_len(v: JsonV)
    ensures
        json_enc(v).len() >= 1,
{
}

/// An item list encodes as everything up to the last item, then the last.
pub proof fn lemma_enc_items_snoc(items: Seq<JsonV>)
    requires
        items.len() > 0,
    ensures
        enc_items(items) == enc_items(items.drop_last()) + json_enc(items.last()),
    decreases items.len(),
{
    if items.len() == 1 {
        assert(items.drop_last() =~= Seq::<JsonV>::empty());
        assert(items.drop_first() =~= Seq::<JsonV>::empty());
        assert(enc_items(items) =~= enc_items(items.drop_last()) + json_enc(items.last()));
    } else {
        let tail = items.drop_first();
        lemma_enc_items_snoc(tail);
        assert(items.drop_last().drop_first() =~= tail.drop_last());
        assert(items.drop_last()[0] == items[0]);
        assert(tail.last() == items.last());
        assert(enc_items(items) =~= enc_items(items.drop_last()) + json_enc(items.last()));
    }
}

/// An entry list encodes as everything up to the last entry, then the
/// last.
pub proof fn lemma_enc_entries_snoc(entries: Seq<(Seq<char>, JsonV)>)
    requires
        entries.len() > 0,
    ensures
        enc_entries(entries) == enc_entries(entries.drop_last()) + enc_str(entries.last().0)
            + json_enc(entries.last().1),
    decreases entries.len(),
{
    if entries.len() == 1 {
        assert(entries.drop_last() =~= Seq::<(Seq<char>, JsonV)>::empty());
        assert(entries.drop_first() =~= Seq::<(Seq<char>, JsonV)>::empty());
        assert(enc_entries(entries) =~= enc_entries(entries.drop_last()) + enc_str(
            entries.last().0,
        ) + json_enc(entries.last().1));
    } else {
        let tail = entries.drop_first();
        lemma_enc_entries_snoc(tail);
        assert(entries.drop_last().drop_first() =~= tail.drop_last());
        assert(entries.drop_last()[0] == entries[0]);
        assert(tail.last() == entries.last());
        assert(enc_entries(entries) =~= enc_entries(entries.drop_last()) + enc_str(
            entries.last().0,
        ) + json_enc(entries.last().1));
    }
}

/// The document read at `pos`, with the position just past it.
pub open spec fn json_dec_at(bytes: Seq<u8>, pos: int) -> Option<(JsonV, int)>
    decreases bytes.len() - pos, 0int, 0int,
{
    if pos < 0 || pos >= bytes.len() {
        None
    } else {
        let tag = bytes[pos];
        if tag == 0u8 {
            Some((JsonV::Null, pos + 1))
        } else if tag == 1u8 {
            if pos + 2 <= bytes.len() {
                Some((JsonV::Bool(bytes[pos + 1] == 1u8), pos + 2))
            } else {
                None
            }
        } else if tag == 2u8 {
            match dec_str_at(bytes, pos + 1) {
                Some(sp) => Some((JsonV::Num(sp.0), sp.1)),
                None => None,
            }
        } else if tag == 3u8 {
            match dec_str_at(bytes, pos + 1) {
                Some(sp) => Some((JsonV::Str(sp.0), sp.1)),
                None => None,
            }
        } else if tag == 4u8 {
            if pos + 5 > bytes.len() {
                None
            } else {
                let n = dec_u32(bytes.subrange(pos + 1, pos + 5));
                match dec_items_at(bytes, pos + 5, n) {
                    Some(ip) => Some((JsonV::Arr(ip.0), ip.1)),
                    None => None,
                }
            }
        } else if tag == 5u8 {
            if pos + 5 > bytes.len() {
                None
            } else {
                let n = dec_u32(bytes.subrange(pos + 1, pos + 5));
                match dec_entries_at(bytes, pos + 5, n) {
                    Some(ep) => Some((JsonV::Obj(ep.0), ep.1)),
                    None => None,
                }
            }
        } else {
            None
        }
    }
}

/// `n` documents read in sequence starting at `pos`.
pub open spec fn dec_items_at(bytes: Seq<u8>, pos: int, n: int) -> Option<(Seq<JsonV>, int)>
    decreases bytes.len() - pos, 1int, n,
{
    if pos < 0 || pos > bytes.len() || n < 0 {
        None
    } else if n == 0 {
        Some((Seq::empty(), pos))
    } else {
        match json_dec_at(bytes, pos) {
            Some(vp) => {
                if vp.1 <= pos || vp.1 > bytes.len() {
                    None
                } else {
                    match dec_items_at(bytes, vp.1, n - 1) {
                        Some(rp) => Some((seq![vp.0] + rp.0, rp.1)),
                        None => None,
                    }
                }
            }
            None => None,
        }
    }
}

/// `n` key-value entries read in sequence starting at `pos`.
pub open spec fn dec_entries_at(bytes: Seq<u8>, pos: int, n: int) -> Option<
    (Seq<(Seq<char>, JsonV)>, int),
>
    decreases bytes.len() - pos, 1int, n,
{
    if pos < 0 || pos > bytes.len() || n < 0 {
        None
    } else if n == 0 {
        Some((Seq::empty(), pos))
    } else {
        match dec_str_at(bytes, pos) {
            Some(kp) => {
                if kp.1 <= pos || kp.1 > bytes.len() {
                    None
                } else {
                    match json_dec_at(bytes, kp.1) {
                        Some(vp) => {
                            if vp.1 <= kp.1 || vp.1 > bytes.len() {
                                None
                            } else {
                                match dec_entries_at(bytes, vp.1, n - 1) {
                                    Some(rp) => Some((seq![(kp.0, vp.0)] + rp.0, rp.1)),
                                    None => None,
                                }
                            }
                        }
                        None => None,
                    }
                }
            }
            None => None,
        }
    }
}

/// Reading where a document was written yields that document.
pub proof fn lemma_json_round_trip(w: JsonV, bytes: Seq<u8>, pos: int)
    requires
        json_fits(w),
        0 <= pos,
        pos + json_enc(w).len() <= bytes.len(),
        bytes.subrange(pos, pos + json_enc(w).len() as int) == json_enc(w),
    ensures
        json_dec_at(bytes, pos) == Some((w, pos + json_enc(w).len() as int)),
    decreases w, 0int,
{
    let enc = json_enc(w);
    assert forall|k: int| 0 <= k < enc.len() implies bytes[pos + k] == enc[k] by {
        assert(bytes.subrange(pos, pos + enc.len() as int)[k] == enc[k]);
    }
    match w {
        JsonV::Null => {
            assert(enc[0] == 0u8);
            assert(bytes[pos + 0] == enc[0]);
            assert(bytes[pos] == 0u8);
        }
        JsonV::Bool(b) => {
            assert(enc[0] == 1u8);
            assert(bytes[pos + 0] == enc[0]);
            assert(bytes[pos + 1] == enc[1]);
            assert(bytes[pos] == 1u8);
        }
        JsonV::Num(sv) => {
            assert(enc[0] == 2u8);
            assert(bytes[pos + 0] == enc[0]);
            assert(bytes[pos] == 2u8);
            let se = enc_str(sv);
            assert forall|k: int| 0 <= k < se.len() implies bytes.subrange(
                pos + 1,
                pos + 1 + se.len() as int,
            )[k] == se[k] by {
                assert(bytes[pos + 1 + k] == enc[1 + k]);
            }
            assert(bytes.subrange(pos + 1, pos + 1 + se.len() as int) =~= se);
            lemma_str_round_trip(sv, bytes, pos + 1);
        }
        JsonV::Str(sv) => {
            assert(enc[0] == 3u8);
            assert(bytes[pos + 0] == enc[0]);
            assert(bytes[pos] == 3u8);
            let se = enc_str(sv);
            assert forall|k: int| 0 <= k < se.len() implies bytes.subrange(
                pos + 1,
                pos + 1 + se.len() as int,
            )[k] == se[k] by {
                assert(bytes[pos + 1 + k] == enc[1 + k]);
            }
            assert(bytes.subrange(pos + 1, pos + 1 + se.len() as int) =~= se);
            lemma_str_round_trip(sv, bytes, pos + 1);
        }
        JsonV::Arr(items) => {
            assert(enc[0] == 4u8);
            assert(bytes[pos + 0] == enc[0]);
            assert(bytes[pos] == 4u8);
            let n = items.len() as int;
            assert forall|k: int| 0 <= k < 4 implies bytes.subrange(pos + 1, pos + 5)[k] == enc_u32(
                n,
            )[k] by {
                assert(bytes[pos + 1 + k] == enc[1 + k]);
            }
            assert(bytes.subrange(pos + 1, pos + 5) =~= enc_u32(n));
            lemma_u32_round_trip(n);
            let body = enc_items(items);
            assert forall|k: int| 0 <= k < body.len() implies bytes.subrange(
                pos + 5,
                pos + 5 + body.len() as int,
            )[k] == body[k] by {
                assert(bytes[pos + 5 + k] == enc[5 + k]);
            }
            assert(bytes.subrange(pos + 5, pos + 5 + body.len() as int) =~= body);
            lemma_items_round_trip(items, bytes, pos + 5);
        }
        JsonV::Obj(entries) => {
            assert(enc[0] == 5u8);
            assert(bytes[pos + 0] == enc[0]);
            assert(bytes[pos] == 5u8);
            let n = entries.len() as int;
            assert forall|k: int| 0 <= k < 4 implies bytes.subrange(pos + 1, pos + 5)[k] == enc_u32(
                n,
            )[k] by {
                assert(bytes[pos + 1 + k] == enc[1 + k]);
            }
            assert(bytes.subrange(pos + 1, pos + 5) =~= enc_u32(n));
            lemma_u32_round_trip(n);
            let body = enc_entries(entries);
            assert forall|k: int| 0 <= k < body.len() implies bytes.subrange(
                pos + 5,
                pos + 5 + body.len() as int,
            )[k] == body[k] by {
                assert(bytes[pos + 5 + k] == enc[5 + k]);
            }
            assert(bytes.subrange(pos + 5, pos + 5 + body.len() as int) =~= body);
            lemma_entries_round_trip(entries, bytes, pos + 5);
        }
    }
}

/// Reading where an item list was written yields those items.
pub proof fn lemma_items_round_trip(items: Seq<JsonV>, bytes: Seq<u8>, pos: int)
    requires
        forall|i: int| 0 <= i < items.len() ==> json_fits(#[trigger] items[i]),
        0 <= pos,
        pos + enc_items(items).len() <= bytes.len(),
        bytes.subrange(pos, pos + enc_items(items).len() as int) == enc_items(items),
    ensures
        dec_items_at(bytes, pos, items.len() as int) == Some(
            (items, pos + enc_items(items).len() as int),
        ),
    decreases items, 1int,
{
    if items.len() == 0 {
        assert(dec_items_at(bytes, pos, 0) == Some((Seq::<JsonV>::empty(), pos)));
        assert(items =~= Seq::<JsonV>::empty());
    } else {
        let first = items[0];
        let tail = items.drop_first();
        let fe = json_enc(first);
        let te = enc_items(tail);
        let whole = enc_items(items);
        assert(whole == fe + te);
        assert forall|k: int| 0 <= k < whole.len() implies bytes[pos + k] == whole[k] by {
            assert(bytes.subrange(pos, pos + whole.len() as int)[k] == whole[k]);
        }
        assert forall|k: int| 0 <= k < fe.len() implies bytes.subrange(
            pos,
            pos + fe.len() as int,
        )[k] == fe[k] by {
            assert(whole[k] == fe[k]);
        }
        assert(bytes.subrange(pos, pos + fe.len() as int) =~= fe);
        lemma_json_round_trip(first, bytes, pos);
        let p1 = pos + fe.len() as int;
        lemma_json_enc_len(first);
        assert forall|k: int| 0 <= k < te.len() implies bytes.subrange(
            p1,
            p1 + te.len() as int,
        )[k] == te[k] by {
            assert(whole[fe.len() + k] == te[k]);
            assert(bytes[p1 + k] == whole[fe.len() + k]);
        }
        assert(bytes.subrange(p1, p1 + te.len() as int) =~= te);
        lemma_items_round_trip(tail, bytes, p1);
        assert(seq![first] + tail =~= items);
    }
}

/// Reading where an entry list was written yields those entries.
pub proof fn lemma_entries_round_trip(entries: Seq<(Seq<char>, JsonV)>, bytes: Seq<u8>, pos: int)
    requires
        forall|i: int|
            0 <= i < entries.len() ==> str_fits((#[trigger] entries[i]).0) && json_fits(
                entries[i].1,
            ),
        0 <= pos,
        pos + enc_entries(entries).len() <= bytes.len(),
        bytes.subrange(pos, pos + enc_entries(entries).len() as int) == enc_entries(entries),
    ensures
        dec_entries_at(bytes, pos, entries.len() as int) == Some(
            (entries, pos + enc_entries(entries).len() as int),
        ),
    decreases entries, 1int,
{
    if entries.len() == 0 {
        assert(entries =~= Seq::<(Seq<char>, JsonV)>::empty());
    } else {
        let first = entries[0];
        let tail = entries.drop_first();
        let ke = enc_str(first.0);
        let ve = json_enc(first.1);
        let te = enc_entries(tail);
        let whole = enc_entries(entries);
        assert(whole == ke + ve + te);
        assert forall|k: int| 0 <= k < whole.len() implies bytes[pos + k] == whole[k] by {
            assert(bytes.subrange(pos, pos + whole.len() as int)[k] == whole[k]);
        }
        assert forall|k: int| 0 <= k < ke.len() implies bytes.subrange(
            pos,
            pos + ke.len() as int,
        )[k] == ke[k] by {
            assert(whole[k] == ke[k]);
        }
        assert(bytes.subrange(pos, pos + ke.len() as int) =~= ke);
        lemma_str_round_trip(first.0, bytes, pos);
        let p1 = pos + ke.len() as int;
        assert forall|k: int| 0 <= k < ve.len() implies bytes.subrange(
            p1,
            p1 + ve.len() as int,
        )[k] == ve[k] by {
            assert(whole[ke.len() + k] == ve[k]);
            assert(bytes[p1 + k] == whole[ke.len() + k]);
        }
        assert(bytes.subrange(p1, p1 + ve.len() as int) =~= ve);
        lemma_json_round_trip(first.1, bytes, p1);
        let p2 = p1 + ve.len() as int;
        lemma_json_enc_len(first.1);
        assert forall|k: int| 0 <= k < te.len() implies bytes.subrange(
            p2,
            p2 + te.len() as int,
        )[k] == te[k] by {
            assert(whole[ke.len() + ve.len() + k] == te[k]);
            assert(bytes[p2 + k] == whole[ke.len() + ve.len() + k]);
        }
        assert(bytes.subrange(p2, p2 + te.len() as int) =~= te);
        lemma_entries_round_trip(tail, bytes, p2);
        assert(seq![first] + tail =~= entries);
    }
}

/// Append the four little-endian bytes of a count.
pub fn push_u32(out: &mut Vec<u8>, n: u32)
    ensures
        final(out)@ == old(out)@ + enc_u32(n as int),
{
    out.push((n % 256) as u8);
    out.push(((n / 256) % 256) as u8);
    out.push(((n / 65536) % 256) as u8);
    out.push(((n / 16777216) % 256) as u8);
    proof {
        assert(final(out)@ =~= old(out)@ + enc_u32(n as int));
    }
}

/// Append the eight little-endian bytes of a magnitude.
fn push_u64(out: &mut Vec<u8>, n: u64)
    ensures
        final(out)@ == old(out)@ + enc_u64(n as int),
{
    out.push((n % 256) as u8);
    out.push(((n / 256) % 256) as u8);
    out.push(((n / 65536) % 256) as u8);
    out.push(((n / 16777216) % 256) as u8);
    out.push(((n / 0x1_0000_0000) % 256) as u8);
    out.push(((n / 0x100_0000_0000) % 256) as u8);
    out.push(((n / 0x1_0000_0000_0000) % 256) as u8);
    out.push(((n / 0x100_0000_0000_0000) % 256) as u8);
    proof {
        assert(final(out)@ =~= old(out)@ + enc_u64(n as int));
    }
}

/// Append the sign byte and magnitude of a signed instant.
pub fn push_i64(out: &mut Vec<u8>, n: i64)
    ensures
        final(out)@ == old(out)@ + enc_i64(n as int),
{
    if n < 0 {
        out.push(1u8);
        let mag: u64 = ((-(n + 1)) as u64) + 1;
        proof {
            assert(mag as int == -(n as int));
        }
        push_u64(out, mag);
        proof {
            assert(final(out)@ =~= old(out)@ + enc_i64(n as int));
        }
    } else {
        out.push(0u8);
        push_u64(out, n as u64);
        proof {
            assert(final(out)@ =~= old(out)@ + enc_i64(n as int));
        }
    }
}

/// The count held by the four bytes at `pos`.
pub fn read_u32(bytes: &Vec<u8>, pos: usize) -> (r: u32)
    requires
        pos + 4 <= bytes@.len(),
    ensures
        r as int == dec_u32(bytes@.subrange(pos as int, pos + 4)),
{
    let total: usize = bytes.len();
    let b0 = bytes[pos] as u32;
    let b1 = bytes[pos + 1] as u32;
    let b2 = bytes[pos + 2] as u32;
    let b3 = bytes[pos + 3] as u32;
    b0 + b1 * 256 + b2 * 65536 + b3 * 16777216
}

/// The instant held by the nine bytes at `pos`.  The magnitude must fit
/// a signed 64-bit value; a stray byte pattern that does not is refused.
pub fn read_i64(bytes: &Vec<u8>, pos: usize) -> (r: Result<i64, LaikaError>)
    requires
        pos + 9 <= bytes@.len(),
    ensures
        match r {
            Ok(n) => n as int == dec_i64(bytes@.subrange(pos as int, pos + 9)),
            Err(_) => !(-0x8000_0000_0000_0000 <= dec_i64(
                bytes@.subrange(pos as int, pos + 9),
            ) < 0x8000_0000_0000_0000),
        },
{
    let total: usize = bytes.len();
    let ghost chunk = bytes@.subrange(pos as int, pos + 9);
    let sign = bytes[pos];
    let b0 = bytes[pos + 1] as u64;
    let b1 = bytes[pos + 2] as u64;
    let b2 = bytes[pos + 3] as u64;
    let b3 = bytes[pos + 4] as u64;
    let b4 = bytes[pos + 5] as u64;
    let b5 = bytes[pos + 6] as u64;
    let b6 = bytes[pos + 7] as u64;
    let b7 = bytes[pos + 8] as u64;
    let mag: u64 = b0 + b1 * 256 + b2 * 65536 + b3 * 16777216 + b4 * 0x1_0000_0000 + b5
        * 0x100_0000_0000 + b6 * 0x1_0000_0000_0000 + b7 * 0x100_0000_0000_0000;
    proof {
        assert(chunk.drop_first() =~= bytes@.subrange(pos + 1, pos + 9));
        assert(mag as int == dec_u64(chunk.drop_first()));
    }
    if sign == 1u8 {
        if mag > 0x8000_0000_0000_0000u64 {
            return Err(LaikaError::IO("stored instant out of range".to_owned()));
        }
        if mag == 0x8000_0000_0000_0000u64 {
            Ok(i64::MIN)
        } else {
            Ok(-(mag as i64))
        }
    } else {
        if mag > 0x7fff_ffff_ffff_ffffu64 {
            return Err(LaikaError::IO("stored instant out of range".to_owned()));
        }
        Ok(mag as i64)
    }
}

/// Append a string: the length of its UTF-8 bytes, then the bytes.
pub fn push_str_chunk(out: &mut Vec<u8>, s: &String) -> (r: Result<(), LaikaError>)
    ensures
        r is Ok ==> str_fits(s@) && final(out)@ == old(out)@ + enc_str(s@),
        r is Err ==> !str_fits(s@),
{
    let content = s.as_str().as_bytes_vec();
    if content.len() as u64 > MAX_CHUNK {
        return Err(LaikaError::IO("string too long to store".to_owned()));
    }
    push_u32(out, content.len() as u32);
    let mut k: usize = 0;
    while k < content.len()
        invariant
            k <= content@.len(),
            content@ == encode_utf8(s@),
            out@ == old(out)@ + enc_u32(content@.len() as int) + content@.subrange(0, k as int),
        decreases content@.len() - k,
    {
        out.push(content[k]);
        k = k + 1;
        proof {
            assert(out@ =~= old(out)@ + enc_u32(content@.len() as int) + content@.subrange(
                0,
                k as int,
            ));
        }
    }
    proof {
        assert(content@.subrange(0, content@.len() as int) =~= content@);
        assert(out@ =~= old(out)@ + enc_str(s@));
    }
    Ok(())
}

/// Relies on `String::from_utf8`: succeeds exactly on valid UTF-8 and
/// decodes it to the characters that encode those bytes.
#[verifier::external_body]
fn string_from_utf8(v: Vec<u8>) -> (r: Option<String>)
    ensures
        r matches Some(s) ==> valid_utf8(v@) && s@ == decode_utf8(v@),
        r is None ==> !valid_utf8(v@),
{
    String::from_utf8(v).ok()
}

/// Read a string at `pos`: a length, then that many UTF-8 bytes.
pub fn read_str_chunk(bytes: &Vec<u8>, pos: usize) -> (r: Result<(String, usize), LaikaError>)
    ensures
        match r {
            Ok(sp) => dec_str_at(bytes@, pos as int) == Some((sp.0@, sp.1 as int)) && pos < sp.1
                <= bytes@.len(),
            Err(_) => dec_str_at(bytes@, pos as int) is None,
        },
{
    if pos > bytes.len() || bytes.len() - pos < 4 {
        return Err(LaikaError::IO("stored string truncated".to_owned()));
    }
    let n = read_u32(bytes, pos);
    let remaining: usize = bytes.len() - pos - 4;
    if (remaining as u64) < (n as u64) {
        return Err(LaikaError::IO("stored string truncated".to_owned()));
    }
    let end: usize = pos + 4 + (n as usize);
    let mut content: Vec<u8> = Vec::new();
    let mut k: usize = pos + 4;
    while k < end
        invariant
            pos + 4 <= k <= end <= bytes@.len(),
            content@ == bytes@.subrange(pos + 4, k as int),
        decreases end - k,
    {
        content.push(bytes[k]);
        k = k + 1;
        proof {
            assert(content@ =~= bytes@.subrange(pos + 4, k as int));
        }
    }
    proof {
        assert(content@ =~= bytes@.subrange(pos + 4, pos + 4 + n as int));
    }
    match string_from_utf8(content) {
        Some(text) => Ok((text, end)),
        None => Err(LaikaError::IO("stored string not UTF-8".to_owned())),
    }
}

/// Append a document's encoding.  Fails only when a string or count in
/// the document does not fit a 32-bit length.
pub fn json_encode_into(v: &Json, out: &mut Vec<u8>) -> (r: Result<(), LaikaError>)
    ensures
        r is Ok ==> json_fits(v@) && final(out)@ == old(out)@ + json_enc(v@),
        r is Err ==> !json_fits(v@),
    decreases v@,
{
    match v {
        Json::Null => {
            out.push(0u8);
            proof {
                assert(out@ =~= old(out)@ + json_enc(v@));
            }
            Ok(())
        }
        Json::Bool(b) => {
            out.push(1u8);
            if *b {
                out.push(1u8);
            } else {
                out.push(0u8);
            }
            proof {
                assert(out@ =~= old(out)@ + json_enc(v@));
            }
            Ok(())
        }
        Json::Num(text) => {
            out.push(2u8);
            match push_str_chunk(out, text) {
                Ok(_) => {
                    proof {
                        assert(out@ =~= old(out)@ + json_enc(v@));
                    }
                    Ok(())
                }
                Err(e) => Err(e),
            }
        }
        Json::Str(text) => {
            out.push(3u8);
            match push_str_chunk(out, text) {
                Ok(_) => {
                    proof {
                        assert(out@ =~= old(out)@ + json_enc(v@));
                    }
                    Ok(())
                }
                Err(e) => Err(e),
            }
        }
        Json::Arr(items) => {
            let ghost iv = items_view(items@);
            if items.len() as u64 > MAX_CHUNK {
                proof {
                    assert(!json_fits(v@));
                }
                return Err(LaikaError::IO("list too long to store".to_owned()));
            }
            out.push(4u8);
            push_u32(out, items.len() as u32);
            let ghost header = old(out)@ + seq![4u8] + enc_u32(items@.len() as int);
            proof {
                assert(out@ =~= header);
                assert(enc_items(iv.take(0)) =~= Seq::<u8>::empty());
                assert(out@ =~= header + enc_items(iv.take(0)));
            }
            let mut i: usize = 0;
            while i < items.len()
                invariant
                    i <= items@.len(),
                    iv == items_view(items@),
                    v@ == JsonV::Arr(iv),
                    out@ == header + enc_items(iv.take(i as int)),
                    forall|k: int| 0 <= k < i ==> json_fits(#[trigger] iv[k]),
                decreases items@.len() - i,
            {
                proof {
                    assert(decreases_to!(v@ => v@->Arr_0));
                    assert(decreases_to!(v@->Arr_0 => v@->Arr_0[i as int]));
                    assert(v@->Arr_0[i as int] == items@[i as int]@);
                }
                match json_encode_into(&items[i], out) {
                    Ok(_) => {}
                    Err(e) => {
                        proof {
                            assert(!json_fits(iv[i as int]));
                            assert(!json_fits(v@));
                        }
                        return Err(e);
                    }
                }
                i = i + 1;
                proof {
                    let t = iv.take(i as int);
                    assert(t.drop_last() =~= iv.take(i - 1));
                    assert(t.last() == iv[i - 1]);
                    lemma_enc_items_snoc(t);
                    assert(out@ =~= header + enc_items(t));
                }
            }
            proof {
                assert(iv.take(i as int) =~= iv);
                assert(json_fits(v@));
                assert(out@ =~= old(out)@ + json_enc(v@));
            }
            Ok(())
        }
        Json::Obj(entries) => {
            let ghost ev = entries_view(entries@);
            if entries.len() as u64 > MAX_CHUNK {
                proof {
                    assert(!json_fits(v@));
                }
                return Err(LaikaError::IO("object too long to store".to_owned()));
            }
            out.push(5u8);
            push_u32(out, entries.len() as u32);
            let ghost header = old(out)@ + seq![5u8] + enc_u32(entries@.len() as int);
            proof {
                assert(out@ =~= header);
                assert(enc_entries(ev.take(0)) =~= Seq::<u8>::empty());
                assert(out@ =~= header + enc_entries(ev.take(0)));
            }
            let mut i: usize = 0;
            while i < entries.len()
                invariant
                    i <= entries@.len(),
                    ev == entries_view(entries@),
                    v@ == JsonV::Obj(ev),
                    out@ == header + enc_entries(ev.take(i as int)),
                    forall|k: int|
                        0 <= k < i ==> str_fits((#[trigger] ev[k]).0) && json_fits(ev[k].1),
                decreases entries@.len() - i,
            {
                proof {
                    assert(ev[i as int] == (entries@[i as int].key@, entries@[i as int].value@));
                    assert(decreases_to!(v@ => v@->Obj_0));
                    assert(decreases_to!(v@->Obj_0 => v@->Obj_0[i as int]));
                    assert(decreases_to!(v@->Obj_0[i as int] => v@->Obj_0[i as int].1));
                    assert(v@->Obj_0[i as int].1 == entries@[i as int].value@);
                }
                match push_str_chunk(out, &entries[i].key) {
                    Ok(_) => {}
                    Err(e) => {
                        proof {
                            assert(!str_fits(ev[i as int].0));
                            assert(!json_fits(v@));
                        }
                        return Err(e);
                    }
                }
                match json_encode_into(&entries[i].value, out) {
                    Ok(_) => {}
                    Err(e) => {
                        proof {
                            assert(!json_fits(ev[i as int].1));
                            assert(!json_fits(v@));
                        }
                        return Err(e);
                    }
                }
                i = i + 1;
                proof {
                    let t = ev.take(i as int);
                    assert(t.drop_last() =~= ev.take(i - 1));
                    assert(t.last() == ev[i - 1]);
                    lemma_enc_entries_snoc(t);
                    assert(out@ =~= header + enc_entries(t));
                }
            }
            proof {
                assert(ev.take(i as int) =~= ev);
                assert(json_fits(v@));
                assert(out@ =~= old(out)@ + json_enc(v@));
            }
            Ok(())
        }
    }
}

/// Read the document at `pos`, with the position just past it.
#[verifier::loop_isolation(false)]
pub fn json_decode_from(bytes: &Vec<u8>, pos: usize) -> (r: Result<(Json, usize), LaikaError>)
    ensures
        match r {
            Ok(vp) => json_dec_at(bytes@, pos as int) == Some((vp.0@, vp.1 as int)) && pos < vp.1
                <= bytes@.len(),
            Err(_) => json_dec_at(bytes@, pos as int) is None,
        },
    decreases bytes@.len() - pos,
{
    if pos >= bytes.len() {
        return Err(LaikaError::IO("stored document truncated".to_owned()));
    }
    let tag = bytes[pos];
    if tag == 0u8 {
        Ok((Json::Null, pos + 1))
    } else if tag == 1u8 {
        if bytes.len() - pos >= 2 {
            Ok((Json::Bool(bytes[pos + 1] == 1u8), pos + 2))
        } else {
            Err(LaikaError::IO("stored document truncated".to_owned()))
        }
    } else if tag == 2u8 {
        match read_str_chunk(bytes, pos + 1) {
            Ok((text, end)) => Ok((Json::Num(text), end)),
            Err(e) => Err(e),
        }
    } else if tag == 3u8 {
        match read_str_chunk(bytes, pos + 1) {
            Ok((text, end)) => Ok((Json::Str(text), end)),
            Err(e) => Err(e),
        }
    } else if tag == 4u8 {
        if bytes.len() - pos < 5 {
            return Err(LaikaError::IO("stored document truncated".to_owned()));
        }
        let n = read_u32(bytes, pos + 1);
        let ghost n_spec = dec_u32(bytes@.subrange(pos + 1, pos + 5));
        proof {
            assert(bytes@[pos as int] == 4u8);
            assert(json_dec_at(bytes@, pos as int) == (match dec_items_at(
                bytes@,
                pos + 5,
                n_spec,
            ) {
                Some(ip) => Some::<(JsonV, int)>((JsonV::Arr(ip.0), ip.1)),
                None => None::<(JsonV, int)>,
            }));
        }
        let mut items: Vec<Json> = Vec::new();
        let mut cur: usize = pos + 5;
        let mut i: u32 = 0;
        proof {
            assert(dec_items_at(bytes@, cur as int, (n - i) as int) matches Some(rp) ==> (
            dec_items_at(bytes@, pos + 5, n_spec) == Some::<(Seq<JsonV>, int)>((
                items_view(items@) + rp.0,
                rp.1,
            ))));
            assert(dec_items_at(bytes@, cur as int, (n - i) as int) is None ==> dec_items_at(
                bytes@,
                pos + 5,
                n_spec,
            ) is None);
        }
        while i < n
            invariant
                pos + 5 <= cur <= bytes@.len(),
                i <= n,
                n_spec == n as int,
                (dec_items_at(bytes@, cur as int, (n - i) as int) matches Some(rp) ==> (
                dec_items_at(bytes@, pos + 5, n_spec) == Some::<(Seq<JsonV>, int)>((
                    items_view(items@) + rp.0,
                    rp.1,
                )))),
                (dec_items_at(bytes@, cur as int, (n - i) as int) is None ==> dec_items_at(
                    bytes@,
                    pos + 5,
                    n_spec,
                ) is None),
            decreases n - i,
        {
            let ghost pre_items = items@;
            let ghost pre_cur = cur as int;
            match json_decode_from(bytes, cur) {
                Ok((v, end)) => {
                    proof {
                        assert(json_dec_at(bytes@, pre_cur) == Some((v@, end as int)));
                    }
                    items.push(v);
                    cur = end;
                    proof {
                        assert(items_view(items@) =~= items_view(pre_items).push(
                            items@.last()@,
                        ));
                        assert forall|rp: (Seq<JsonV>, int)|
                            dec_items_at(bytes@, cur as int, (n - i - 1) as int) == Some::<
                            (Seq<JsonV>, int),
                        >(rp) implies dec_items_at(bytes@, pos + 5, n_spec) == Some::<
                            (Seq<JsonV>, int),
                        >((items_view(items@) + rp.0, rp.1)) by {
                            assert(dec_items_at(bytes@, pre_cur, (n - i) as int) == Some::<
                                (Seq<JsonV>, int),
                            >((seq![items@.last()@] + rp.0, rp.1)));
                            assert(items_view(pre_items) + (seq![items@.last()@] + rp.0)
                                =~= items_view(items@) + rp.0);
                        }
                        if dec_items_at(bytes@, cur as int, (n - i - 1) as int) is None {
                            assert(dec_items_at(bytes@, pre_cur, (n - i) as int) is None);
                        }
                    }
                    i = i + 1;
                }
                Err(e) => {
                    proof {
                        assert(dec_items_at(bytes@, pre_cur, (n - i) as int) is None);
                        assert(dec_items_at(bytes@, pos + 5, n_spec) is None);
                        assert(json_dec_at(bytes@, pos as int) is None);
                    }
                    return Err(e);
                }
            }
        }
        proof {
            assert(dec_items_at(bytes@, cur as int, 0) == Some((Seq::<JsonV>::empty(), cur as int)));
            assert(items_view(items@) + Seq::<JsonV>::empty() =~= items_view(items@));
            assert(dec_items_at(bytes@, pos + 5, n_spec) == Some::<(Seq<JsonV>, int)>((
                items_view(items@),
                cur as int,
            )));
        }
        Ok((Json::Arr(items), cur))
    } else if tag == 5u8 {
        if bytes.len() - pos < 5 {
            return Err(LaikaError::IO("stored document truncated".to_owned()));
        }
        let n = read_u32(bytes, pos + 1);
        let ghost n_spec = dec_u32(bytes@.subrange(pos + 1, pos + 5));
        proof {
            assert(bytes@[pos as int] == 5u8);
            assert(json_dec_at(bytes@, pos as int) == (match dec_entries_at(
                bytes@,
                pos + 5,
                n_spec,
            ) {
                Some(ep) => Some::<(JsonV, int)>((JsonV::Obj(ep.0), ep.1)),
                None => None::<(JsonV, int)>,
            }));
        }
        let mut entries: Vec<JsonEntry> = Vec::new();
        let mut cur: usize = pos + 5;
        let mut i: u32 = 0;
        proof {
            assert(dec_entries_at(bytes@, cur as int, (n - i) as int) matches Some(rp) ==> (
            dec_entries_at(bytes@, pos + 5, n_spec) == Some::<(Seq<(Seq<char>, JsonV)>, int)>((
                entries_view(entries@) + rp.0,
                rp.1,
            ))));
        }
        while i < n
            invariant
                pos + 5 <= cur <= bytes@.len(),
                i <= n,
                n_spec == n as int,
                (dec_entries_at(bytes@, cur as int, (n - i) as int) matches Some(rp) ==> (
                dec_entries_at(bytes@, pos + 5, n_spec) == Some::<(Seq<(Seq<char>, JsonV)>, int)>((
                    entries_view(entries@) + rp.0,
                    rp.1,
                )))),
                (dec_entries_at(bytes@, cur as int, (n - i) as int) is None ==> dec_entries_at(
                    bytes@,
                    pos + 5,
                    n_spec,
                ) is None),
            decreases n - i,
        {
            let ghost pre_entries = entries@;
            let ghost pre_cur = cur as int;
            let (key, kend) = match read_str_chunk(bytes, cur) {
                Ok(kp) => kp,
                Err(e) => {
                    proof {
                        assert(dec_entries_at(bytes@, pre_cur, (n - i) as int) is None);
                        assert(dec_entries_at(bytes@, pos + 5, n_spec) is None);
                        assert(json_dec_at(bytes@, pos as int) is None);
                    }
                    return Err(e);
                }
            };
            match json_decode_from(bytes, kend) {
                Ok((v, end)) => {
                    entries.push(JsonEntry { key, value: v });
                    cur = end;
                    proof {
                        let last = entries@.last();
                        assert(entries_view(entries@) =~= entries_view(pre_entries).push(
                            (last.key@, last.value@),
                        ));
                        assert forall|rp: (Seq<(Seq<char>, JsonV)>, int)|
                            dec_entries_at(bytes@, cur as int, (n - i - 1) as int) == Some::<
                            (Seq<(Seq<char>, JsonV)>, int),
                        >(rp) implies dec_entries_at(bytes@, pos + 5, n_spec) == Some::<
                            (Seq<(Seq<char>, JsonV)>, int),
                        >((entries_view(entries@) + rp.0, rp.1)) by {
                            assert(dec_entries_at(bytes@, pre_cur, (n - i) as int) == Some::<
                                (Seq<(Seq<char>, JsonV)>, int),
                            >((seq![(last.key@, last.value@)] + rp.0, rp.1)));
                            assert(entries_view(pre_entries) + (seq![(last.key@, last.value@)]
                                + rp.0) =~= entries_view(entries@) + rp.0);
                        }
                        if dec_entries_at(bytes@, cur as int, (n - i - 1) as int) is None {
                            assert(dec_entries_at(bytes@, pre_cur, (n - i) as int) is None);
                        }
                    }
                    i = i + 1;
                }
                Err(e) => {
                    proof {
                        assert(dec_entries_at(bytes@, pre_cur, (n - i) as int) is None);
                        assert(dec_entries_at(bytes@, pos + 5, n_spec) is None);
                        assert(json_dec_at(bytes@, pos as int) is None);
                    }
                    return Err(e);
                }
            }
        }
        proof {
            assert(dec_entries_at(bytes@, cur as int, 0) == Some((
                Seq::<(Seq<char>, JsonV)>::empty(),
                cur as int,
            )));
            assert(entries_view(entries@) + Seq::<(Seq<char>, JsonV)>::empty() =~= entries_view(
                entries@,
            ));
        }
        Ok((Json::Obj(entries), cur))
    } else {
        Err(LaikaError::IO("stored document corrupt".to_owned()))
    }
}

} // verus!


