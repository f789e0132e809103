//! The stored form of classified events: fixed binary records and
//! batches, built on the byte codec.
//!
//! A record is an instant, the correlation key, the event type and the
//! payload's encoded bytes.  A batch is a count followed by that many
//! records.  Decoding a batch recovers exactly the records that were
//! encoded, in order.

use vstd::prelude::*;

use crate::codec::{
    MAX_CHUNK, dec_str_at, dec_i64, dec_u32, enc_i64, enc_str, enc_u32, json_enc, json_fits,
    json_dec_at, json_decode_from, json_encode_into, lemma_i64_round_trip, lemma_str_round_trip,
    lemma_u32_round_trip, push_i64, push_str_chunk, push_u32, read_i64, read_str_chunk, read_u32,
};
use crate::errors::{LaikaError, LaikaResult};
use crate::event::CorrelatedEvent;

verus! {

broadcast use vstd::std_specs::vec::group_vec_axioms, vstd::seq::group_seq_axioms;

/// What one stored record holds: the instant, the correlation key, the
/// event type, and the payload bytes.
pub type RecordV = (int, Seq<char>, Seq<char>, Seq<u8>);

/// A stored correlated event: the payload is held as encoded bytes.
#[derive(Debug)]
pub struct CorrelatedEventCapnp {
    pub received: i64,
    pub correlation_id: String,
    pub event_type: String,
    pub data: Vec<u8>,
}

impl CorrelatedEventCapnp {
    /// What the record holds.
    pub open spec fn view(&self) -> RecordV {
        (self.received as int, self.correlation_id@, self.event_type@, self.data@)
    }
}

impl Clone for CorrelatedEventCapnp {
    /// An equal copy of the record.
    fn clone(&self) -> (r: Self)
        ensures
            r.view() == self.view(),
    {
        CorrelatedEventCapnp {
            received: self.received,
            correlation_id: self.correlation_id.clone(),
            event_type: self.event_type.clone(),
            data: self.data.clone(),
        }
    }
}

/// A stored non-correlated event: the payload is held as encoded bytes.
#[derive(Debug)]
pub struct NonCorrelatedEventCapnp {
    pub received: i64,
    pub event_id: String,
    pub event_type: String,
    pub data: Vec<u8>,
}

impl NonCorrelatedEventCapnp {
    /// What the record holds.
    pub open spec fn view(&self) -> RecordV {
        (self.received as int, self.event_id@, self.event_type@, self.data@)
    }

    /// Append the record's bytes.
    pub fn write_capnp(&self, out: &mut Vec<u8>) -> (r: Result<(), LaikaError>)
        ensures
            r is Ok ==> rec_fits(self.view()) && final(out)@ == old(out)@ + rec_enc(self.view()),
            r is Err ==> !rec_fits(self.view()),
    {
        write_record(self.received, &self.event_id, &self.event_type, &self.data, out)
    }

    /// Read a record's bytes at `pos`.
    pub fn read_capnp(bytes: &Vec<u8>, pos: usize) -> (r: Result<(Self, usize), LaikaError>)
        ensures
            match r {
                Ok(rp) => rec_dec_at(bytes@, pos as int) == Some((rp.0.view(), rp.1 as int)) && pos
                    < rp.1 <= bytes@.len(),
                Err(_) => rec_dec_at(bytes@, pos as int) is None,
            },
    {
        match read_record(bytes, pos) {
            Ok((received, key, event_type, data, end)) => Ok(
                (NonCorrelatedEventCapnp { received, event_id: key, event_type, data }, end),
            ),
            Err(e) => Err(e),
        }
    }
}

/// A batch of stored correlated events, in append order.
#[derive(Debug)]
pub struct CorrelatedEventCapnpBatch {
    pub events: Vec<CorrelatedEventCapnp>,
}

/// A batch of stored non-correlated events, in append order.
#[derive(Debug)]
pub struct NonCorrelatedEventCapnpBatch {
    pub events: Vec<NonCorrelatedEventCapnp>,
}

/// What a sequence of records holds.
pub open spec fn recs_view(s: Seq<CorrelatedEventCapnp>) -> Seq<RecordV> {
    Seq::new(
        s.len(),
        |i: int|
            if 0 <= i < s.len() {
                s[i].view()
            } else {
                (0int, Seq::<char>::empty(), Seq::<char>::empty(), Seq::<u8>::empty())
            },
    )
}

/// A record fits the format: instant in signed 64-bit range, strings and
/// payload within 32-bit lengths.
pub open spec fn rec_fits(r: RecordV) -> bool {
    &&& -0x8000_0000_0000_0000 <= r.0 < 0x8000_0000_0000_0000
    &&& crate::codec::str_fits(r.1)
    &&& crate::codec::str_fits(r.2)
    &&& r.3.len() <= MAX_CHUNK
}

/// One record's bytes: instant, key, type, then the payload behind a
/// length.
pub open spec fn rec_enc(r: RecordV) -> Seq<u8> {
    enc_i64(r.0) + enc_str(r.1) + enc_str(r.2) + enc_u32(r.3.len() as int) + r.3
}

/// The bytes of records in order.
pub open spec fn recs_enc(rs: Seq<RecordV>) -> Seq<u8>
    decreases rs.len(),
{
    if rs.len() == 0 {
        Seq::empty()
    } else {
        rec_enc(rs[0]) + recs_enc(rs.drop_first())
    }
}

/// A batch's bytes: the record count, then the records.
pub open spec fn batch_enc(rs: Seq<RecordV>) -> Seq<u8> {
    enc_u32(rs.len() as int) + recs_enc(rs)
}

/// A batch fits the format when its count and every record do.
pub open spec fn batch_fits(rs: Seq<RecordV>) -> bool {
    rs.len() <= MAX_CHUNK && (forall|i: int| 0 <= i < rs.len() ==> rec_fits(#[trigger] rs[i]))
}

/// A record list encodes as everything up to the last record, then the
/// last.
pub proof fn lemma_recs_enc_snoc(rs: Seq<RecordV>)
    requires
        rs.len() > 0,
    ensures
        recs_enc(rs) == recs_enc(rs.drop_last()) + rec_enc(rs.last()),
    decreases rs.len(),
{
    if rs.len() == 1 {
        assert(rs.drop_last() =~= Seq::<RecordV>::empty());
        assert(rs.drop_first() =~= Seq::<RecordV>::empty());
        assert(recs_enc(rs) =~= recs_enc(rs.drop_last()) + rec_enc(rs.last()));
    } else {
        let tail = rs.drop_first();
        lemma_recs_enc_snoc(tail);
        assert(rs.drop_last().drop_first() =~= tail.drop_last());
        assert(rs.drop_last()[0] == rs[0]);
        assert(tail.last() == rs.last());
        assert(recs_enc(rs) =~= recs_enc(rs.drop_last()) + rec_enc(rs.last()));
    }
}

/// The record read at `pos`, with the position just past it.
pub open spec fn rec_dec_at(bytes: Seq<u8>, pos: int) -> Option<(RecordV, int)> {
    if pos < 0 || pos + 9 > bytes.len() {
        None
    } else {
        let t = dec_i64(bytes.subrange(pos, pos + 9));
        if !(-0x8000_0000_0000_0000 <= t < 0x8000_0000_0000_0000) {
            None
        } else {
            match dec_str_at(bytes, pos + 9) {
                Some(kp) => match dec_str_at(bytes, kp.1) {
                    Some(tp) => {
                        if tp.1 + 4 > bytes.len() {
                            None
                        } else {
                            let n = dec_u32(bytes.subrange(tp.1, tp.1 + 4));
                            if tp.1 + 4 + n > bytes.len() {
                                None
                            } else {
                                Some(
                                    (
                                        (
                                            t,
                                            kp.0,
                                            tp.0,
                                            bytes.subrange(tp.1 + 4, tp.1 + 4 + n),
                                        ),
                                        tp.1 + 4 + n,
                                    ),
                                )
                            }
                        }
                    }
                    None => None,
                },
                None => None,
            }
        }
    }
}

/// `n` records read in sequence starting at `pos`.
pub open spec fn recs_dec_at(bytes: Seq<u8>, pos: int, n: int) -> Option<(Seq<RecordV>, int)>
    decreases n,
{
    if pos < 0 || pos > bytes.len() || n < 0 {
        None
    } else if n == 0 {
        Some((Seq::empty(), pos))
    } else {
        match rec_dec_at(bytes, pos) {
            Some(rp) => {
                if rp.1 <= pos || rp.1 > bytes.len() {
                    None
                } else {
                    match recs_dec_at(bytes, rp.1, n - 1) {
                        Some(rest) => Some((seq![rp.0] + rest.0, rest.1)),
                        None => None,
                    }
                }
            }
            None => None,
        }
    }
}

/// The records a batch's bytes hold: a count, then exactly that many
/// records, with nothing after them.
pub open spec fn batch_dec(bytes: Seq<u8>) -> Option<Seq<RecordV>> {
    if bytes.len() < 4 {
        None
    } else {
        let n = dec_u32(bytes.subrange(0, 4));
        match recs_dec_at(bytes, 4, n) {
            Some(rp) => {
                if rp.1 == bytes.len() {
                    Some(rp.0)
                } else {
                    None
                }
            }
            None => None,
        }
    }
}

/// Reading where a record was written yields that record.
#[verifier::rlimit(80)]
pub proof fn lemma_rec_round_trip(r: RecordV, bytes: Seq<u8>, pos: int)
    requires
        rec_fits(r),
        0 <= pos,
        pos + rec_enc(r).len() <= bytes.len(),
        bytes.subrange(pos, pos + rec_enc(r).len() as int) == rec_enc(r),
    ensures
        rec_dec_at(bytes, pos) == Some((r, pos + rec_enc(r).len() as int)),
{
    let enc = rec_enc(r);
    assert forall|k: int| 0 <= k < enc.len() implies bytes[pos + k] == enc[k] by {
        assert(bytes.subrange(pos, pos + enc.len() as int)[k] == enc[k]);
    }
    let te = enc_i64(r.0);
    lemma_i64_round_trip(r.0);
    assert forall|k: int| 0 <= k < 9 implies bytes.subrange(pos, pos + 9)[k] == te[k] by {
        assert(bytes[pos + k] == enc[k]);
    }
    assert(bytes.subrange(pos, pos + 9) =~= te);
    let ke = enc_str(r.1);
    let p1 = pos + 9;
    assert forall|k: int| 0 <= k < ke.len() implies bytes.subrange(p1, p1 + ke.len() as int)[k]
        == ke[k] by {
        assert(bytes[p1 + k] == enc[9 + k]);
    }
    assert(bytes.subrange(p1, p1 + ke.len() as int) =~= ke);
    lemma_str_round_trip(r.1, bytes, p1);
    let ee = enc_str(r.2);
    let p2 = p1 + ke.len() as int;
    assert forall|k: int| 0 <= k < ee.len() implies bytes.subrange(p2, p2 + ee.len() as int)[k]
        == ee[k] by {
        assert(bytes[p2 + k] == enc[9 + ke.len() + k]);
    }
    assert(bytes.subrange(p2, p2 + ee.len() as int) =~= ee);
    lemma_str_round_trip(r.2, bytes, p2);
    let p3 = p2 + ee.len() as int;
    let dn = r.3.len() as int;
    assert forall|k: int| 0 <= k < 4 implies bytes.subrange(p3, p3 + 4)[k] == enc_u32(dn)[k] by {
        assert(bytes[p3 + k] == enc[9 + ke.len() + ee.len() + k]);
    }
    assert(bytes.subrange(p3, p3 + 4) =~= enc_u32(dn));
    lemma_u32_round_trip(dn);
    assert forall|k: int| 0 <= k < dn implies bytes.subrange(p3 + 4, p3 + 4 + dn)[k] == r.3[k] by {
        assert(bytes[p3 + 4 + k] == enc[9 + ke.len() + ee.len() + 4 + k]);
    }
    assert(bytes.subrange(p3 + 4, p3 + 4 + dn) =~= r.3);
}

/// Reading where a record list was written yields those records.
#[verifier::rlimit(60)]
pub proof fn lemma_recs_round_trip(rs: Seq<RecordV>, bytes: Seq<u8>, pos: int)
    requires
        forall|i: int| 0 <= i < rs.len() ==> rec_fits(#[trigger] rs[i]),
        0 <= pos,
        pos + recs_enc(rs).len() <= bytes.len(),
        bytes.subrange(pos, pos + recs_enc(rs).len() as int) == recs_enc(rs),
    ensures
        recs_dec_at(bytes, pos, rs.len() as int) == Some(
            (rs, pos + recs_enc(rs).len() as int),
        ),
    decreases rs.len(),
{
    if rs.len() == 0 {
        assert(rs =~= Seq::<RecordV>::empty());
    } else {
        let first = rs[0];
        let tail = rs.drop_first();
        let fe = rec_enc(first);
        let te = recs_enc(tail);
        let whole = recs_enc(rs);
        assert(whole == fe + te);
        assert forall|k: int| 0 <= k < whole.len() implies bytes[pos + k] == whole[k] by {
            assert(bytes.subrange(pos, pos + whole.len() as int)[k] == whole[k]);
        }
        assert forall|k: int| 0 <= k < fe.len() implies bytes.subrange(
            pos,
            pos + fe.len() as int,
        )[k] == fe[k] by {
            assert(whole[k] == fe[k]);
        }
        assert(bytes.subrange(pos, pos + fe.len() as int) =~= fe);
        lemma_rec_round_trip(first, bytes, pos);
        let p1 = pos + fe.len() as int;
        assert forall|k: int| 0 <= k < te.len() implies bytes.subrange(
            p1,
            p1 + te.len() as int,
        )[k] == te[k] by {
            assert(whole[fe.len() + k] == te[k]);
            assert(bytes[p1 + k] == whole[fe.len() + k]);
        }
        assert(bytes.subrange(p1, p1 + te.len() as int) =~= te);
        lemma_recs_round_trip(tail, bytes, p1);
        assert(seq![first] + tail =~= rs);
    }
}

/// Encoding a batch of records and decoding the bytes yields the same
/// records, in the same order.
pub proof fn lemma_batch_round_trip(rs: Seq<RecordV>)
    requires
        batch_fits(rs),
    ensures
        batch_dec(batch_enc(rs)) == Some(rs),
{
    let bytes = batch_enc(rs);
    lemma_u32_round_trip(rs.len() as int);
    assert(bytes.subrange(0, 4) =~= enc_u32(rs.len() as int));
    assert(bytes.subrange(4, 4 + recs_enc(rs).len() as int) =~= recs_enc(rs));
    lemma_recs_round_trip(rs, bytes, 4);
}

fn write_record(
    received: i64,
    key: &String,
    event_type: &String,
    data: &Vec<u8>,
    out: &mut Vec<u8>,
) -> (r: Result<(), LaikaError>)
    ensures
        r is Ok ==> rec_fits((received as int, key@, event_type@, data@)) && final(out)@ == old(
            out,
        )@ + rec_enc((received as int, key@, event_type@, data@)),
        r is Err ==> !rec_fits((received as int, key@, event_type@, data@)),
{
    let ghost rv: RecordV = (received as int, key@, event_type@, data@);
    if data.len() as u64 > MAX_CHUNK {
        return Err(LaikaError::IO("payload too long to store".to_owned()));
    }
    push_i64(out, received);
    match push_str_chunk(out, key) {
        Ok(_) => {}
        Err(e) => {
            return Err(e);
        }
    }
    match push_str_chunk(out, event_type) {
        Ok(_) => {}
        Err(e) => {
            return Err(e);
        }
    }
    push_u32(out, data.len() as u32);
    let mut k: usize = 0;
    let ghost mid = out@;
    while k < data.len()
        invariant
            k <= data@.len(),
            out@ == mid + data@.subrange(0, k as int),
        decreases data@.len() - k,
    {
        out.push(data[k]);
        k = k + 1;
        proof {
            assert(out@ =~= mid + data@.subrange(0, k as int));
        }
    }
    proof {
        assert(data@.subrange(0, data@.len() as int) =~= data@);
        assert(out@ =~= old(out)@ + rec_enc(rv));
    }
    Ok(())
}

fn read_record(bytes: &Vec<u8>, pos: usize) -> (r: Result<
    (i64, String, String, Vec<u8>, usize),
    LaikaError,
>)
    ensures
        match r {
            Ok(rp) => rec_dec_at(bytes@, pos as int) == Some(
                ((rp.0 as int, rp.1@, rp.2@, rp.3@), rp.4 as int),
            ) && pos < rp.4 <= bytes@.len(),
            Err(_) => rec_dec_at(bytes@, pos as int) is None,
        },
{
    if pos > bytes.len() || bytes.len() - pos < 9 {
        return Err(LaikaError::IO("stored record truncated".to_owned()));
    }
    let received = match read_i64(bytes, pos) {
        Ok(t) => t,
        Err(e) => {
            return Err(e);
        }
    };
    proof {
        assert(received as int == dec_i64(bytes@.subrange(pos as int, pos + 9)));
    }
    let (key, p1) = match read_str_chunk(bytes, pos + 9) {
        Ok(kp) => kp,
        Err(e) => {
            return Err(e);
        }
    };
    let (event_type, p2) = match read_str_chunk(bytes, p1) {
        Ok(tp) => tp,
        Err(e) => {
            return Err(e);
        }
    };
    if bytes.len() - p2 < 4 {
        return Err(LaikaError::IO("stored record truncated".to_owned()));
    }
    let n = read_u32(bytes, p2);
    let remaining: usize = bytes.len() - p2 - 4;
    if (remaining as u64) < (n as u64) {
        return Err(LaikaError::IO("stored record truncated".to_owned()));
    }
    let end: usize = p2 + 4 + (n as usize);
    let mut data: Vec<u8> = Vec::new();
    let mut k: usize = p2 + 4;
    while k < end
        invariant
            p2 + 4 <= k <= end <= bytes@.len(),
            data@ == bytes@.subrange(p2 + 4, k as int),
        decreases end - k,
    {
        data.push(bytes[k]);
        k = k + 1;
        proof {
            assert(data@ =~= bytes@.subrange(p2 + 4, k as int));
        }
    }
    proof {
        assert(data@ =~= bytes@.subrange(p2 + 4, p2 + 4 + n as int));
    }
    Ok((received, key, event_type, data, end))
}

impl CorrelatedEventCapnp {
    /// The stored form of a correlated event: the payload becomes its
    /// encoded bytes.  Fails only when the payload does not fit the
    /// format.
    pub fn try_from(value: CorrelatedEvent) -> (r: Result<Self, LaikaError>)
        ensures
            match r {
                Ok(c) => c.view() == (
                    value.received as int,
                    value.correlation_id@,
                    value.event_type@,
                    json_enc(value.data@),
                ) && json_fits(value.data@),
                Err(_) => !json_fits(value.data@),
            },
    {
        let mut data: Vec<u8> = Vec::new();
        match json_encode_into(&value.data, &mut data) {
            Ok(_) => {
                proof {
                    assert(data@ =~= json_enc(value.data@));
                }
                Ok(
                    CorrelatedEventCapnp {
                        received: value.received,
                        correlation_id: value.correlation_id,
                        event_type: value.event_type,
                        data,
                    },
                )
            }
            Err(e) => Err(e),
        }
    }

    /// The correlated event a stored record holds: the payload bytes are
    /// decoded back into a document.  Fails exactly when the payload
    /// bytes do not decode.
    pub fn into_event(self) -> (r: Result<CorrelatedEvent, LaikaError>)
        ensures
            match r {
                Ok(e) => {
                    &&& e.received == self.received
                    &&& e.correlation_id@ == self.correlation_id@
                    &&& e.event_type@ == self.event_type@
                    &&& json_dec_at(self.data@, 0) matches Some(vp) && vp.0 == e.data@
                },
                Err(_) => json_dec_at(self.data@, 0) is None,
            },
    {
        match json_decode_from(&self.data, 0) {
            Ok((data, _)) => Ok(
                CorrelatedEvent {
                    received: self.received,
                    correlation_id: self.correlation_id,
                    event_type: self.event_type,
                    data,
                },
            ),
            Err(e) => Err(e),
        }
    }

    /// Append the record's bytes.
    pub fn write_capnp(&self, out: &mut Vec<u8>) -> (r: Result<(), LaikaError>)
        ensures
            r is Ok ==> rec_fits(self.view()) && final(out)@ == old(out)@ + rec_enc(self.view()),
            r is Err ==> !rec_fits(self.view()),
    {
        write_record(self.received, &self.correlation_id, &self.event_type, &self.data, out)
    }

    /// Read a record's bytes at `pos`.
    pub fn read_capnp(bytes: &Vec<u8>, pos: usize) -> (r: Result<(Self, usize), LaikaError>)
        ensures
            match r {
                Ok(rp) => rec_dec_at(bytes@, pos as int) == Some((rp.0.view(), rp.1 as int)) && pos
                    < rp.1 <= bytes@.len(),
                Err(_) => rec_dec_at(bytes@, pos as int) is None,
            },
    {
        match read_record(bytes, pos) {
            Ok((received, key, event_type, data, end)) => Ok(
                (CorrelatedEventCapnp { received, correlation_id: key, event_type, data }, end),
            ),
            Err(e) => Err(e),
        }
    }
}

impl CorrelatedEventCapnpBatch {
    /// An empty batch.
    pub fn new() -> (r: Self)
        ensures
            r.events@.len() == 0,
    {
        CorrelatedEventCapnpBatch { events: Vec::new() }
    }

    /// Append one correlated event to the batch.
    pub fn push_event(&mut self, event: CorrelatedEvent) -> (r: LaikaResult<()>)
        ensures
            r is Ok ==> {
                &&& final(self).events@.len() == old(self).events@.len() + 1
                &&& recs_view(final(self).events@) == recs_view(old(self).events@).push(
                    (
                        event.received as int,
                        event.correlation_id@,
                        event.event_type@,
                        json_enc(event.data@),
                    ),
                )
                &&& json_fits(event.data@)
            },
            r is Err ==> !json_fits(event.data@) && *final(self) == *old(self),
    {
        match CorrelatedEventCapnp::try_from(event) {
            Ok(rec) => {
                self.events.push(rec);
                proof {
                    assert(recs_view(self.events@) =~= recs_view(old(self).events@).push(
                        self.events@.last().view(),
                    ));
                }
                Ok(())
            }
            Err(e) => Err(e),
        }
    }

    /// The batch's bytes: a count, then each record in order.
    #[verifier::loop_isolation(false)]
    pub fn to_bytes(&self) -> (r: Result<Vec<u8>, LaikaError>)
        ensures
            match r {
                Ok(bytes) => batch_fits(recs_view(self.events@)) && bytes@ == batch_enc(
                    recs_view(self.events@),
                ),
                Err(_) => !batch_fits(recs_view(self.events@)),
            },
    {
        let ghost rv = recs_view(self.events@);
        if self.events.len() as u64 > MAX_CHUNK {
            return Err(LaikaError::IO("batch too long to store".to_owned()));
        }
        let mut out: Vec<u8> = Vec::new();
        push_u32(&mut out, self.events.len() as u32);
        let ghost header = enc_u32(self.events@.len() as int);
        proof {
            assert(out@ =~= header);
            assert(recs_enc(rv.take(0)) =~= Seq::<u8>::empty());
            assert(out@ =~= header + recs_enc(rv.take(0)));
        }
        let mut i: usize = 0;
        while i < self.events.len()
            invariant
                i <= self.events@.len(),
                rv == recs_view(self.events@),
                out@ == header + recs_enc(rv.take(i as int)),
                header == enc_u32(self.events@.len() as int),
                forall|k: int| 0 <= k < i ==> rec_fits(#[trigger] rv[k]),
            decreases self.events@.len() - i,
        {
            match self.events[i].write_capnp(&mut out) {
                Ok(_) => {}
                Err(e) => {
                    proof {
                        assert(!rec_fits(rv[i as int]));
                    }
                    return Err(e);
                }
            }
            i = i + 1;
            proof {
                let t = rv.take(i as int);
                assert(t.drop_last() =~= rv.take(i - 1));
                assert(t.last() == rv[i - 1]);
                lemma_recs_enc_snoc(t);
                assert(out@ =~= header + recs_enc(t));
            }
        }
        proof {
            assert(rv.take(i as int) =~= rv);
            assert(out@ =~= batch_enc(rv));
        }
        Ok(out)
    }

    /// The batch the given bytes hold.  The whole byte string must be
    /// one batch: a count, that many records, nothing more.
    #[verifier::loop_isolation(false)]
    pub fn from_bytes(bytes: &Vec<u8>) -> (r: Result<Self, LaikaError>)
        ensures
            match r {
                Ok(batch) => batch_dec(bytes@) == Some(recs_view(batch.events@)),
                Err(_) => batch_dec(bytes@) is None,
            },
    {
        if bytes.len() < 4 {
            return Err(LaikaError::IO("stored batch truncated".to_owned()));
        }
        let n = read_u32(bytes, 0);
        let ghost n_spec = dec_u32(bytes@.subrange(0, 4));
        let mut events: Vec<CorrelatedEventCapnp> = Vec::new();
        let mut cur: usize = 4;
        let mut i: u32 = 0;
        proof {
            assert(recs_dec_at(bytes@, cur as int, (n - i) as int) matches Some(rp) ==> (
            recs_dec_at(bytes@, 4, n_spec) == Some::<(Seq<RecordV>, int)>((
                recs_view(events@) + rp.0,
                rp.1,
            ))));
        }
        while i < n
            invariant
                4 <= cur <= bytes@.len(),
                i <= n,
                n_spec == n as int,
                bytes@.len() >= 4,
                (recs_dec_at(bytes@, cur as int, (n - i) as int) matches Some(rp) ==> (
                recs_dec_at(bytes@, 4, n_spec) == Some::<(Seq<RecordV>, int)>((
                    recs_view(events@) + rp.0,
                    rp.1,
                )))),
                (recs_dec_at(bytes@, cur as int, (n - i) as int) is None ==> recs_dec_at(
                    bytes@,
                    4,
                    n_spec,
                ) is None),
            decreases n - i,
        {
            let ghost pre_events = events@;
            let ghost pre_cur = cur as int;
            match CorrelatedEventCapnp::read_capnp(bytes, cur) {
                Ok((rec, end)) => {
                    events.push(rec);
                    cur = end;
                    proof {
                        assert(recs_view(events@) =~= recs_view(pre_events).push(
                            events@.last().view(),
                        ));
                        assert forall|rp: (Seq<RecordV>, int)|
                            recs_dec_at(bytes@, cur as int, (n - i - 1) as int) == Some::<
                            (Seq<RecordV>, int),
                        >(rp) implies recs_dec_at(bytes@, 4, n_spec) == Some::<
                            (Seq<RecordV>, int),
                        >((recs_view(events@) + rp.0, rp.1)) by {
                            assert(recs_dec_at(bytes@, pre_cur, (n - i) as int) == Some::<
                                (Seq<RecordV>, int),
                            >((seq![events@.last().view()] + rp.0, rp.1)));
                            assert(recs_view(pre_events) + (seq![events@.last().view()] + rp.0)
                                =~= recs_view(events@) + rp.0);
                        }
                        if recs_dec_at(bytes@, cur as int, (n - i - 1) as int) is None {
                            assert(recs_dec_at(bytes@, pre_cur, (n - i) as int) is None);
                        }
                    }
                    i = i + 1;
                }
                Err(e) => {
                    proof {
                        assert(recs_dec_at(bytes@, pre_cur, (n - i) as int) is None);
                        assert(recs_dec_at(bytes@, 4, n_spec) is None);
                        assert(batch_dec(bytes@) is None);
                    }
                    return Err(e);
                }
            }
        }
        proof {
            assert(recs_dec_at(bytes@, cur as int, 0) == Some((Seq::<RecordV>::empty(), cur as int)));
            assert(recs_view(events@) + Seq::<RecordV>::empty() =~= recs_view(events@));
        }
        if cur != bytes.len() {
            proof {
                assert(batch_dec(bytes@) is None);
            }
            return Err(LaikaError::IO("stored batch has trailing bytes".to_owned()));
        }
        Ok(CorrelatedEventCapnpBatch { events })
    }

    /// The correlated events the batch holds, in order.  Fails exactly
    /// when some record's payload bytes do not decode.
    #[verifier::loop_isolation(false)]
    pub fn into_events(self) -> (r: LaikaResult<Vec<CorrelatedEvent>>)
        ensures
            match r {
                Ok(events) => {
                    &&& events@.len() == self.events@.len()
                    &&& forall|i: int|
                        0 <= i < events@.len() ==> {
                            &&& (#[trigger] events@[i]).received as int == recs_view(
                                self.events@,
                            )[i].0
                            &&& events@[i].correlation_id@ == recs_view(self.events@)[i].1
                            &&& events@[i].event_type@ == recs_view(self.events@)[i].2
                            &&& (json_dec_at(recs_view(self.events@)[i].3, 0) matches Some(vp)
                                && vp.0 == events@[i].data@)
                        }
                },
                Err(_) => exists|i: int|
                    0 <= i < self.events@.len() && json_dec_at(
                        (#[trigger] recs_view(self.events@)[i]).3,
                        0,
                    ) is None,
            },
    {
        let ghost rv = recs_view(self.events@);
        let mut out: Vec<CorrelatedEvent> = Vec::new();
        let mut rest = self.events;
        let ghost orig = rest@;
        let total: usize = rest.len();
        let mut i: usize = 0;
        while rest.len() > 0
            invariant
                i + rest@.len() == orig.len(),
                rv == recs_view(orig),
                out@.len() == i,
                forall|k: int| 0 <= k < rest@.len() ==> #[trigger] rest@[k] == orig[i + k],
                forall|k: int|
                    0 <= k < i ==> {
                        &&& (#[trigger] out@[k]).received as int == rv[k].0
                        &&& out@[k].correlation_id@ == rv[k].1
                        &&& out@[k].event_type@ == rv[k].2
                        &&& (json_dec_at(rv[k].3, 0) matches Some(vp) && vp.0 == out@[k].data@)
                    },
            decreases rest@.len(),
        {
            let rec = rest.remove(0);
            proof {
                assert(rec == orig[i as int]);
                assert(rv[i as int] == orig[i as int].view());
            }
            match rec.into_event() {
                Ok(e) => {
                    out.push(e);
                }
                Err(err) => {
                    proof {
                        assert(json_dec_at(rv[i as int].3, 0) is None);
                    }
                    return Err(err);
                }
            }
            i = i + 1;
        }
        Ok(out)
    }
}

} // verus!
