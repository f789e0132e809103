//! The durable queue of scheduled re-evaluations, ordered by expiry.
//!
//! The queue holds every pending expiry sorted by `(expires_at,
//! correlation_id, event_rule)`; its head is always the expiry with the
//! least `expires_at`.  The queue serialises to bytes and is rebuilt from
//! them, so a restart from the same file observes the same head.

use vstd::prelude::*;
use vstd::multiset::Multiset;

use crate::broker::EventExpiry;
use crate::codec::{
    dec_str_at, dec_i64, dec_u32, enc_i64, enc_str, enc_u32, lemma_i64_round_trip,
    lemma_str_round_trip, lemma_u32_round_trip, push_i64, push_str_chunk, push_u32, read_i64,
    read_str_chunk, read_u32, str_fits, MAX_CHUNK,
};
use crate::errors::{LaikaError, LaikaResult};

verus! {

broadcast use
    vstd::std_specs::vec::group_vec_axioms,
    vstd::seq::group_seq_axioms,
    vstd::seq_lib::group_seq_lib_default,
    vstd::seq_lib::group_to_multiset_ensures,
    vstd::multiset::group_multiset_axioms,
    vstd::seq_lib::to_multiset_insert,
    vstd::utf8::char_u32_cast;

/// What one expiry holds: the instant, the correlation key, the rule name.
pub type ExpiryV = (int, Seq<char>, Seq<char>);

/// What an expiry holds.
pub open spec fn expv(e: EventExpiry) -> ExpiryV {
    (e.expires_at as int, e.correlation_id@, e.event_rule@)
}

/// Strict lexicographic order on character sequences, by scalar value.
pub open spec fn lex_less(a: Seq<char>, b: Seq<char>) -> bool
    decreases a.len(),
{
    if b.len() == 0 {
        false
    } else if a.len() == 0 {
        true
    } else if (a[0] as u32) < (b[0] as u32) {
        true
    } else if a[0] != b[0] {
        false
    } else {
        lex_less(a.drop_first(), b.drop_first())
    }
}

/// The queue's order: by instant, then key, then rule name.
pub open spec fn expiry_le(a: ExpiryV, b: ExpiryV) -> bool {
    if a.0 != b.0 {
        a.0 < b.0
    } else if a.1 != b.1 {
        lex_less(a.1, b.1)
    } else if a.2 != b.2 {
        lex_less(a.2, b.2)
    } else {
        true
    }
}

proof fn lemma_lex_less_connex(a: Seq<char>, b: Seq<char>)
    ensures
        lex_less(a, b) || lex_less(b, a) || a == b,
    decreases a.len(),
{
    if a.len() == 0 || b.len() == 0 {
        if a.len() == 0 && b.len() == 0 {
            assert(a =~= b);
        }
    } else {
        let ca = a[0];
        let cb = b[0];
        if ca == cb {
            lemma_lex_less_connex(a.drop_first(), b.drop_first());
            if a.drop_first() == b.drop_first() {
                assert(a.drop_first().len() == a.len() - 1);
                assert(b.drop_first().len() == b.len() - 1);
                assert(a.len() == b.len());
                assert forall|k: int| 0 <= k < a.len() implies a[k] == b[k] by {
                    if k > 0 {
                        assert(a.drop_first()[k - 1] == b.drop_first()[k - 1]);
                        assert(a.drop_first()[k - 1] == a[k]);
                        assert(b.drop_first()[k - 1] == b[k]);
                    }
                }
                assert(a =~= b);
            }
        } else {
            let ua = ca as u32;
            let ub = cb as u32;
            if ua < ub {
                assert(lex_less(a, b));
            } else if ub < ua {
                assert(lex_less(b, a));
            } else {
                vstd::utf8::char_u32_cast(ca, ua);
                vstd::utf8::char_u32_cast(cb, ub);
                assert(false);
            }
        }
    }
}

/// Any two expiries are ordered one way or the other.
pub proof fn lemma_expiry_le_total(a: ExpiryV, b: ExpiryV)
    ensures
        expiry_le(a, b) || expiry_le(b, a),
{
    lemma_lex_less_connex(a.1, b.1);
    lemma_lex_less_connex(a.2, b.2);
}

proof fn lemma_lex_less_asym(a: Seq<char>, b: Seq<char>)
    ensures
        lex_less(a, b) ==> !lex_less(b, a),
    decreases a.len(),
{
    if a.len() > 0 && b.len() > 0 && a[0] == b[0] {
        lemma_lex_less_asym(a.drop_first(), b.drop_first());
    }
}

/// Expiries ordered both ways hold the same values.
pub proof fn lemma_expiry_le_antisym(a: ExpiryV, b: ExpiryV)
    ensures
        expiry_le(a, b) && expiry_le(b, a) ==> a == b,
{
    lemma_lex_less_asym(a.1, b.1);
    lemma_lex_less_asym(a.2, b.2);
}

proof fn lemma_lex_less_trans(a: Seq<char>, b: Seq<char>, c: Seq<char>)
    ensures
        lex_less(a, b) && lex_less(b, c) ==> lex_less(a, c),
    decreases a.len() + b.len() + c.len(),
{
    if lex_less(a, b) && lex_less(b, c) {
        if a.len() > 0 && c.len() > 0 {
            if b.len() > 0 {
                if a[0] == b[0] && b[0] == c[0] {
                    lemma_lex_less_trans(a.drop_first(), b.drop_first(), c.drop_first());
                }
            }
        }
    }
}

/// The queue's order is transitive.
pub proof fn lemma_expiry_le_trans(a: ExpiryV, b: ExpiryV, c: ExpiryV)
    ensures
        expiry_le(a, b) && expiry_le(b, c) ==> expiry_le(a, c),
{
    lemma_lex_less_trans(a.1, b.1, c.1);
    lemma_lex_less_trans(a.2, b.2, c.2);
    lemma_lex_less_asym(a.1, b.1);
    lemma_lex_less_asym(b.1, c.1);
    lemma_lex_less_asym(a.2, b.2);
    lemma_lex_less_asym(b.2, c.2);
}

/// Whether `a` comes strictly before `b` in lexicographic order.
fn str_lex_less(a: &String, b: &String) -> (r: bool)
    ensures
        r == lex_less(a@, b@),
{
    let av = crate::strutil::chars_of(a.as_str());
    let bv = crate::strutil::chars_of(b.as_str());
    let mut i: usize = 0;
    proof {
        assert(a@.subrange(0, a@.len() as int) =~= a@);
        assert(b@.subrange(0, b@.len() as int) =~= b@);
    }
    loop
        invariant
            i <= av@.len(),
            i <= bv@.len(),
            av@ == a@,
            bv@ == b@,
            lex_less(a@, b@) == lex_less(
                a@.subrange(i as int, a@.len() as int),
                b@.subrange(i as int, b@.len() as int),
            ),
            forall|k: int| 0 <= k < i ==> a@[k] == b@[k],
        ensures
            lex_less(a@, b@) == (if i < av@.len() && i < bv@.len() {
                (av@[i as int] as u32) < (bv@[i as int] as u32)
            } else {
                i >= av@.len() && i < bv@.len()
            }),
        decreases av@.len() - i,
    {
        let ghost sa = a@.subrange(i as int, a@.len() as int);
        let ghost sb = b@.subrange(i as int, b@.len() as int);
        if i >= av.len() || i >= bv.len() {
            break ;
        }
        let ca = av[i];
        let cb = bv[i];
        proof {
            assert(sa[0] == a@[i as int] && sb[0] == b@[i as int]);
        }
        if (ca as u32) < (cb as u32) {
            break ;
        }
        if ca != cb {
            break ;
        }
        proof {
            assert(sa[0] == ca && sb[0] == cb);
            assert(sa.drop_first() =~= a@.subrange(i + 1, a@.len() as int));
            assert(sb.drop_first() =~= b@.subrange(i + 1, b@.len() as int));
        }
        i = i + 1;
    }
    if i < av.len() && i < bv.len() {
        (av[i] as u32) < (bv[i] as u32)
    } else {
        i >= av.len() && i < bv.len()
    }
}

/// Whether `a` comes no later than `b` in the queue's order.
pub fn expiry_le_exec(a: &EventExpiry, b: &EventExpiry) -> (r: bool)
    ensures
        r == expiry_le(expv(*a), expv(*b)),
{
    if a.expires_at != b.expires_at {
        a.expires_at < b.expires_at
    } else if !(a.correlation_id == b.correlation_id) {
        str_lex_less(&a.correlation_id, &b.correlation_id)
    } else if !(a.event_rule == b.event_rule) {
        str_lex_less(&a.event_rule, &b.event_rule)
    } else {
        true
    }
}

/// What a sequence of expiries holds.
pub open spec fn expiries_view(s: Seq<EventExpiry>) -> Seq<ExpiryV> {
    Seq::new(
        s.len(),
        |i: int|
            if 0 <= i < s.len() {
                expv(s[i])
            } else {
                (0int, Seq::<char>::empty(), Seq::<char>::empty())
            },
    )
}

/// Sorted by the queue's order.
pub open spec fn expiries_sorted(s: Seq<EventExpiry>) -> bool {
    forall|i: int, j: int| 0 <= i < j < s.len() ==> expiry_le(expv(#[trigger] s[i]), expv(#[trigger] s[j]))
}

/// Sort expiries by `(expires_at, correlation_id, event_rule)`.
fn sort_expiries(value: Vec<EventExpiry>) -> (r: Vec<EventExpiry>)
    ensures
        expiries_sorted(r@),
        r@.to_multiset() == value@.to_multiset(),
        expiries_view(r@).to_multiset() == expiries_view(value@).to_multiset(),
{
    let mut rest = value;
    let mut sorted: Vec<EventExpiry> = Vec::new();
    let ghost all = rest@.to_multiset();
    proof {
        assert(sorted@.to_multiset().add(rest@.to_multiset()) =~= all);
    }
    let ghost all_v = expiries_view(rest@).to_multiset();
    proof {
        assert(expiries_view(sorted@).to_multiset().add(expiries_view(rest@).to_multiset())
            =~= all_v);
    }
    while rest.len() > 0
        invariant
            expiries_sorted(sorted@),
            sorted@.to_multiset().add(rest@.to_multiset()) == all,
            expiries_view(sorted@).to_multiset().add(expiries_view(rest@).to_multiset()) == all_v,
        decreases rest@.len(),
    {
        let ghost pre = rest@;
        let e = rest.remove(0);
        let mut p: usize = sorted.len();
        while p > 0 && !expiry_le_exec(&sorted[p - 1], &e)
            invariant
                p <= sorted@.len(),
                forall|k: int|
                    p <= k < sorted@.len() ==> !expiry_le(expv(#[trigger] sorted@[k]), expv(e)),
            decreases p,
        {
            p = p - 1;
        }
        proof {
            assert(e == pre[0]);
            assert(rest@ =~= pre.remove(0));
            assert(pre.remove(0).to_multiset() =~= pre.to_multiset().remove(pre[0]));
            assert(pre.contains(pre[0]));
            assert(pre.to_multiset().count(pre[0]) > 0);
            assert(pre.to_multiset() =~= rest@.to_multiset().insert(e));
            assert(sorted@.insert(p as int, e).to_multiset() == sorted@.to_multiset().insert(e));
            assert(sorted@.to_multiset().insert(e).add(rest@.to_multiset()) =~= sorted@
                .to_multiset().add(pre.to_multiset()));
            assert forall|k: int| p <= k < sorted@.len() implies expiry_le(
                expv(e),
                expv(#[trigger] sorted@[k]),
            ) by {
                lemma_expiry_le_total(expv(e), expv(sorted@[k]));
            }
            assert forall|a: int, b: int|
                0 <= a < b < sorted@.insert(p as int, e).len() implies expiry_le(
                expv(sorted@.insert(p as int, e)[a]),
                expv(sorted@.insert(p as int, e)[b]),
            ) by {
                sorted@.insert_ensures(p as int, e);
                if b == p && a < p {
                    assert(expiry_le(expv(sorted@[a]), expv(e))) by {
                        if p as int - 1 >= 0 && a < p - 1 {
                            lemma_expiry_le_trans(
                                expv(sorted@[a]),
                                expv(sorted@[p - 1]),
                                expv(e),
                            );
                        }
                    }
                }
            }
        }
        proof {
            assert(expiries_view(pre).remove(0) =~= expiries_view(rest@));
            assert(expiries_view(pre).remove(0).to_multiset() =~= expiries_view(pre)
                .to_multiset().remove(expiries_view(pre)[0]));
            assert(expiries_view(pre).contains(expiries_view(pre)[0]));
            assert(expiries_view(pre).to_multiset().count(expiries_view(pre)[0]) > 0);
            assert(expiries_view(pre).to_multiset() =~= expiries_view(rest@).to_multiset().insert(
                expv(e),
            ));
            assert(expiries_view(sorted@.insert(p as int, e)) =~= expiries_view(sorted@).insert(
                p as int,
                expv(e),
            ));
            assert(expiries_view(sorted@).insert(p as int, expv(e)).to_multiset()
                == expiries_view(sorted@).to_multiset().insert(expv(e)));
            assert(expiries_view(sorted@).to_multiset().insert(expv(e)).add(
                expiries_view(rest@).to_multiset(),
            ) =~= expiries_view(sorted@).to_multiset().add(expiries_view(pre).to_multiset()));
        }
        sorted.insert(p, e);
    }
    proof {
        assert(rest@.to_multiset() =~= Multiset::<EventExpiry>::empty());
        assert(sorted@.to_multiset().add(Multiset::<EventExpiry>::empty()) =~= sorted@
            .to_multiset());
        assert(sorted@.to_multiset() =~= all);
        assert(expiries_view(rest@).to_multiset() =~= Multiset::<ExpiryV>::empty());
        assert(expiries_view(sorted@).to_multiset().add(Multiset::<ExpiryV>::empty())
            =~= expiries_view(sorted@).to_multiset());
        assert(expiries_view(sorted@).to_multiset() =~= all_v);
    }
    sorted
}

/// The expiries left after removing every one with the given key.
pub open spec fn remove_key(s: Seq<EventExpiry>, key: Seq<char>) -> Seq<EventExpiry>
    decreases s.len(),
{
    if s.len() == 0 {
        Seq::empty()
    } else {
        let rest = remove_key(s.drop_last(), key);
        if s.last().correlation_id@ == key {
            rest
        } else {
            rest.push(s.last())
        }
    }
}

proof fn lemma_remove_key_element(s: Seq<EventExpiry>, key: Seq<char>, i: int)
    requires
        0 <= i < remove_key(s, key).len(),
    ensures
        exists|j: int| 0 <= j < s.len() && s[j] == remove_key(s, key)[i],
    decreases s.len(),
{
    if s.len() > 0 {
        let rest = remove_key(s.drop_last(), key);
        if i < rest.len() {
            lemma_remove_key_element(s.drop_last(), key, i);
            let j = choose|j: int|
                0 <= j < s.drop_last().len() && s.drop_last()[j] == remove_key(
                    s.drop_last(),
                    key,
                )[i];
            assert(s[j] == remove_key(s, key)[i]);
        } else {
            assert(s[s.len() - 1] == remove_key(s, key)[i]);
        }
    }
}

proof fn lemma_remove_key_pairs(s: Seq<EventExpiry>, key: Seq<char>)
    requires
        expiries_sorted(s),
    ensures
        expiries_sorted(remove_key(s, key)),
        forall|i: int|
            0 <= i < remove_key(s, key).len() ==> (#[trigger] remove_key(s, key)[i]).correlation_id@
                != key,
    decreases s.len(),
{
    if s.len() > 0 {
        let prefix = s.drop_last();
        assert(expiries_sorted(prefix)) by {
            assert forall|i: int, j: int| 0 <= i < j < prefix.len() implies expiry_le(
                expv(#[trigger] prefix[i]),
                expv(#[trigger] prefix[j]),
            ) by {
                assert(prefix[i] == s[i] && prefix[j] == s[j]);
            }
        }
        lemma_remove_key_pairs(prefix, key);
        let rest = remove_key(prefix, key);
        let r = remove_key(s, key);
        if s.last().correlation_id@ == key {
        } else {
            assert forall|i: int, j: int| 0 <= i < j < r.len() implies expiry_le(
                expv(#[trigger] r[i]),
                expv(#[trigger] r[j]),
            ) by {
                if j < rest.len() {
                    assert(r[i] == rest[i] && r[j] == rest[j]);
                } else {
                    assert(r[j] == s.last());
                    assert(r[i] == rest[i]);
                    lemma_remove_key_element(prefix, key, i);
                    let w = choose|w: int| 0 <= w < prefix.len() && prefix[w] == rest[i];
                    assert(expiry_le(expv(s[w]), expv(s[s.len() - 1])));
                }
            }
        }
    }
}

/// Whether some expiry carries the given key.
pub open spec fn has_key(s: Seq<EventExpiry>, key: Seq<char>) -> bool {
    exists|i: int| 0 <= i < s.len() && (#[trigger] s[i]).correlation_id@ == key
}

/// The durable min-ordered queue of scheduled re-evaluations.
#[derive(Debug)]
pub struct TimingExpiry {
    pub expiries: Vec<EventExpiry>,
}

impl TimingExpiry {
    /// The queue's expiries stand in order.
    pub open spec fn wf(&self) -> bool {
        expiries_sorted(self.expiries@)
    }

    /// An empty queue.
    pub fn new() -> (r: Self)
        ensures
            r.wf(),
            r.expiries@.len() == 0,
    {
        TimingExpiry { expiries: Vec::new() }
    }

    /// The head: the expiry with the least `expires_at` (and, among
    /// equals, the least key and rule), if any.
    pub fn peek(&self) -> (r: Option<EventExpiry>)
        requires
            self.wf(),
        ensures
            match r {
                Some(e) => self.expiries@.len() > 0 && expv(e) == expv(self.expiries@[0])
                    && (forall|i: int|
                    0 <= i < self.expiries@.len() ==> e.expires_at as int <= expv(
                        #[trigger] self.expiries@[i],
                    ).0),
                None => self.expiries@.len() == 0,
            },
    {
        if self.expiries.len() == 0 {
            None
        } else {
            let head = self.expiries[0].clone();
            proof {
                assert forall|i: int| 0 <= i < self.expiries@.len() implies head.expires_at as int
                    <= expv(#[trigger] self.expiries@[i]).0 by {
                    if i > 0 {
                        assert(expiry_le(expv(self.expiries@[0]), expv(self.expiries@[i])));
                    }
                }
            }
            Some(head)
        }
    }

    /// Add one scheduled expiry, keeping the queue ordered.
    pub fn add_expiry(&mut self, expiry: EventExpiry) -> (r: LaikaResult<()>)
        requires
            old(self).wf(),
        ensures
            r is Ok,
            final(self).wf(),
            final(self).expiries@.to_multiset() == old(self).expiries@.to_multiset().insert(
                expiry,
            ),
    {
        let mut p: usize = self.expiries.len();
        while p > 0 && !expiry_le_exec(&self.expiries[p - 1], &expiry)
            invariant
                p <= self.expiries@.len(),
                self.expiries@ == old(self).expiries@,
                forall|k: int|
                    p <= k < self.expiries@.len() ==> !expiry_le(
                        expv(#[trigger] self.expiries@[k]),
                        expv(expiry),
                    ),
            decreases p,
        {
            p = p - 1;
        }
        proof {
            let s = self.expiries@;
            assert(s.insert(p as int, expiry).to_multiset() == s.to_multiset().insert(expiry));
            assert forall|k: int| p <= k < s.len() implies expiry_le(
                expv(expiry),
                expv(#[trigger] s[k]),
            ) by {
                lemma_expiry_le_total(expv(expiry), expv(s[k]));
            }
            assert forall|a: int, b: int|
                0 <= a < b < s.insert(p as int, expiry).len() implies expiry_le(
                expv(s.insert(p as int, expiry)[a]),
                expv(s.insert(p as int, expiry)[b]),
            ) by {
                s.insert_ensures(p as int, expiry);
                if b == p && a < p {
                    assert(expiry_le(expv(s[a]), expv(expiry))) by {
                        if p as int - 1 >= 0 && a < p - 1 {
                            lemma_expiry_le_trans(expv(s[a]), expv(s[p - 1]), expv(expiry));
                        }
                    }
                }
            }
        }
        self.expiries.insert(p, expiry);
        Ok(())
    }

    /// Add several scheduled expiries.
    pub fn add_expiries(&mut self, expiries: Vec<EventExpiry>) -> (r: LaikaResult<()>)
        requires
            old(self).wf(),
        ensures
            r is Ok,
            final(self).wf(),
            final(self).expiries@.to_multiset() == old(self).expiries@.to_multiset().add(
                expiries@.to_multiset(),
            ),
    {
        let mut rest = expiries;
        let ghost added = rest@.to_multiset();
        proof {
            assert(self.expiries@.to_multiset().add(rest@.to_multiset()) =~= old(
                self,
            ).expiries@.to_multiset().add(added));
        }
        while rest.len() > 0
            invariant
                self.wf(),
                self.expiries@.to_multiset().add(rest@.to_multiset()) == old(
                    self,
                ).expiries@.to_multiset().add(added),
            decreases rest@.len(),
        {
            let ghost pre = rest@;
            let e = rest.remove(0);
            proof {
                assert(e == pre[0]);
                assert(rest@ =~= pre.remove(0));
                assert(pre.remove(0).to_multiset() =~= pre.to_multiset().remove(pre[0]));
                assert(pre.contains(pre[0]));
                assert(pre.to_multiset().count(pre[0]) > 0);
                assert(pre.to_multiset() =~= rest@.to_multiset().insert(e));
            }
            let _ = self.add_expiry(e);
            proof {
                assert(self.expiries@.to_multiset().add(rest@.to_multiset()) =~= old(
                    self,
                ).expiries@.to_multiset().add(added));
            }
        }
        proof {
            assert(rest@.to_multiset() =~= Multiset::<EventExpiry>::empty());
            assert(self.expiries@.to_multiset().add(Multiset::<EventExpiry>::empty())
                =~= self.expiries@.to_multiset());
        }
        Ok(())
    }

    /// Acknowledge the head once its instant has passed: remove it.
    /// Fails, changing nothing, when the queue is empty or the head is
    /// still in the future.
    pub fn ack_at(&mut self, now: i64) -> (r: LaikaResult<()>)
        requires
            old(self).wf(),
        ensures
            final(self).wf(),
            match r {
                Ok(_) => old(self).expiries@.len() > 0 && old(self).expiries@[0].expires_at <= now
                    && final(self).expiries@ == old(self).expiries@.drop_first(),
                Err(_) => *final(self) == *old(self) && (old(self).expiries@.len() == 0 || old(
                    self,
                ).expiries@[0].expires_at > now),
            },
    {
        if self.expiries.len() == 0 {
            return Err(LaikaError::Generic("No expiry to acknowledge".to_owned()));
        }
        if self.expiries[0].expires_at > now {
            return Err(LaikaError::Generic("Expiry not yet met".to_owned()));
        }
        let _ = self.expiries.remove(0);
        proof {
            let s = old(self).expiries@;
            assert(self.expiries@ =~= s.drop_first());
            assert forall|a: int, b: int|
                0 <= a < b < self.expiries@.len() implies expiry_le(
                expv(#[trigger] self.expiries@[a]),
                expv(#[trigger] self.expiries@[b]),
            ) by {
                assert(self.expiries@[a] == s[a + 1] && self.expiries@[b] == s[b + 1]);
            }
        }
        Ok(())
    }

    /// Acknowledge the head against the wall clock: it is removed
    /// exactly when the queue is non-empty and its instant has passed.
    pub fn ack(&mut self) -> (r: LaikaResult<()>)
        requires
            old(self).wf(),
        ensures
            final(self).wf(),
            match r {
                Ok(_) => old(self).expiries@.len() > 0 && final(self).expiries@ == old(
                    self,
                ).expiries@.drop_first() && exists|now: int|
                    #[trigger] crate::clock::clock_reading(now) && old(
                        self,
                    ).expiries@[0].expires_at <= now,
                Err(_) => *final(self) == *old(self) && (old(self).expiries@.len() == 0 || exists|
                    now: int,
                |
                    #[trigger] crate::clock::clock_reading(now) && old(
                        self,
                    ).expiries@[0].expires_at > now),
            },
    {
        let now = crate::clock::now_unix_seconds();
        let r = self.ack_at(now);
        proof {
            assert(crate::clock::clock_reading(now as int));
        }
        r
    }

    /// Drop every expiry scheduled for the given correlation key.
    /// Fails, changing nothing, when none carries it.
    pub fn nack(&mut self, correlation_id: String) -> (r: LaikaResult<()>)
        requires
            old(self).wf(),
        ensures
            final(self).wf(),
            match r {
                Ok(_) => has_key(old(self).expiries@, correlation_id@) && final(self).expiries@
                    == remove_key(old(self).expiries@, correlation_id@),
                Err(_) => *final(self) == *old(self) && !has_key(
                    old(self).expiries@,
                    correlation_id@,
                ),
            },
    {
        let ghost orig = self.expiries@;
        let mut kept: Vec<EventExpiry> = Vec::new();
        let mut found = false;
        let mut i: usize = 0;
        proof {
            assert(orig.subrange(0, 0) =~= Seq::<EventExpiry>::empty());
            assert(kept@ =~= remove_key(orig.subrange(0, 0), correlation_id@));
        }
        while i < self.expiries.len()
            invariant
                i <= self.expiries@.len(),
                self.expiries@ == orig,
                kept@ == remove_key(orig.subrange(0, i as int), correlation_id@),
                found == has_key(orig.subrange(0, i as int), correlation_id@),
            decreases self.expiries@.len() - i,
        {
            let ghost prefix = orig.subrange(0, i as int);
            let ghost next_prefix = orig.subrange(0, i + 1);
            proof {
                assert(next_prefix.drop_last() =~= prefix);
                assert(next_prefix.last() == orig[i as int]);
            }
            if self.expiries[i].correlation_id == correlation_id {
                found = true;
                proof {
                    assert(next_prefix[i as int].correlation_id@ == correlation_id@);
                    assert(has_key(next_prefix, correlation_id@));
                }
            } else {
                kept.push(self.expiries[i].clone());
                proof {
                    if has_key(next_prefix, correlation_id@) && !has_key(
                        prefix,
                        correlation_id@,
                    ) {
                        let w = choose|w: int|
                            0 <= w < next_prefix.len() && (#[trigger] next_prefix[w]).correlation_id@
                                == correlation_id@;
                        assert(w == i);
                        assert(false);
                    }
                }
            }
            proof {
                assert(kept@ =~= remove_key(next_prefix, correlation_id@));
            }
            i = i + 1;
        }
        proof {
            assert(orig.subrange(0, orig.len() as int) =~= orig);
        }
        if !found {
            return Err(
                LaikaError::Generic("No expiry found for correlation ID".to_owned()),
            );
        }
        proof {
            lemma_remove_key_pairs(orig, correlation_id@);
        }
        self.expiries = kept;
        Ok(())
    }
}


/// One stored expiry: instant, key, rule name.
pub open spec fn exp_enc(v: ExpiryV) -> Seq<u8> {
    enc_i64(v.0) + enc_str(v.1) + enc_str(v.2)
}

/// An expiry fits the format.
pub open spec fn exp_fits(v: ExpiryV) -> bool {
    &&& -0x8000_0000_0000_0000 <= v.0 < 0x8000_0000_0000_0000
    &&& str_fits(v.1)
    &&& str_fits(v.2)
}

/// The bytes of expiries in order.
pub open spec fn exps_enc(vs: Seq<ExpiryV>) -> Seq<u8>
    decreases vs.len(),
{
    if vs.len() == 0 {
        Seq::empty()
    } else {
        exp_enc(vs[0]) + exps_enc(vs.drop_first())
    }
}

/// A stored queue: the count, then the expiries.
pub open spec fn queue_enc(vs: Seq<ExpiryV>) -> Seq<u8> {
    enc_u32(vs.len() as int) + exps_enc(vs)
}

/// A queue fits the format when its count and every expiry do.
pub open spec fn queue_fits(vs: Seq<ExpiryV>) -> bool {
    vs.len() <= MAX_CHUNK && (forall|i: int| 0 <= i < vs.len() ==> exp_fits(#[trigger] vs[i]))
}

proof fn lemma_exps_enc_snoc(vs: Seq<ExpiryV>)
    requires
        vs.len() > 0,
    ensures
        exps_enc(vs) == exps_enc(vs.drop_last()) + exp_enc(vs.last()),
    decreases vs.len(),
{
    if vs.len() == 1 {
        assert(vs.drop_last() =~= Seq::<ExpiryV>::empty());
        assert(vs.drop_first() =~= Seq::<ExpiryV>::empty());
        assert(exps_enc(vs) =~= exps_enc(vs.drop_last()) + exp_enc(vs.last()));
    } else {
        let tail = vs.drop_first();
        lemma_exps_enc_snoc(tail);
        assert(vs.drop_last().drop_first() =~= tail.drop_last());
        assert(vs.drop_last()[0] == vs[0]);
        assert(tail.last() == vs.last());
        assert(exps_enc(vs) =~= exps_enc(vs.drop_last()) + exp_enc(vs.last()));
    }
}

/// The expiry read at `pos`, with the position just past it.
pub open spec fn exp_dec_at(bytes: Seq<u8>, pos: int) -> Option<(ExpiryV, int)> {
    if pos < 0 || pos + 9 > bytes.len() {
        None
    } else {
        let t = dec_i64(bytes.subrange(pos, pos + 9));
        if !(-0x8000_0000_0000_0000 <= t < 0x8000_0000_0000_0000) {
            None
        } else {
            match dec_str_at(bytes, pos + 9) {
                Some(kp) => match dec_str_at(bytes, kp.1) {
                    Some(rp) => Some(((t, kp.0, rp.0), rp.1)),
                    None => None,
                },
                None => None,
            }
        }
    }
}

/// `n` expiries read in sequence starting at `pos`.
pub open spec fn exps_dec_at(bytes: Seq<u8>, pos: int, n: int) -> Option<(Seq<ExpiryV>, int)>
    decreases n,
{
    if pos < 0 || pos > bytes.len() || n < 0 {
        None
    } else if n == 0 {
        Some((Seq::empty(), pos))
    } else {
        match exp_dec_at(bytes, pos) {
            Some(ep) => {
                if ep.1 <= pos || ep.1 > bytes.len() {
                    None
                } else {
                    match exps_dec_at(bytes, ep.1, n - 1) {
                        Some(rest) => Some((seq![ep.0] + rest.0, rest.1)),
                        None => None,
                    }
                }
            }
            None => None,
        }
    }
}

/// The expiries a stored queue's bytes hold.
pub open spec fn queue_dec(bytes: Seq<u8>) -> Option<Seq<ExpiryV>> {
    if bytes.len() < 4 {
        None
    } else {
        let n = dec_u32(bytes.subrange(0, 4));
        match exps_dec_at(bytes, 4, n) {
            Some(rp) => {
                if rp.1 == bytes.len() {
                    Some(rp.0)
                } else {
                    None
                }
            }
            None => None,
        }
    }
}

/// Reading where an expiry was written yields that expiry.
#[verifier::rlimit(60)]
proof fn lemma_exp_round_trip(v: ExpiryV, bytes: Seq<u8>, pos: int)
    requires
        exp_fits(v),
        0 <= pos,
        pos + exp_enc(v).len() <= bytes.len(),
        bytes.subrange(pos, pos + exp_enc(v).len() as int) == exp_enc(v),
    ensures
        exp_dec_at(bytes, pos) == Some((v, pos + exp_enc(v).len() as int)),
{
    let enc = exp_enc(v);
    assert forall|k: int| 0 <= k < enc.len() implies bytes[pos + k] == enc[k] by {
        assert(bytes.subrange(pos, pos + enc.len() as int)[k] == enc[k]);
    }
    let te = enc_i64(v.0);
    lemma_i64_round_trip(v.0);
    assert forall|k: int| 0 <= k < 9 implies bytes.subrange(pos, pos + 9)[k] == te[k] by {
        assert(bytes[pos + k] == enc[k]);
    }
    assert(bytes.subrange(pos, pos + 9) =~= te);
    let ke = enc_str(v.1);
    let p1 = pos + 9;
    assert forall|k: int| 0 <= k < ke.len() implies bytes.subrange(p1, p1 + ke.len() as int)[k]
        == ke[k] by {
        assert(bytes[p1 + k] == enc[9 + k]);
    }
    assert(bytes.subrange(p1, p1 + ke.len() as int) =~= ke);
    lemma_str_round_trip(v.1, bytes, p1);
    let re = enc_str(v.2);
    let p2 = p1 + ke.len() as int;
    assert forall|k: int| 0 <= k < re.len() implies bytes.subrange(p2, p2 + re.len() as int)[k]
        == re[k] by {
        assert(bytes[p2 + k] == enc[9 + ke.len() + k]);
    }
    assert(bytes.subrange(p2, p2 + re.len() as int) =~= re);
    lemma_str_round_trip(v.2, bytes, p2);
}

/// Reading where an expiry list was written yields those expiries.
#[verifier::rlimit(60)]
proof fn lemma_exps_round_trip(vs: Seq<ExpiryV>, bytes: Seq<u8>, pos: int)
    requires
        forall|i: int| 0 <= i < vs.len() ==> exp_fits(#[trigger] vs[i]),
        0 <= pos,
        pos + exps_enc(vs).len() <= bytes.len(),
        bytes.subrange(pos, pos + exps_enc(vs).len() as int) == exps_enc(vs),
    ensures
        exps_dec_at(bytes, pos, vs.len() as int) == Some((vs, pos + exps_enc(vs).len() as int)),
    decreases vs.len(),
{
    if vs.len() == 0 {
        assert(vs =~= Seq::<ExpiryV>::empty());
    } else {
        let first = vs[0];
        let tail = vs.drop_first();
        let fe = exp_enc(first);
        let te = exps_enc(tail);
        let whole = exps_enc(vs);
        assert(whole == fe + te);
        assert forall|k: int| 0 <= k < whole.len() implies bytes[pos + k] == whole[k] by {
            assert(bytes.subrange(pos, pos + whole.len() as int)[k] == whole[k]);
        }
        assert forall|k: int| 0 <= k < fe.len() implies bytes.subrange(
            pos,
            pos + fe.len() as int,
        )[k] == fe[k] by {
            assert(whole[k] == fe[k]);
        }
        assert(bytes.subrange(pos, pos + fe.len() as int) =~= fe);
        lemma_exp_round_trip(first, bytes, pos);
        let p1 = pos + fe.len() as int;
        assert forall|k: int| 0 <= k < te.len() implies bytes.subrange(
            p1,
            p1 + te.len() as int,
        )[k] == te[k] by {
            assert(whole[fe.len() + k] == te[k]);
            assert(bytes[p1 + k] == whole[fe.len() + k]);
        }
        assert(bytes.subrange(p1, p1 + te.len() as int) =~= te);
        lemma_exps_round_trip(tail, bytes, p1);
        assert(seq![first] + tail =~= vs);
    }
}

/// Writing a queue and reading the bytes yields the same expiries.
pub proof fn lemma_queue_round_trip(vs: Seq<ExpiryV>)
    requires
        queue_fits(vs),
    ensures
        queue_dec(queue_enc(vs)) == Some(vs),
{
    let bytes = queue_enc(vs);
    lemma_u32_round_trip(vs.len() as int);
    assert(bytes.subrange(0, 4) =~= enc_u32(vs.len() as int));
    assert(bytes.subrange(4, 4 + exps_enc(vs).len() as int) =~= exps_enc(vs));
    lemma_exps_round_trip(vs, bytes, 4);
}

/// Two ordered queues holding the same expiries show the same head: a
/// queue reopened from its own bytes yields the same `peek`.
pub proof fn lemma_restart_preserves_peek(s1: Seq<EventExpiry>, s2: Seq<EventExpiry>)
    requires
        expiries_sorted(s1),
        expiries_sorted(s2),
        expiries_view(s1).to_multiset() == expiries_view(s2).to_multiset(),
    ensures
        s1.len() == s2.len(),
        s1.len() > 0 ==> expv(s1[0]) == expv(s2[0]),
{
    let v1 = expiries_view(s1);
    let v2 = expiries_view(s2);
    assert(v1.len() == v1.to_multiset().len());
    assert(v2.len() == v2.to_multiset().len());
    if s1.len() > 0 {
        assert(v1.contains(v1[0]));
        assert(v1.to_multiset().count(v1[0]) > 0);
        assert(v2.contains(v1[0]));
        let j = choose|j: int| 0 <= j < v2.len() && v2[j] == v1[0];
        assert(expiry_le(expv(s2[0]), v1[0])) by {
            if j > 0 {
                assert(expiry_le(expv(s2[0]), expv(s2[j])));
            }
        }
        assert(v2.contains(v2[0]));
        assert(v2.to_multiset().count(v2[0]) > 0);
        assert(v1.contains(v2[0]));
        let k = choose|k: int| 0 <= k < v1.len() && v1[k] == v2[0];
        assert(expiry_le(expv(s1[0]), v2[0])) by {
            if k > 0 {
                assert(expiry_le(expv(s1[0]), expv(s1[k])));
            }
        }
        lemma_expiry_le_antisym(expv(s1[0]), expv(s2[0]));
    }
}

impl TimingExpiry {
    /// The queue's bytes: the count, then every expiry in order.
    #[verifier::loop_isolation(false)]
    pub fn to_bytes(&self) -> (r: Result<Vec<u8>, LaikaError>)
        ensures
            match r {
                Ok(bytes) => queue_fits(expiries_view(self.expiries@)) && bytes@ == queue_enc(
                    expiries_view(self.expiries@),
                ),
                Err(_) => !queue_fits(expiries_view(self.expiries@)),
            },
    {
        let ghost vs = expiries_view(self.expiries@);
        if self.expiries.len() as u64 > MAX_CHUNK {
            return Err(LaikaError::IO("queue too long to store".to_owned()));
        }
        let mut out: Vec<u8> = Vec::new();
        push_u32(&mut out, self.expiries.len() as u32);
        let ghost header = enc_u32(self.expiries@.len() as int);
        proof {
            assert(out@ =~= header);
            assert(exps_enc(vs.take(0)) =~= Seq::<u8>::empty());
            assert(out@ =~= header + exps_enc(vs.take(0)));
        }
        let mut i: usize = 0;
        while i < self.expiries.len()
            invariant
                i <= self.expiries@.len(),
                out@ == header + exps_enc(vs.take(i as int)),
                forall|k: int| 0 <= k < i ==> exp_fits(#[trigger] vs[k]),
            decreases self.expiries@.len() - i,
        {
            let e = &self.expiries[i];
            push_i64(&mut out, e.expires_at);
            match push_str_chunk(&mut out, &e.correlation_id) {
                Ok(_) => {}
                Err(err) => {
                    proof {
                        assert(!exp_fits(vs[i as int]));
                    }
                    return Err(err);
                }
            }
            match push_str_chunk(&mut out, &e.event_rule) {
                Ok(_) => {}
                Err(err) => {
                    proof {
                        assert(!exp_fits(vs[i as int]));
                    }
                    return Err(err);
                }
            }
            i = i + 1;
            proof {
                let t = vs.take(i as int);
                assert(t.drop_last() =~= vs.take(i - 1));
                assert(t.last() == vs[i - 1]);
                lemma_exps_enc_snoc(t);
                assert(out@ =~= header + exps_enc(t));
            }
        }
        proof {
            assert(vs.take(i as int) =~= vs);
            assert(out@ =~= queue_enc(vs));
        }
        Ok(out)
    }

    /// Rebuild a queue from its stored bytes: the same expiries come
    /// back, ordered, so the reopened queue shows the same head.
    #[verifier::loop_isolation(false)]
    pub fn from_bytes(bytes: &Vec<u8>) -> (r: Result<Self, LaikaError>)
        ensures
            match r {
                Ok(q) => {
                    &&& q.wf()
                    &&& queue_dec(bytes@) matches Some(vs) && expiries_view(
                        q.expiries@,
                    ).to_multiset() == vs.to_multiset()
                },
                Err(_) => queue_dec(bytes@) is None,
            },
    {
        if bytes.len() < 4 {
            return Err(LaikaError::IO("stored queue truncated".to_owned()));
        }
        let n = read_u32(bytes, 0);
        let ghost n_spec = dec_u32(bytes@.subrange(0, 4));
        let mut loaded: Vec<EventExpiry> = Vec::new();
        let mut cur: usize = 4;
        let mut i: u32 = 0;
        proof {
            assert(exps_dec_at(bytes@, cur as int, (n - i) as int) matches Some(rp) ==> (
            exps_dec_at(bytes@, 4, n_spec) == Some::<(Seq<ExpiryV>, int)>((
                expiries_view(loaded@) + rp.0,
                rp.1,
            ))));
        }
        while i < n
            invariant
                4 <= cur <= bytes@.len(),
                i <= n,
                (exps_dec_at(bytes@, cur as int, (n - i) as int) matches Some(rp) ==> (
                exps_dec_at(bytes@, 4, n_spec) == Some::<(Seq<ExpiryV>, int)>((
                    expiries_view(loaded@) + rp.0,
                    rp.1,
                )))),
                (exps_dec_at(bytes@, cur as int, (n - i) as int) is None ==> exps_dec_at(
                    bytes@,
                    4,
                    n_spec,
                ) is None),
            decreases n - i,
        {
            let ghost pre_loaded = loaded@;
            let ghost pre_cur = cur as int;
            match read_expiry(bytes, cur) {
                Ok((e, end)) => {
                    loaded.push(e);
                    cur = end;
                    proof {
                        assert(expiries_view(loaded@) =~= expiries_view(pre_loaded).push(
                            expv(loaded@.last()),
                        ));
                        assert forall|rp: (Seq<ExpiryV>, int)|
                            exps_dec_at(bytes@, cur as int, (n - i - 1) as int) == Some::<
                            (Seq<ExpiryV>, int),
                        >(rp) implies exps_dec_at(bytes@, 4, n_spec) == Some::<
                            (Seq<ExpiryV>, int),
                        >((expiries_view(loaded@) + rp.0, rp.1)) by {
                            assert(exps_dec_at(bytes@, pre_cur, (n - i) as int) == Some::<
                                (Seq<ExpiryV>, int),
                            >((seq![expv(loaded@.last())] + rp.0, rp.1)));
                            assert(expiries_view(pre_loaded) + (seq![expv(loaded@.last())] + rp.0)
                                =~= expiries_view(loaded@) + rp.0);
                        }
                        if exps_dec_at(bytes@, cur as int, (n - i - 1) as int) is None {
                            assert(exps_dec_at(bytes@, pre_cur, (n - i) as int) is None);
                        }
                    }
                    i = i + 1;
                }
                Err(e) => {
                    proof {
                        assert(exps_dec_at(bytes@, pre_cur, (n - i) as int) is None);
                        assert(exps_dec_at(bytes@, 4, n_spec) is None);
                        assert(queue_dec(bytes@) is None);
                    }
                    return Err(e);
                }
            }
        }
        proof {
            assert(exps_dec_at(bytes@, cur as int, 0) == Some((Seq::<ExpiryV>::empty(), cur as int)));
            assert(expiries_view(loaded@) + Seq::<ExpiryV>::empty() =~= expiries_view(loaded@));
        }
        if cur != bytes.len() {
            proof {
                assert(queue_dec(bytes@) is None);
            }
            return Err(LaikaError::IO("stored queue has trailing bytes".to_owned()));
        }
        let sorted = sort_expiries(loaded);
        Ok(TimingExpiry { expiries: sorted })
    }
}

/// Read one stored expiry at `pos`.
fn read_expiry(bytes: &Vec<u8>, pos: usize) -> (r: Result<(EventExpiry, usize), LaikaError>)
    ensures
        match r {
            Ok(ep) => exp_dec_at(bytes@, pos as int) == Some((expv(ep.0), ep.1 as int)) && pos
                < ep.1 <= bytes@.len(),
            Err(_) => exp_dec_at(bytes@, pos as int) is None,
        },
{
    if pos > bytes.len() || bytes.len() - pos < 9 {
        return Err(LaikaError::IO("stored expiry truncated".to_owned()));
    }
    let expires_at = match read_i64(bytes, pos) {
        Ok(t) => t,
        Err(e) => {
            return Err(e);
        }
    };
    let (correlation_id, p1) = match read_str_chunk(bytes, pos + 9) {
        Ok(kp) => kp,
        Err(e) => {
            return Err(e);
        }
    };
    let (event_rule, p2) = match read_str_chunk(bytes, p1) {
        Ok(rp) => rp,
        Err(e) => {
            return Err(e);
        }
    };
    Ok((EventExpiry { expires_at, correlation_id, event_rule }, p2))
}


/// The expiries left after removing every one equal to the given value.
pub open spec fn remove_equal(s: Seq<EventExpiry>, v: ExpiryV) -> Seq<EventExpiry>
    decreases s.len(),
{
    if s.len() == 0 {
        Seq::empty()
    } else {
        let rest = remove_equal(s.drop_last(), v);
        if expv(s.last()) == v {
            rest
        } else {
            rest.push(s.last())
        }
    }
}

proof fn lemma_remove_equal_element(s: Seq<EventExpiry>, v: ExpiryV, i: int)
    requires
        0 <= i < remove_equal(s, v).len(),
    ensures
        exists|j: int| 0 <= j < s.len() && s[j] == remove_equal(s, v)[i],
    decreases s.len(),
{
    if s.len() > 0 {
        let rest = remove_equal(s.drop_last(), v);
        if i < rest.len() {
            lemma_remove_equal_element(s.drop_last(), v, i);
            let j = choose|j: int|
                0 <= j < s.drop_last().len() && s.drop_last()[j] == remove_equal(
                    s.drop_last(),
                    v,
                )[i];
            assert(s[j] == remove_equal(s, v)[i]);
        } else {
            assert(s[s.len() - 1] == remove_equal(s, v)[i]);
        }
    }
}

proof fn lemma_remove_equal_pairs(s: Seq<EventExpiry>, v: ExpiryV)
    requires
        expiries_sorted(s),
    ensures
        expiries_sorted(remove_equal(s, v)),
    decreases s.len(),
{
    if s.len() > 0 {
        let prefix = s.drop_last();
        assert(expiries_sorted(prefix)) by {
            assert forall|i: int, j: int| 0 <= i < j < prefix.len() implies expiry_le(
                expv(#[trigger] prefix[i]),
                expv(#[trigger] prefix[j]),
            ) by {
                assert(prefix[i] == s[i] && prefix[j] == s[j]);
            }
        }
        lemma_remove_equal_pairs(prefix, v);
        let rest = remove_equal(prefix, v);
        let r = remove_equal(s, v);
        if expv(s.last()) == v {
        } else {
            assert forall|i: int, j: int| 0 <= i < j < r.len() implies expiry_le(
                expv(#[trigger] r[i]),
                expv(#[trigger] r[j]),
            ) by {
                if j < rest.len() {
                    assert(r[i] == rest[i] && r[j] == rest[j]);
                } else {
                    assert(r[j] == s.last());
                    assert(r[i] == rest[i]);
                    lemma_remove_equal_element(prefix, v, i);
                    let w = choose|w: int| 0 <= w < prefix.len() && prefix[w] == rest[i];
                    assert(expiry_le(expv(s[w]), expv(s[s.len() - 1])));
                }
            }
        }
    }
}

impl TimingExpiry {
    /// Drop every expiry equal to the given one.
    #[verifier::loop_isolation(false)]
    pub fn remove_expiry(&mut self, expiry: EventExpiry) -> (r: LaikaResult<()>)
        requires
            old(self).wf(),
        ensures
            r is Ok,
            final(self).wf(),
            final(self).expiries@ == remove_equal(old(self).expiries@, expv(expiry)),
    {
        let ghost orig = self.expiries@;
        let mut kept: Vec<EventExpiry> = Vec::new();
        let mut i: usize = 0;
        proof {
            assert(orig.subrange(0, 0) =~= Seq::<EventExpiry>::empty());
            assert(kept@ =~= remove_equal(orig.subrange(0, 0), expv(expiry)));
        }
        while i < self.expiries.len()
            invariant
                i <= self.expiries@.len(),
                self.expiries@ == orig,
                kept@ == remove_equal(orig.subrange(0, i as int), expv(expiry)),
            decreases self.expiries@.len() - i,
        {
            let ghost prefix = orig.subrange(0, i as int);
            let ghost next_prefix = orig.subrange(0, i + 1);
            proof {
                assert(next_prefix.drop_last() =~= prefix);
                assert(next_prefix.last() == orig[i as int]);
            }
            if !(self.expiries[i] == expiry) {
                kept.push(self.expiries[i].clone());
            }
            proof {
                assert(kept@ =~= remove_equal(next_prefix, expv(expiry)));
            }
            i = i + 1;
        }
        proof {
            assert(orig.subrange(0, orig.len() as int) =~= orig);
            lemma_remove_equal_pairs(orig, expv(expiry));
        }
        self.expiries = kept;
        Ok(())
    }
}

} // verus!
