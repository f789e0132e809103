//! The declarative rule document: events, correlation keys, flow cases
//! and their conditions, and the duration grammar they use.

use vstd::prelude::*;

use crate::strutil::chars_of;
use crate::template::values::{is_ws, skip_ws_at};
use crate::utils::parse_time::{digit_val, digits_value, is_digit};

verus! {

broadcast use vstd::std_specs::vec::group_vec_axioms, vstd::seq::group_seq_axioms;

/// Why a rule document was rejected.
#[derive(Debug, Clone, PartialEq, Eq)]
pub enum RuleError {
    /// The document could not be read at all.
    YamlError(String),
    /// A duration string did not parse: the offending text.
    DurationError(String),
    /// A case referenced a condition that was never declared.
    MissingCondition(String),
    /// A case or correlation entry referenced an event that was never
    /// declared.
    MissingEvent(String),
}

/// A correlation table: event name to key path.
#[derive(Debug, Clone, PartialEq, Eq)]
pub struct Correlation {
    pub key: Vec<(String, String)>,
}

/// One declared event: its type label and an optional field filter.
#[derive(Debug, Clone, PartialEq, Eq)]
pub struct EventDefinition {
    pub event_type: String,
    pub filter: Option<Vec<(String, String)>>,
}

/// When a timing condition starts counting.
#[derive(Debug, Clone, Copy, PartialEq, Eq, Structural)]
pub enum StartFrom {
    FirstEvent,
    LastEvent,
}

/// A declared condition of the flow.
#[derive(Debug, Clone, PartialEq, Eq)]
pub enum Condition {
    /// The named event must arrive within the duration, counted from
    /// the chosen reference event.
    Timing { event: String, within: String, start_from: StartFrom },
}

/// A boolean combination of named conditions.
#[derive(Debug)]
pub enum ConditionExpr {
    Reference(String),
    Not(Box<ConditionExpr>),
    And(Vec<ConditionExpr>),
    Or(Vec<ConditionExpr>),
}

/// What a case does when it fires.
#[derive(Debug, Clone, PartialEq, Eq)]
pub struct Action {
    pub action_type: String,
    pub url: Option<String>,
    pub severity: Option<String>,
    pub message: Option<String>,
}

/// One case of the flow: its required events, an optional condition,
/// and its action.
#[derive(Debug)]
pub struct Case {
    pub required: Vec<String>,
    pub condition: Option<ConditionExpr>,
    pub action: Action,
}

/// The flow: named conditions, and the cases that use them.
#[derive(Debug)]
pub struct Flow {
    pub conditions: Vec<(String, Condition)>,
    pub cases: Vec<(String, Case)>,
}

/// A whole rule document.
#[derive(Debug)]
pub struct EventRuleBuilder {
    pub correlation: Correlation,
    pub events: Vec<(String, EventDefinition)>,
    pub flow: Flow,
}

/// Whether a name stands among the keys of an association list of
/// event definitions.
pub open spec fn has_event(events: Seq<(String, EventDefinition)>, name: Seq<char>) -> bool {
    exists|i: int| 0 <= i < events.len() && (#[trigger] events[i]).0@ == name
}

/// Whether a name stands among the declared conditions.
pub open spec fn has_condition(conds: Seq<(String, Condition)>, name: Seq<char>) -> bool {
    exists|i: int| 0 <= i < conds.len() && (#[trigger] conds[i]).0@ == name
}

/// Every condition reference inside the expression is declared.
pub open spec fn expr_valid(e: ConditionExpr, conds: Seq<(String, Condition)>) -> bool
    decreases e,
{
    match e {
        ConditionExpr::Reference(name) => has_condition(conds, name@),
        ConditionExpr::Not(inner) => expr_valid(*inner, conds),
        ConditionExpr::And(exprs) => forall|i: int|
            0 <= i < exprs@.len() ==> expr_valid(#[trigger] exprs@[i], conds),
        ConditionExpr::Or(exprs) => forall|i: int|
            0 <= i < exprs@.len() ==> expr_valid(#[trigger] exprs@[i], conds),
    }
}

/// Every reference of the document resolves: required events exist,
/// referenced conditions exist, correlation keys name declared events.
pub open spec fn builder_valid(b: EventRuleBuilder) -> bool {
    &&& (forall|c: int, r: int|
        0 <= c < b.flow.cases@.len() && 0 <= r < (#[trigger] b.flow.cases@[c]).1.required@.len()
            ==> has_event(b.events@, (#[trigger] b.flow.cases@[c].1.required@[r])@))
    &&& (forall|c: int|
        0 <= c < b.flow.cases@.len() ==> ((#[trigger] b.flow.cases@[c]).1.condition matches Some(e)
            ==> expr_valid(e, b.flow.conditions@)))
    &&& (forall|k: int|
        0 <= k < b.correlation.key@.len() ==> has_event(
            b.events@,
            (#[trigger] b.correlation.key@[k]).0@,
        ))
}

fn name_known_event(events: &Vec<(String, EventDefinition)>, name: &String) -> (r: bool)
    ensures
        r == has_event(events@, name@),
{
    let mut i: usize = 0;
    while i < events.len()
        invariant
            i <= events@.len(),
            forall|k: int| 0 <= k < i ==> (#[trigger] events@[k]).0@ != name@,
        decreases events@.len() - i,
    {
        if events[i].0 == *name {
            proof {
                assert(events@[i as int].0@ == name@);
            }
            return true;
        }
        i = i + 1;
    }
    false
}

fn name_known_condition(conds: &Vec<(String, Condition)>, name: &String) -> (r: bool)
    ensures
        r == has_condition(conds@, name@),
{
    let mut i: usize = 0;
    while i < conds.len()
        invariant
            i <= conds@.len(),
            forall|k: int| 0 <= k < i ==> (#[trigger] conds@[k]).0@ != name@,
        decreases conds@.len() - i,
    {
        if conds[i].0 == *name {
            proof {
                assert(conds@[i as int].0@ == name@);
            }
            return true;
        }
        i = i + 1;
    }
    false
}

impl EventRuleBuilder {
    /// Check every reference of the document: each case requires only
    /// declared events, each condition expression names only declared
    /// conditions, and each correlation entry keys a declared event.
    #[verifier::loop_isolation(false)]
    pub fn validate(&self) -> (r: Result<(), RuleError>)
        ensures
            r is Ok <==> builder_valid(*self),
            r matches Err(e) ==> (e is MissingEvent || e is MissingCondition),
    {
        let cases = &self.flow.cases;
        let mut c: usize = 0;
        while c < cases.len()
            invariant
                c <= cases@.len(),
                cases@ == self.flow.cases@,
                forall|m: int, r2: int|
                    0 <= m < c && 0 <= r2 < (#[trigger] cases@[m]).1.required@.len() ==> has_event(
                        self.events@,
                        (#[trigger] cases@[m].1.required@[r2])@,
                    ),
            decreases cases@.len() - c,
        {
            let required = &cases[c].1.required;
            let mut r2: usize = 0;
            while r2 < required.len()
                invariant
                    r2 <= required@.len(),
                    c < cases@.len(),
                    required@ == cases@[c as int].1.required@,
                    forall|k: int|
                        0 <= k < r2 ==> has_event(self.events@, (#[trigger] required@[k])@),
                decreases required@.len() - r2,
            {
                if !name_known_event(&self.events, &required[r2]) {
                    proof {
                        assert(!has_event(
                            self.events@,
                            (cases@[c as int].1.required@[r2 as int])@,
                        ));
                        assert(!builder_valid(*self));
                    }
                    return Err(RuleError::MissingEvent(required[r2].clone()));
                }
                r2 = r2 + 1;
            }
            c = c + 1;
        }
        let mut c: usize = 0;
        while c < cases.len()
            invariant
                c <= cases@.len(),
                cases@ == self.flow.cases@,
                builder_cases_events_ok(*self),
                forall|m: int|
                    0 <= m < c ==> ((#[trigger] cases@[m]).1.condition matches Some(e)
                        ==> expr_valid(e, self.flow.conditions@)),
            decreases cases@.len() - c,
        {
            match &cases[c].1.condition {
                Some(e) => {
                    match self.validate_condition_expr(e) {
                        Ok(_) => {}
                        Err(err) => {
                            proof {
                                assert(cases@[c as int].1.condition matches Some(bad)
                                    && !expr_valid(bad, self.flow.conditions@));
                                assert(!builder_valid(*self));
                            }
                            return Err(err);
                        }
                    }
                }
                None => {}
            }
            c = c + 1;
        }
        let keys = &self.correlation.key;
        let mut k: usize = 0;
        while k < keys.len()
            invariant
                k <= keys@.len(),
                keys@ == self.correlation.key@,
                builder_cases_events_ok(*self),
                builder_cases_conds_ok(*self),
                forall|m: int|
                    0 <= m < k ==> has_event(self.events@, (#[trigger] keys@[m]).0@),
            decreases keys@.len() - k,
        {
            if !name_known_event(&self.events, &keys[k].0) {
                proof {
                    assert(!has_event(self.events@, (keys@[k as int]).0@));
                    assert(!builder_valid(*self));
                }
                return Err(RuleError::MissingEvent(keys[k].0.clone()));
            }
            k = k + 1;
        }
        Ok(())
    }

    /// Check every condition name the expression references.
    pub fn validate_condition_expr(&self, expr: &ConditionExpr) -> (r: Result<(), RuleError>)
        ensures
            r is Ok <==> expr_valid(*expr, self.flow.conditions@),
            r matches Err(e) ==> e is MissingCondition,
        decreases expr,
    {
        match expr {
            ConditionExpr::Reference(name) => {
                if name_known_condition(&self.flow.conditions, name) {
                    Ok(())
                } else {
                    Err(RuleError::MissingCondition(name.clone()))
                }
            }
            ConditionExpr::Not(inner) => self.validate_condition_expr(inner),
            ConditionExpr::And(exprs) => {
                proof {
                    assert(decreases_to!(ConditionExpr::And(*exprs) => *exprs));
                }
                self.validate_exprs(exprs)
            }
            ConditionExpr::Or(exprs) => {
                proof {
                    assert(decreases_to!(ConditionExpr::Or(*exprs) => *exprs));
                }
                self.validate_exprs(exprs)
            }
        }
    }

    #[verifier::loop_isolation(false)]
    fn validate_exprs(&self, exprs: &Vec<ConditionExpr>) -> (r: Result<(), RuleError>)
        ensures
            r is Ok <==> (forall|i: int|
                0 <= i < exprs@.len() ==> expr_valid(#[trigger] exprs@[i], self.flow.conditions@)),
            r matches Err(e) ==> e is MissingCondition,
        decreases *exprs,
    {
        let mut i: usize = 0;
        while i < exprs.len()
            invariant
                i <= exprs@.len(),
                forall|k: int|
                    0 <= k < i ==> expr_valid(#[trigger] exprs@[k], self.flow.conditions@),
            decreases exprs@.len() - i,
        {
            proof {
                assert(decreases_to!(*exprs => exprs@));
                assert(decreases_to!(exprs@ => exprs@[i as int]));
            }
            match self.validate_condition_expr(&exprs[i]) {
                Ok(_) => {}
                Err(e) => {
                    return Err(e);
                }
            }
            i = i + 1;
        }
        Ok(())
    }
}

/// The first two thirds of document validity, named so loop invariants
/// can carry them.
pub open spec fn builder_cases_events_ok(b: EventRuleBuilder) -> bool {
    forall|c: int, r: int|
        0 <= c < b.flow.cases@.len() && 0 <= r < (#[trigger] b.flow.cases@[c]).1.required@.len()
            ==> has_event(b.events@, (#[trigger] b.flow.cases@[c].1.required@[r])@)
}

/// Every case's condition expression resolves.
pub open spec fn builder_cases_conds_ok(b: EventRuleBuilder) -> bool {
    forall|c: int|
        0 <= c < b.flow.cases@.len() ==> ((#[trigger] b.flow.cases@[c]).1.condition matches Some(e)
            ==> expr_valid(e, b.flow.conditions@))
}

/// An uppercase ASCII letter and its lowercase form, or the same
/// character twice.
pub open spec fn ch_eq_ic(c: char, k: char) -> bool {
    c == k || ('A' <= c && c <= 'Z' && c as u32 + 32 == k as u32)
}

/// Case-insensitive equality against a lowercase word.
pub open spec fn eq_ic(a: Seq<char>, w: Seq<char>) -> bool {
    a.len() == w.len() && forall|i: int| 0 <= i < a.len() ==> ch_eq_ic(#[trigger] a[i], w[i])
}

/// Index of the first non-digit in `s` from `i` on, or the length.
pub open spec fn digit_end_at(s: Seq<char>, i: int) -> int
    decreases s.len() - i,
{
    if i < 0 || i >= s.len() {
        s.len() as int
    } else if !is_digit(s[i]) {
        i
    } else {
        digit_end_at(s, i + 1)
    }
}

/// The length of `s` with trailing whitespace removed.
pub open spec fn trim_end_at(s: Seq<char>) -> int
    decreases s.len(),
{
    if s.len() == 0 {
        0
    } else if is_ws(s.last()) {
        trim_end_at(s.drop_last())
    } else {
        s.len() as int
    }
}

/// `s` without leading and trailing whitespace.
pub open spec fn trim_spec(s: Seq<char>) -> Seq<char> {
    let a = skip_ws_at(s, 0);
    let b = trim_end_at(s);
    if a >= b {
        Seq::empty()
    } else {
        s.subrange(a, b)
    }
}

/// `s` with every whitespace character removed.
pub open spec fn strip_ws(s: Seq<char>) -> Seq<char>
    decreases s.len(),
{
    if s.len() == 0 {
        Seq::empty()
    } else {
        let rest = strip_ws(s.drop_last());
        if is_ws(s.last()) {
            rest
        } else {
            rest.push(s.last())
        }
    }
}

/// Seconds per unit word of the duration grammar, compared without
/// regard to letter case.
pub open spec fn duration_unit_seconds(u: Seq<char>) -> Option<int> {
    if eq_ic(u, "s"@) || eq_ic(u, "sec"@) || eq_ic(u, "secs"@) || eq_ic(u, "second"@) || eq_ic(
        u,
        "seconds"@,
    ) {
        Some(1)
    } else if eq_ic(u, "m"@) || eq_ic(u, "min"@) || eq_ic(u, "mins"@) || eq_ic(u, "minute"@)
        || eq_ic(u, "minutes"@) {
        Some(60)
    } else if eq_ic(u, "h"@) || eq_ic(u, "hr"@) || eq_ic(u, "hrs"@) || eq_ic(u, "hour"@) || eq_ic(
        u,
        "hours"@,
    ) {
        Some(3600)
    } else if eq_ic(u, "d"@) || eq_ic(u, "day"@) || eq_ic(u, "days"@) {
        Some(86400)
    } else {
        None
    }
}

/// What `parse_duration` yields: trim the text, read a digit prefix and
/// a unit word (inner whitespace ignored, letter case ignored), and
/// multiply out to whole seconds.
pub open spec fn parse_duration_spec(s: Seq<char>) -> Option<int> {
    let t = trim_spec(s);
    let de = digit_end_at(t, 0);
    let digits = t.subrange(0, de);
    let unit = strip_ws(t.subrange(de, t.len() as int));
    match digits_value(digits) {
        None => None,
        Some(v) => match duration_unit_seconds(unit) {
            Some(mult) => Some(v * mult),
            None => None,
        },
    }
}

fn eq_ic_exec(a: &Vec<char>, w: &str) -> (r: bool)
    ensures
        r == eq_ic(a@, w@),
{
    let wv = chars_of(w);
    if a.len() != wv.len() {
        return false;
    }
    let mut i: usize = 0;
    while i < a.len()
        invariant
            i <= a@.len(),
            a@.len() == wv@.len(),
            wv@ == w@,
            forall|k: int| 0 <= k < i ==> ch_eq_ic(#[trigger] a@[k], w@[k]),
        decreases a@.len() - i,
    {
        let c = a[i];
        let k = wv[i];
        let same = c == k || ('A' <= c && c <= 'Z' && (c as u32) + 32 == (k as u32));
        if !same {
            return false;
        }
        i = i + 1;
    }
    true
}

/// Parse a duration such as `30s`, `5 min` or `2H` into whole seconds.
/// The text is trimmed; a digit prefix is followed by a unit word
/// (seconds, minutes, hours or days, in several spellings, any letter
/// case, inner whitespace ignored).  Anything else is refused, as is a
/// value whose seconds leave the unsigned 64-bit range.
#[verifier::rlimit(80)]
#[verifier::loop_isolation(false)]
pub fn parse_duration(duration_str: &str) -> (r: Result<u64, RuleError>)
    ensures
        match r {
            Ok(v) => parse_duration_spec(duration_str@) == Some(v as int),
            Err(_) => {
                ||| parse_duration_spec(duration_str@) is None
                ||| (parse_duration_spec(duration_str@) matches Some(v) && v
                    > 0xffff_ffff_ffff_ffff)
                ||| (digits_value(
                    trim_spec(duration_str@).subrange(
                        0,
                        digit_end_at(trim_spec(duration_str@), 0),
                    ),
                ) matches Some(v) && v > 0xffff_ffff_ffff_ffff)
            },
        },
{
    let all = chars_of(duration_str);
    let mut a: usize = 0;
    while a < all.len() && is_ws_exec2(all[a])
        invariant
            a <= all@.len(),
            skip_ws_at(all@, 0) == skip_ws_at(all@, a as int),
            forall|k: int| 0 <= k < a ==> is_ws(all@[k]),
        decreases all@.len() - a,
    {
        a = a + 1;
    }
    proof {
        assert(a as int == skip_ws_at(all@, 0));
        assert(all@.subrange(0, all@.len() as int) =~= all@);
    }
    let mut b: usize = all.len();
    while b > a && is_ws_exec2(all[b - 1])
        invariant
            a <= b <= all@.len(),
            a as int == skip_ws_at(all@, 0),
            trim_end_at(all@) == trim_end_at(all@.subrange(0, b as int)),
            forall|k: int| 0 <= k < a ==> is_ws(all@[k]),
            forall|k: int| b <= k < all@.len() ==> is_ws(all@[k]),
        decreases b,
    {
        proof {
            assert(all@.subrange(0, b as int).last() == all@[b - 1]);
            assert(all@.subrange(0, b as int).drop_last() =~= all@.subrange(0, b - 1));
        }
        b = b - 1;
    }
    let ghost t = trim_spec(duration_str@);
    proof {
        assert(all@.subrange(0, all@.len() as int) =~= all@);
        if b > a {
            assert(all@.subrange(0, b as int).last() == all@[b - 1]);
            assert(!is_ws(all@[b - 1]));
            assert(trim_end_at(all@) == b as int) by {
                lemma_trim_end_fixed(all@.subrange(0, b as int));
                assert(all@.subrange(0, b as int).subrange(0, b as int) =~= all@.subrange(
                    0,
                    b as int,
                ));
            }
            assert(t =~= all@.subrange(a as int, b as int));
        } else {
            assert(b == a);
            if a < all@.len() {
                assert(!is_ws(all@[a as int]));
                assert(is_ws(all@[a as int]));
                assert(false);
            }
            assert(b as int == all@.len());
            assert(trim_end_at(all@) <= b as int) by {
                lemma_trim_end_bound(all@, b as int);
            }
            assert(skip_ws_at(all@, 0) >= trim_end_at(all@));
            assert(t =~= Seq::<char>::empty());
        }
    }
    let mut trimmed: Vec<char> = Vec::new();
    let mut k: usize = a;
    while k < b
        invariant
            a <= k <= b <= all@.len(),
            trimmed@ == all@.subrange(a as int, k as int),
        decreases b - k,
    {
        trimmed.push(all[k]);
        k = k + 1;
        proof {
            assert(trimmed@ =~= all@.subrange(a as int, k as int));
        }
    }
    proof {
        assert(trimmed@ =~= t);
    }
    let mut de: usize = 0;
    while de < trimmed.len() && '0' <= trimmed[de] && trimmed[de] <= '9'
        invariant
            de <= trimmed@.len(),
            digit_end_at(trimmed@, 0) == digit_end_at(trimmed@, de as int),
        decreases trimmed@.len() - de,
    {
        de = de + 1;
    }
    proof {
        assert(digit_end_at(trimmed@, 0) == de as int);
    }
    if de == 0 {
        proof {
            assert(trimmed@.subrange(0, 0) =~= Seq::<char>::empty());
        }
        return Err(RuleError::DurationError("a duration starts with digits".to_owned()));
    }
    let mut acc: u64 = 0;
    let mut k: usize = 0;
    proof {
        assert(trimmed@.subrange(0, 0) =~= Seq::<char>::empty());
        lemma_digit_prefix(trimmed@, 0, de as int);
    }
    while k < de
        invariant
            k <= de <= trimmed@.len(),
            digit_end_at(trimmed@, 0) == de as int,
            forall|m: int| 0 <= m < de ==> is_digit(#[trigger] trimmed@[m]),
            k > 0 ==> digits_value(trimmed@.subrange(0, k as int)) == Some(acc as int),
            k == 0 ==> acc == 0,
        decreases de - k,
    {
        proof {
            lemma_digit_prefix(trimmed@, 0, de as int);
            let next = trimmed@.subrange(0, k + 1);
            assert(next.drop_last() =~= trimmed@.subrange(0, k as int));
            assert(next.last() == trimmed@[k as int]);
        }
        let c = trimmed[k];
        let d: u64 = (c as u32 as u64) - ('0' as u32 as u64);
        if acc > (0xffff_ffff_ffff_ffffu64 - d) / 10 {
            proof {
                vstd::arithmetic::div_mod::lemma_fundamental_div_mod(
                    0xffff_ffff_ffff_ffff - d as int,
                    10,
                );
                vstd::arithmetic::div_mod::lemma_mod_bound(0xffff_ffff_ffff_ffff - d as int, 10);
                assert(acc as int * 10 + d as int > 0xffff_ffff_ffff_ffff) by (nonlinear_arith)
                    requires
                        acc as int > (0xffff_ffff_ffff_ffff - d as int) / 10,
                        0 <= d <= 9,
                        (0xffff_ffff_ffff_ffff - d as int) == 10 * ((0xffff_ffff_ffff_ffff
                            - d as int) / 10) + ((0xffff_ffff_ffff_ffff - d as int) % 10),
                        0 <= ((0xffff_ffff_ffff_ffff - d as int) % 10) < 10,
                ;
                let next = trimmed@.subrange(0, k + 1);
                assert(next.drop_last() =~= trimmed@.subrange(0, k as int));
                assert(next.last() == trimmed@[k as int]);
                assert(digits_value(next) == Some(acc as int * 10 + digit_val(trimmed@[k as int])));
                assert(digit_val(trimmed@[k as int]) == d as int);
                lemma_duration_digits_grow(trimmed@, k + 1, de as int);
            }
            return Err(RuleError::DurationError("duration number too large".to_owned()));
        }
        acc = acc * 10 + d;
        k = k + 1;
    }
    let mut unit: Vec<char> = Vec::new();
    let mut k: usize = de;
    proof {
        assert(strip_ws(trimmed@.subrange(de as int, de as int)) =~= Seq::<char>::empty());
    }
    while k < trimmed.len()
        invariant
            de <= k <= trimmed@.len(),
            unit@ == strip_ws(trimmed@.subrange(de as int, k as int)),
        decreases trimmed@.len() - k,
    {
        proof {
            let next = trimmed@.subrange(de as int, k + 1);
            assert(next.drop_last() =~= trimmed@.subrange(de as int, k as int));
            assert(next.last() == trimmed@[k as int]);
        }
        if !is_ws_exec2(trimmed[k]) {
            unit.push(trimmed[k]);
        }
        k = k + 1;
    }
    proof {
        assert(unit@ =~= strip_ws(trimmed@.subrange(de as int, trimmed@.len() as int)));
    }
    let mult: u64 = if eq_ic_exec(&unit, "s") || eq_ic_exec(&unit, "sec") || eq_ic_exec(
        &unit,
        "secs",
    ) || eq_ic_exec(&unit, "second") || eq_ic_exec(&unit, "seconds") {
        1
    } else if eq_ic_exec(&unit, "m") || eq_ic_exec(&unit, "min") || eq_ic_exec(&unit, "mins")
        || eq_ic_exec(&unit, "minute") || eq_ic_exec(&unit, "minutes") {
        60
    } else if eq_ic_exec(&unit, "h") || eq_ic_exec(&unit, "hr") || eq_ic_exec(&unit, "hrs")
        || eq_ic_exec(&unit, "hour") || eq_ic_exec(&unit, "hours") {
        3600
    } else if eq_ic_exec(&unit, "d") || eq_ic_exec(&unit, "day") || eq_ic_exec(&unit, "days") {
        86400
    } else {
        return Err(RuleError::DurationError("unknown duration unit".to_owned()));
    };
    match acc.checked_mul(mult) {
        Some(v) => Ok(v),
        None => {
            proof {
                vstd::arithmetic::mul::lemma_mul_nonnegative(acc as int, mult as int);
            }
            Err(RuleError::DurationError("duration too large".to_owned()))
        },
    }
}

fn is_ws_exec2(c: char) -> (r: bool)
    ensures
        r == is_ws(c),
{
    c == ' ' || c == '\t' || c == '\n' || c == '\r'
}

proof fn lemma_trim_end_fixed(s: Seq<char>)
    requires
        s.len() > 0,
        !is_ws(s.last()),
    ensures
        trim_end_at(s) == s.len() as int,
{
}

proof fn lemma_trim_end_bound(s: Seq<char>, b: int)
    ensures
        trim_end_at(s) <= s.len(),
    decreases s.len(),
{
    if s.len() > 0 && is_ws(s.last()) {
        lemma_trim_end_bound(s.drop_last(), b);
    }
}

proof fn lemma_digit_prefix(s: Seq<char>, i: int, de: int)
    requires
        0 <= i <= s.len(),
        digit_end_at(s, i) == de,
    ensures
        forall|m: int| i <= m < de ==> is_digit(#[trigger] s[m]),
    decreases s.len() - i,
{
    if i < s.len() && is_digit(s[i]) {
        lemma_digit_prefix(s, i + 1, de);
    }
}

proof fn lemma_duration_digits_grow(s: Seq<char>, k: int, p: int)
    requires
        0 < k <= p <= s.len(),
        forall|m: int| 0 <= m < p ==> is_digit(#[trigger] s[m]),
        digits_value(s.subrange(0, k)) matches Some(v) && v > 0xffff_ffff_ffff_ffff,
    ensures
        digits_value(s.subrange(0, p)) matches Some(w) && w > 0xffff_ffff_ffff_ffff,
    decreases p - k,
{
    if k < p {
        let cur = s.subrange(0, k);
        let next = s.subrange(0, k + 1);
        assert(next.drop_last() =~= cur);
        assert(next.last() == s[k]);
        lemma_duration_digits_grow(s, k + 1, p);
    }
}

} // verus!
