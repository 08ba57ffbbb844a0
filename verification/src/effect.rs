//! Source-local information in effect: which assertions still stand at a
//! pair of temporal cuts. No sources are fused and no truth is chosen.

use crate::construct::{
    appearance_keys, Database, appearance_keys_before, appearance_order_is_strict, identity_index, sorts_before, text_before,
    text_order_is_strict, Posit, PositKeeper, Thing, ASCERTAINS_ROLE_ID, POSIT_ROLE_ID,
};
use crate::datatype::{stored_before, stored_order_is_strict, Time};
use crate::error::{resource_limit, DatabaseError};
use crate::literal::{certainty_of, LiteralFamily};
use crate::text::{decimal_text, push_decimal, text};
use vstd::prelude::*;
use vstd::string::StringExecFns;
use vstd::utf8::encode_utf8;

verus! {

pub const MAX_EFFECT_ASSERTION_CANDIDATES: u64 = 1000000;

pub const MAX_EFFECT_TEMPORAL_COMPARISONS: u64 = 20000000;

/// Fail-closed resource limits for one resolution.
#[derive(Debug, Clone, Copy, PartialEq, Eq, Structural)]
pub struct EffectLimits {
    pub assertion_candidates: u64,
    pub temporal_comparisons: u64,
}

impl Default for EffectLimits {
    fn default() -> (l: Self)
        ensures
            l.assertion_candidates == MAX_EFFECT_ASSERTION_CANDIDATES,
            l.temporal_comparisons == MAX_EFFECT_TEMPORAL_COMPARISONS,
    {
        EffectLimits {
            assertion_candidates: MAX_EFFECT_ASSERTION_CANDIDATES,
            temporal_comparisons: MAX_EFFECT_TEMPORAL_COMPARISONS,
        }
    }
}

/// The two temporal cuts of a resolution: one for the assertions, one for
/// the appearances they assert.
#[derive(Debug, Clone, Copy, PartialEq, Eq, Structural)]
pub struct EffectCut {
    assertion_time: Time,
    appearance_time: Time,
}

impl EffectCut {
    pub closed spec fn assertion_cut(&self) -> Time {
        self.assertion_time
    }

    pub closed spec fn appearance_cut(&self) -> Time {
        self.appearance_time
    }

    pub fn new(assertion_time: Time, appearance_time: Time) -> (c: Self)
        ensures
            c.assertion_cut() == assertion_time,
            c.appearance_cut() == appearance_time,
    {
        EffectCut { assertion_time, appearance_time }
    }

    pub fn assertion_time(&self) -> (t: &Time)
        ensures
            *t == self.assertion_cut(),
    {
        &self.assertion_time
    }

    pub fn appearance_time(&self) -> (t: &Time)
        ensures
            *t == self.appearance_cut(),
    {
        &self.appearance_time
    }
}

/// Work counters of one resolution.
#[derive(Debug, Clone, Copy, PartialEq, Eq, Structural)]
pub struct EffectCounters {
    pub assertion_candidates: u64,
    pub temporally_eligible: u64,
    pub retractions: u64,
    pub temporal_comparisons: u64,
    pub effective_assertions: u64,
}

impl Default for EffectCounters {
    fn default() -> (c: Self)
        ensures
            c == (EffectCounters {
                assertion_candidates: 0,
                temporally_eligible: 0,
                retractions: 0,
                temporal_comparisons: 0,
                effective_assertions: 0,
            }),
    {
        EffectCounters {
            assertion_candidates: 0,
            temporally_eligible: 0,
            retractions: 0,
            temporal_comparisons: 0,
            effective_assertions: 0,
        }
    }
}

/// Counts one temporal comparison, failing once the limit is passed.
pub fn count_comparison(counters: &mut EffectCounters, limits: EffectLimits) -> (r: Result<(), DatabaseError>)
    ensures
        old(counters).temporal_comparisons == u64::MAX ==> (r matches Err(DatabaseError::Invariant(_))
            && *final(counters) == *old(counters)),
        old(counters).temporal_comparisons < u64::MAX ==> {
            &&& *final(counters) == (EffectCounters {
                temporal_comparisons: (old(counters).temporal_comparisons + 1) as u64,
                ..*old(counters)
            })
            &&& (r is Ok <==> final(counters).temporal_comparisons <= limits.temporal_comparisons)
            &&& r is Err ==> r == Err::<(), DatabaseError>(
                DatabaseError::ResourceLimit {
                    resource: "effective temporal comparisons",
                    limit: limits.temporal_comparisons,
                },
            )
        },
{
    match counters.temporal_comparisons.checked_add(1) {
        None => Err(DatabaseError::Invariant(String::from_str("effect comparison count overflowed"))),
        Some(next) => {
            counters.temporal_comparisons = next;
            if next > limits.temporal_comparisons {
                Err(resource_limit("effective temporal comparisons", limits.temporal_comparisons))
            } else {
                Ok(())
            }
        },
    }
}

// ---------------------------------------------------------------------------
// Assertions and the posits they assert
// ---------------------------------------------------------------------------

/// One assertion kept by a resolution, together with the posit it asserts.
#[derive(Debug)]
pub struct EffectiveAssertion {
    assertion: Posit,
    target: Posit,
    positor: Thing,
    certainty_percent: i8,
}

/// What a resolution knows of an assertion: the identities, times and
/// contents by which it compares, groups and orders assertions.
pub struct AssertionView {
    pub assertion: Thing,
    pub assertion_time: Time,
    pub certainty_token: Seq<char>,
    pub target: Thing,
    pub target_appearances: Seq<(Thing, Thing)>,
    pub target_value: Seq<char>,
    pub target_time: Time,
    pub positor: Thing,
    pub certainty: i8,
}

impl View for EffectiveAssertion {
    type V = AssertionView;

    closed spec fn view(&self) -> AssertionView {
        AssertionView {
            assertion: self.assertion.identity(),
            assertion_time: self.assertion.time_spec(),
            certainty_token: self.assertion.value_token(),
            target: self.target.identity(),
            target_appearances: appearance_keys(self.target.members()),
            target_value: self.target.value_token(),
            target_time: self.target.time_spec(),
            positor: self.positor,
            certainty: self.certainty_percent,
        }
    }
}

impl EffectiveAssertion {
    pub fn assertion_identity(&self) -> (t: Thing)
        ensures
            t == self@.assertion,
    {
        self.assertion.posit()
    }

    pub fn target_identity(&self) -> (t: Thing)
        ensures
            t == self@.target,
    {
        self.target.posit()
    }

    pub fn positor(&self) -> (t: Thing)
        ensures
            t == self@.positor,
    {
        self.positor
    }

    pub fn certainty(&self) -> (v: &crate::literal::LiteralValue)
        ensures
            v.token_spec() == self@.certainty_token,
    {
        self.assertion.value()
    }

    pub fn certainty_percent(&self) -> (p: i8)
        ensures
            p == self@.certainty,
    {
        self.certainty_percent
    }

    pub fn assertion_time(&self) -> (t: &Time)
        ensures
            *t == self@.assertion_time,
    {
        self.assertion.time()
    }

    pub fn target(&self) -> (p: Posit)
        ensures
            p.identity() == self@.target,
            appearance_keys(p.members()) == self@.target_appearances,
            p.value_token() == self@.target_value,
            p.time_spec() == self@.target_time,
    {
        self.target.clone()
    }

    pub fn assertion(&self) -> (p: Posit)
        ensures
            p.identity() == self@.assertion,
            p.value_token() == self@.certainty_token,
            p.time_spec() == self@.assertion_time,
    {
        self.assertion.clone()
    }
}

impl Clone for EffectiveAssertion {
    fn clone(&self) -> (r: Self)
        ensures
            r@ == self@,
    {
        let r = EffectiveAssertion {
            assertion: self.assertion.clone(),
            target: self.target.clone(),
            positor: self.positor,
            certainty_percent: self.certainty_percent,
        };
        proof {
            assert(r@.target_appearances =~= self@.target_appearances);
        }
        r
    }
}

/// The views of a sequence of assertions.
pub open spec fn views(s: Seq<EffectiveAssertion>) -> Seq<AssertionView> {
    s.map_values(|a: EffectiveAssertion| a@)
}

/// `a` is no later than `b`: the two stored times are equal, or `a` ends
/// before `b` begins.
pub open spec fn at_or_before(a: Time, b: Time) -> bool {
    a == b || a.definitely_before_spec(b)
}

/// The thing of the last appearance in `role`, if any.
pub open spec fn role_thing(keys: Seq<(Thing, Thing)>, role: Thing) -> Option<Thing>
    decreases keys.len(),
{
    if keys.len() == 0 {
        None
    } else if keys.last().0 == role {
        Some(keys.last().1)
    } else {
        role_thing(keys.drop_last(), role)
    }
}

/// The asserted posit and the positor of an exact `{posit, ascertains}`
/// envelope: two appearances, one in each built-in role.
pub open spec fn envelope(keys: Seq<(Thing, Thing)>) -> Option<(Thing, Thing)> {
    if keys.len() != 2 {
        None
    } else {
        match (role_thing(keys, POSIT_ROLE_ID), role_thing(keys, ASCERTAINS_ROLE_ID)) {
            (Some(target), Some(positor)) => Some((target, positor)),
            _ => None,
        }
    }
}

/// What becomes of one assertion candidate.
pub enum Examination {
    /// Not an envelope, or outside one of the cuts.
    Skipped,
    /// Temporally eligible.
    Kept(AssertionView),
    /// No posit carries the candidate identity.
    UnknownAssertion,
    /// The envelope's value is not a certainty.
    NotCertainty,
    /// The asserted posit does not exist.
    DanglingTarget,
}

/// Examines the candidate `identity` against the kept posits and the cuts.
pub open spec fn examine(posits: Seq<Posit>, identity: Thing, cut: EffectCut) -> Examination {
    match identity_index(posits, identity) {
        None => Examination::UnknownAssertion,
        Some(i) => {
            let a = posits[i];
            match envelope(appearance_keys(a.members())) {
                None => Examination::Skipped,
                Some((target, positor)) => if !at_or_before(a.time_spec(), cut.assertion_cut()) {
                    Examination::Skipped
                } else if a.value_family() != LiteralFamily::Certainty {
                    Examination::NotCertainty
                } else {
                    match identity_index(posits, target) {
                        None => Examination::DanglingTarget,
                        Some(j) => if !at_or_before(posits[j].time_spec(), cut.appearance_cut()) {
                            Examination::Skipped
                        } else {
                            Examination::Kept(
                                AssertionView {
                                    assertion: identity,
                                    assertion_time: a.time_spec(),
                                    certainty_token: a.value_token(),
                                    target,
                                    target_appearances: appearance_keys(posits[j].members()),
                                    target_value: posits[j].value_token(),
                                    target_time: posits[j].time_spec(),
                                    positor,
                                    certainty: certainty_of(encode_utf8(a.value_token()))->0 as i8,
                                },
                            )
                        },
                    }
                },
            }
        },
    }
}

/// The temporally eligible assertions among `candidates`, in their order,
/// or the first failing examination.
pub open spec fn eligible(posits: Seq<Posit>, candidates: Seq<Thing>, cut: EffectCut) -> Result<
    Seq<AssertionView>,
    Examination,
>
    decreases candidates.len(),
{
    if candidates.len() == 0 {
        Ok(Seq::empty())
    } else {
        match eligible(posits, candidates.drop_last(), cut) {
            Err(e) => Err(e),
            Ok(rows) => match examine(posits, candidates.last(), cut) {
                Examination::Skipped => Ok(rows),
                Examination::Kept(v) => Ok(rows.push(v)),
                other => Err(other),
            },
        }
    }
}

/// The error a failing examination is reported as.
pub open spec fn examination_error(x: Examination, e: DatabaseError) -> bool {
    match x {
        Examination::UnknownAssertion => e is Invariant,
        _ => e is Execution,
    }
}

proof fn lemma_eligible_failure_stays(posits: Seq<Posit>, candidates: Seq<Thing>, k: int, cut: EffectCut)
    requires
        0 <= k <= candidates.len(),
        eligible(posits, candidates.take(k), cut) is Err,
    ensures
        eligible(posits, candidates, cut) == eligible(posits, candidates.take(k), cut),
    decreases candidates.len() - k,
{
    if k < candidates.len() {
        assert(candidates.take(k + 1).drop_last() =~= candidates.take(k));
        lemma_eligible_failure_stays(posits, candidates, k + 1, cut);
    } else {
        assert(candidates.take(k) =~= candidates);
    }
}

fn identity_message(before: &str, identity: Thing, after: &str) -> (m: String)
    ensures
        m@ == before@ + decimal_text(identity as nat) + after@,
{
    let mut m = text(before);
    push_decimal(&mut m, identity);
    m.append(after);
    m
}

/// The appearance in `role` of an appearance set, as the last one wins.
fn find_role_thing(posit: &Posit, role: Thing) -> (r: Option<Thing>)
    ensures
        r == role_thing(appearance_keys(posit.members()), role),
{
    let set = posit.appearance_set();
    let members = set.appearances();
    let ghost keys = appearance_keys(posit.members());
    let mut found: Option<Thing> = None;
    let mut i: usize = 0;
    while i < members.len()
        invariant
            keys == appearance_keys(members@),
            i <= members@.len(),
            found == role_thing(keys.take(i as int), role),
        decreases members@.len() - i,
    {
        assert(keys.take(i + 1).drop_last() =~= keys.take(i as int));
        if members[i].role().role() == role {
            found = Some(members[i].thing());
        }
        i = i + 1;
    }
    assert(keys.take(i as int) =~= keys);
    found
}

/// Examines one assertion candidate.
fn examine_candidate(keeper: &PositKeeper, identity: Thing, cut: &EffectCut) -> (r: Result<
    Option<EffectiveAssertion>,
    DatabaseError,
>)
    ensures
        match examine(keeper.posits(), identity, *cut) {
            Examination::Skipped => r matches Ok(None),
            Examination::Kept(v) => r matches Ok(Some(a)) && a@ == v,
            x => r matches Err(e) && examination_error(x, e),
        },
{
    let assertion = match keeper.posit(identity) {
        Some(p) => p,
        None => {
            return Err(
                DatabaseError::Invariant(
                    identity_message("assertion index contains identity ", identity, " without a literal posit"),
                ),
            );
        },
    };
    let ghost i = identity_index(keeper.posits(), identity)->0;
    let keys_len = assertion.appearance_set().appearances().len();
    if keys_len != 2 {
        return Ok(None);
    }
    let target_identity = find_role_thing(&assertion, POSIT_ROLE_ID);
    let positor = find_role_thing(&assertion, ASCERTAINS_ROLE_ID);
    let (target_identity, positor) = match (target_identity, positor) {
        (Some(t), Some(p)) => (t, p),
        _ => {
            return Ok(None);
        },
    };
    if !assertion.time().definitely_at_or_before(cut.assertion_time()) {
        return Ok(None);
    }
    let certainty_percent = match assertion.value().certainty_percent() {
        Err(e) => {
            return Err(DatabaseError::Invariant(e));
        },
        Ok(None) => {
            let mut m = identity_message("malformed assertion posit ", identity, "");
            m.append(": exact {posit, ascertains} envelopes require a certainty literal");
            return Err(DatabaseError::Execution(m));
        },
        Ok(Some(p)) => p,
    };
    let target = match keeper.posit(target_identity) {
        Some(p) => p,
        None => {
            let mut m = identity_message("dangling assertion posit ", identity, ": target posit ");
            push_decimal(&mut m, target_identity);
            m.append(" does not exist");
            return Err(DatabaseError::Execution(m));
        },
    };
    if !target.time().definitely_at_or_before(cut.appearance_time()) {
        return Ok(None);
    }
    let a = EffectiveAssertion { assertion, target, positor, certainty_percent };
    Ok(Some(a))
}

/// The temporally eligible assertions among `candidates`, in their order.
fn collect_eligible(keeper: &PositKeeper, candidates: &[Thing], cut: &EffectCut) -> (r: Result<
    Vec<EffectiveAssertion>,
    DatabaseError,
>)
    ensures
        match eligible(keeper.posits(), candidates@, *cut) {
            Ok(rows) => r matches Ok(v) && views(v@) == rows,
            Err(x) => r matches Err(e) && examination_error(x, e),
        },
{
    let mut out: Vec<EffectiveAssertion> = Vec::new();
    let mut i: usize = 0;
    assert(candidates@.take(0) =~= Seq::<Thing>::empty());
    assert(views(out@) =~= Seq::<AssertionView>::empty());
    while i < candidates.len()
        invariant
            i <= candidates@.len(),
            eligible(keeper.posits(), candidates@.take(i as int), *cut) == Ok::<Seq<AssertionView>, Examination>(
                views(out@),
            ),
        decreases candidates@.len() - i,
    {
        assert(candidates@.take(i + 1).drop_last() =~= candidates@.take(i as int));
        assert(candidates@.take(i + 1).last() == candidates@[i as int]);
        match examine_candidate(keeper, candidates[i], cut) {
            Err(e) => {
                proof {
                    lemma_eligible_failure_stays(keeper.posits(), candidates@, i + 1, *cut);
                }
                return Err(e);
            },
            Ok(None) => {},
            Ok(Some(a)) => {
                let ghost before = out@;
                out.push(a);
                assert(views(out@) =~= views(before).push(a@));
            },
        }
        i = i + 1;
    }
    assert(candidates@.take(i as int) =~= candidates@);
    Ok(out)
}

// ---------------------------------------------------------------------------
// Retractions
// ---------------------------------------------------------------------------

/// `x` is a retraction of the posit `r` asserts, by the same positor: a zero
/// certainty about the same target.
pub open spec fn retraction_of(x: AssertionView, r: AssertionView) -> bool {
    x.certainty == 0 && x.positor == r.positor && x.target == r.target
}

/// The retraction `x` withdraws `r`: `r` was asserted definitely before it.
pub open spec fn withdraws(x: AssertionView, r: AssertionView) -> bool {
    retraction_of(x, r) && r.assertion_time.definitely_before_spec(x.assertion_time)
}

/// Some retraction among `rows` withdraws `r`.
pub open spec fn withdrawn(rows: Seq<AssertionView>, r: AssertionView) -> bool {
    exists|j: int| 0 <= j < rows.len() && withdraws(#[trigger] rows[j], r)
}

/// `r` is a non-zero assertion that no retraction among `rows` withdraws.
pub open spec fn stands_in(rows: Seq<AssertionView>, r: AssertionView) -> bool {
    r.certainty != 0 && !withdrawn(rows, r)
}

pub open spec fn stands(rows: Seq<AssertionView>) -> spec_fn(AssertionView) -> bool {
    |r: AssertionView| stands_in(rows, r)
}

/// The assertions that still stand, in their order.
pub open spec fn standing(rows: Seq<AssertionView>) -> Seq<AssertionView> {
    rows.filter(stands(rows))
}

/// The comparisons spent on `r` from position `j` of `rows` on: one per
/// retraction of its posit, up to the first that withdraws it.
pub open spec fn retraction_checks_from(rows: Seq<AssertionView>, r: AssertionView, j: nat) -> nat
    decreases rows.len() - j,
{
    if j >= rows.len() {
        0
    } else if retraction_of(rows[j as int], r) {
        if withdraws(rows[j as int], r) {
            1
        } else {
            1 + retraction_checks_from(rows, r, j + 1)
        }
    } else {
        retraction_checks_from(rows, r, j + 1)
    }
}

/// The comparisons spent on the non-zero assertions among the first `n`.
pub open spec fn retraction_checks(rows: Seq<AssertionView>, n: nat) -> nat
    decreases n,
{
    if n == 0 || n > rows.len() {
        0
    } else {
        retraction_checks(rows, (n - 1) as nat) + if rows[n - 1].certainty != 0 {
            retraction_checks_from(rows, rows[n - 1], 0)
        } else {
            0
        }
    }
}

proof fn lemma_retraction_checks_grow(rows: Seq<AssertionView>, a: nat, b: nat)
    requires
        a <= b <= rows.len(),
    ensures
        retraction_checks(rows, a) <= retraction_checks(rows, b),
    decreases b - a,
{
    if a < b {
        lemma_retraction_checks_grow(rows, a, (b - 1) as nat);
    }
}

/// Whether a retraction withdraws `rows[i]`, counting each comparison.
fn is_withdrawn(rows: &Vec<EffectiveAssertion>, i: usize, counters: &mut EffectCounters, limits: EffectLimits) -> (r:
    Result<bool, DatabaseError>)
    requires
        i < rows@.len(),
        old(counters).temporal_comparisons <= limits.temporal_comparisons,
    ensures
        r is Ok <==> old(counters).temporal_comparisons + retraction_checks_from(views(rows@), rows@[i as int]@, 0)
            <= limits.temporal_comparisons,
        r matches Ok(b) ==> b == withdrawn(views(rows@), rows@[i as int]@) && *final(counters) == (EffectCounters {
            temporal_comparisons: (old(counters).temporal_comparisons + retraction_checks_from(
                views(rows@),
                rows@[i as int]@,
                0,
            )) as u64,
            ..*old(counters)
        }),
        r matches Err(e) ==> e is ResourceLimit || e is Invariant,
{
    let ghost rv = views(rows@);
    let ghost cand = rows@[i as int]@;
    let ghost start = counters.temporal_comparisons;
    let mut j: usize = 0;
    while j < rows.len()
        invariant
            rv == views(rows@),
            cand == rows@[i as int]@,
            i < rows@.len(),
            j <= rows@.len(),
            counters.temporal_comparisons + retraction_checks_from(rv, cand, j as nat) == start
                + retraction_checks_from(rv, cand, 0),
            counters.temporal_comparisons <= limits.temporal_comparisons,
            *counters == (EffectCounters { temporal_comparisons: counters.temporal_comparisons, ..*old(counters) }),
            start == old(counters).temporal_comparisons,
            forall|k: int| 0 <= k < j ==> !withdraws(#[trigger] rv[k], cand),
        decreases rows@.len() - j,
    {
        let other = &rows[j];
        let candidate = &rows[i];
        assert(rv[j as int] == other@);
        if other.certainty_percent == 0 && other.positor == candidate.positor
            && other.target.posit() == candidate.target.posit() {
            match count_comparison(counters, limits) {
                Err(e) => {
                    return Err(e);
                },
                Ok(()) => {},
            }
            if candidate.assertion.time().definitely_before(other.assertion.time()) {
                return Ok(true);
            }
        }
        j = j + 1;
    }
    Ok(false)
}

/// The assertions that still stand, counting each comparison.
fn without_retracted(rows: &Vec<EffectiveAssertion>, counters: &mut EffectCounters, limits: EffectLimits) -> (r:
    Result<Vec<EffectiveAssertion>, DatabaseError>)
    requires
        old(counters).temporal_comparisons <= limits.temporal_comparisons,
    ensures
        r is Ok <==> old(counters).temporal_comparisons + retraction_checks(views(rows@), rows@.len())
            <= limits.temporal_comparisons,
        r matches Ok(v) ==> views(v@) == standing(views(rows@)) && *final(counters) == (EffectCounters {
            temporal_comparisons: (old(counters).temporal_comparisons + retraction_checks(views(rows@), rows@.len())) as u64,
            ..*old(counters)
        }),
        r matches Err(e) ==> e is ResourceLimit || e is Invariant,
{
    let ghost rv = views(rows@);
    let ghost start = counters.temporal_comparisons;
    let mut out: Vec<EffectiveAssertion> = Vec::new();
    let mut i: usize = 0;
    assert(rv.take(0) =~= Seq::<AssertionView>::empty());
    assert(views(out@) =~= Seq::<AssertionView>::empty());
    proof {
        reveal(Seq::filter);
    }
    while i < rows.len()
        invariant
            rv == views(rows@),
            i <= rows@.len(),
            start == old(counters).temporal_comparisons,
            counters.temporal_comparisons == start + retraction_checks(rv, i as nat),
            counters.temporal_comparisons <= limits.temporal_comparisons,
            *counters == (EffectCounters { temporal_comparisons: counters.temporal_comparisons, ..*old(counters) }),
            views(out@) == rv.take(i as int).filter(stands(rv)),
        decreases rows@.len() - i,
    {
        assert(rv.take(i + 1).drop_last() =~= rv.take(i as int));
        assert(rv.take(i + 1).last() == rows@[i as int]@);
        proof {
            reveal(Seq::filter);
        }
        if rows[i].certainty_percent != 0 {
            match is_withdrawn(rows, i, counters, limits) {
                Err(e) => {
                    proof {
                        lemma_retraction_checks_grow(rv, (i + 1) as nat, rows@.len());
                    }
                    return Err(e);
                },
                Ok(true) => {},
                Ok(false) => {
                    let ghost before = out@;
                    out.push(rows[i].clone());
                    assert(views(out@) =~= views(before).push(rows@[i as int]@));
                },
            }
        }
        i = i + 1;
    }
    assert(rv.take(i as int) =~= rv);
    Ok(out)
}

// ---------------------------------------------------------------------------
// Maxima
// ---------------------------------------------------------------------------

/// How one assertion supersedes another within a group.
pub enum Dominance {
    /// Same positor and appearance set; the asserted posit's time is later.
    TargetTime,
    /// Same positor, appearance set and value; the assertion's time is later.
    AssertionTime,
}

/// `a` and `b` fall in the same group.
pub open spec fn same_group(d: Dominance, a: AssertionView, b: AssertionView) -> bool {
    match d {
        Dominance::TargetTime => a.positor == b.positor && a.target_appearances == b.target_appearances,
        Dominance::AssertionTime => a.positor == b.positor && a.target_appearances == b.target_appearances
            && a.target_value == b.target_value,
    }
}

/// `a` is superseded by `b`.
pub open spec fn superseded_by(d: Dominance, a: AssertionView, b: AssertionView) -> bool {
    match d {
        Dominance::TargetTime => a.target_time.definitely_before_spec(b.target_time),
        Dominance::AssertionTime => a.assertion_time.definitely_before_spec(b.assertion_time),
    }
}

/// Another row of the same group supersedes `rows[i]`.
pub open spec fn dominated(d: Dominance, rows: Seq<AssertionView>, i: int) -> bool {
    exists|j: int|
        0 <= j < rows.len() && j != i && same_group(d, rows[i], #[trigger] rows[j]) && superseded_by(d, rows[i], rows[j])
}

/// The rows no other row of their group supersedes, in their order,
/// among the first `n`.
pub open spec fn maxima_upto(d: Dominance, rows: Seq<AssertionView>, n: nat) -> Seq<AssertionView>
    decreases n,
{
    if n == 0 || n > rows.len() {
        Seq::empty()
    } else if dominated(d, rows, n - 1) {
        maxima_upto(d, rows, (n - 1) as nat)
    } else {
        maxima_upto(d, rows, (n - 1) as nat).push(rows[n - 1])
    }
}

/// The rows no other row of their group supersedes, in their order.
pub open spec fn maxima(d: Dominance, rows: Seq<AssertionView>) -> Seq<AssertionView> {
    maxima_upto(d, rows, rows.len())
}

/// The comparisons spent on `rows[i]` from position `j` on: one per other
/// row of its group, up to the first that supersedes it.
pub open spec fn dominance_checks_from(d: Dominance, rows: Seq<AssertionView>, i: int, j: nat) -> nat
    decreases rows.len() - j,
{
    if j >= rows.len() {
        0
    } else if j != i && same_group(d, rows[i], rows[j as int]) {
        if superseded_by(d, rows[i], rows[j as int]) {
            1
        } else {
            1 + dominance_checks_from(d, rows, i, j + 1)
        }
    } else {
        dominance_checks_from(d, rows, i, j + 1)
    }
}

/// The comparisons spent on the first `n` rows.
pub open spec fn dominance_checks(d: Dominance, rows: Seq<AssertionView>, n: nat) -> nat
    decreases n,
{
    if n == 0 || n > rows.len() {
        0
    } else {
        dominance_checks(d, rows, (n - 1) as nat) + dominance_checks_from(d, rows, n - 1, 0)
    }
}

proof fn lemma_dominance_checks_grow(d: Dominance, rows: Seq<AssertionView>, a: nat, b: nat)
    requires
        a <= b <= rows.len(),
    ensures
        dominance_checks(d, rows, a) <= dominance_checks(d, rows, b),
    decreases b - a,
{
    if a < b {
        lemma_dominance_checks_grow(d, rows, a, (b - 1) as nat);
    }
}

fn in_same_group(d: &Dominance, a: &EffectiveAssertion, b: &EffectiveAssertion) -> (r: bool)
    ensures
        r == same_group(*d, a@, b@),
{
    let base = a.positor == b.positor && a.target.appearances_match(&b.target);
    match d {
        Dominance::TargetTime => base,
        Dominance::AssertionTime => base && a.target.value().exactly_equals(b.target.value()),
    }
}

fn is_superseded_by(d: &Dominance, a: &EffectiveAssertion, b: &EffectiveAssertion) -> (r: bool)
    ensures
        r == superseded_by(*d, a@, b@),
{
    match d {
        Dominance::TargetTime => a.target.time().definitely_before(b.target.time()),
        Dominance::AssertionTime => a.assertion.time().definitely_before(b.assertion.time()),
    }
}

/// Whether another row of its group supersedes `rows[i]`, counting each
/// comparison.
fn is_dominated(
    rows: &Vec<EffectiveAssertion>,
    i: usize,
    d: &Dominance,
    counters: &mut EffectCounters,
    limits: EffectLimits,
) -> (r: Result<bool, DatabaseError>)
    requires
        i < rows@.len(),
        old(counters).temporal_comparisons <= limits.temporal_comparisons,
    ensures
        r is Ok <==> old(counters).temporal_comparisons + dominance_checks_from(*d, views(rows@), i as int, 0)
            <= limits.temporal_comparisons,
        r matches Ok(b) ==> b == dominated(*d, views(rows@), i as int) && *final(counters) == (EffectCounters {
            temporal_comparisons: (old(counters).temporal_comparisons + dominance_checks_from(
                *d,
                views(rows@),
                i as int,
                0,
            )) as u64,
            ..*old(counters)
        }),
        r matches Err(e) ==> e is ResourceLimit || e is Invariant,
{
    let ghost rv = views(rows@);
    let ghost start = counters.temporal_comparisons;
    let mut j: usize = 0;
    while j < rows.len()
        invariant
            rv == views(rows@),
            i < rows@.len(),
            j <= rows@.len(),
            counters.temporal_comparisons + dominance_checks_from(*d, rv, i as int, j as nat) == start
                + dominance_checks_from(*d, rv, i as int, 0),
            counters.temporal_comparisons <= limits.temporal_comparisons,
            *counters == (EffectCounters { temporal_comparisons: counters.temporal_comparisons, ..*old(counters) }),
            start == old(counters).temporal_comparisons,
            forall|k: int|
                0 <= k < j && k != i && same_group(*d, rv[i as int], #[trigger] rv[k]) ==> !superseded_by(
                    *d,
                    rv[i as int],
                    rv[k],
                ),
        decreases rows@.len() - j,
    {
        assert(rv[j as int] == rows@[j as int]@);
        assert(rv[i as int] == rows@[i as int]@);
        if j != i && in_same_group(d, &rows[i], &rows[j]) {
            match count_comparison(counters, limits) {
                Err(e) => {
                    return Err(e);
                },
                Ok(()) => {},
            }
            if is_superseded_by(d, &rows[i], &rows[j]) {
                return Ok(true);
            }
        }
        j = j + 1;
    }
    Ok(false)
}

/// The rows no other row of their group supersedes, counting each
/// comparison.
fn maxima_of(rows: &Vec<EffectiveAssertion>, d: &Dominance, counters: &mut EffectCounters, limits: EffectLimits) -> (r:
    Result<Vec<EffectiveAssertion>, DatabaseError>)
    requires
        old(counters).temporal_comparisons <= limits.temporal_comparisons,
    ensures
        r is Ok <==> old(counters).temporal_comparisons + dominance_checks(*d, views(rows@), rows@.len())
            <= limits.temporal_comparisons,
        r matches Ok(v) ==> views(v@) == maxima(*d, views(rows@)) && *final(counters) == (EffectCounters {
            temporal_comparisons: (old(counters).temporal_comparisons + dominance_checks(*d, views(rows@), rows@.len()))
                as u64,
            ..*old(counters)
        }),
        r matches Err(e) ==> e is ResourceLimit || e is Invariant,
{
    let ghost rv = views(rows@);
    let ghost start = counters.temporal_comparisons;
    let mut out: Vec<EffectiveAssertion> = Vec::new();
    let mut i: usize = 0;
    assert(views(out@) =~= Seq::<AssertionView>::empty());
    while i < rows.len()
        invariant
            rv == views(rows@),
            i <= rows@.len(),
            start == old(counters).temporal_comparisons,
            counters.temporal_comparisons == start + dominance_checks(*d, rv, i as nat),
            counters.temporal_comparisons <= limits.temporal_comparisons,
            *counters == (EffectCounters { temporal_comparisons: counters.temporal_comparisons, ..*old(counters) }),
            views(out@) == maxima_upto(*d, rv, i as nat),
        decreases rows@.len() - i,
    {
        match is_dominated(rows, i, d, counters, limits) {
            Err(e) => {
                proof {
                    lemma_dominance_checks_grow(*d, rv, (i + 1) as nat, rows@.len());
                }
                return Err(e);
            },
            Ok(true) => {},
            Ok(false) => {
                let ghost before = out@;
                out.push(rows[i].clone());
                assert(views(out@) =~= views(before).push(rows@[i as int]@));
            },
        }
        i = i + 1;
    }
    Ok(out)
}

// ---------------------------------------------------------------------------
// Order of the result
// ---------------------------------------------------------------------------

/// The order of a resolution's result: by positor, the asserted posit's
/// appearance set, value and time, the assertion's time, then the two
/// identities.
pub open spec fn precedes(a: AssertionView, b: AssertionView) -> bool {
    if a.positor != b.positor {
        a.positor < b.positor
    } else if a.target_appearances != b.target_appearances {
        appearance_keys_before(a.target_appearances, b.target_appearances)
    } else if a.target_value != b.target_value {
        text_before(a.target_value, b.target_value)
    } else if a.target_time != b.target_time {
        stored_before(a.target_time, b.target_time)
    } else if a.assertion_time != b.assertion_time {
        stored_before(a.assertion_time, b.assertion_time)
    } else if a.target != b.target {
        a.target < b.target
    } else {
        a.assertion < b.assertion
    }
}

/// No assertion is followed by one that precedes it.
pub open spec fn in_order(s: Seq<AssertionView>) -> bool {
    forall|i: int, j: int| 0 <= i < j < s.len() ==> !precedes(#[trigger] s[j], #[trigger] s[i])
}

/// The order of the result is a strict order.
pub proof fn result_order_is_strict(a: AssertionView, b: AssertionView, c: AssertionView)
    ensures
        !precedes(a, a),
        precedes(a, b) && precedes(b, c) ==> precedes(a, c),
{
    appearance_order_is_strict(a.target_appearances, b.target_appearances, c.target_appearances);
    text_order_is_strict(a.target_value, b.target_value, c.target_value);
    stored_order_is_strict(a.target_time, b.target_time, c.target_time);
    stored_order_is_strict(a.assertion_time, b.assertion_time, c.assertion_time);
}

fn row_precedes(a: &EffectiveAssertion, b: &EffectiveAssertion) -> (r: bool)
    ensures
        r == precedes(a@, b@),
{
    if a.positor != b.positor {
        return a.positor < b.positor;
    }
    if !a.target.appearances_match(&b.target) {
        return a.target.appearances_sort_before(&b.target);
    }
    if !a.target.value().exactly_equals(b.target.value()) {
        return sorts_before(a.target.value().token(), b.target.value().token());
    }
    if *a.target.time() != *b.target.time() {
        return a.target.time().sorts_before(b.target.time());
    }
    if *a.assertion.time() != *b.assertion.time() {
        return a.assertion.time().sorts_before(b.assertion.time());
    }
    if a.target.posit() != b.target.posit() {
        return a.target.posit() < b.target.posit();
    }
    a.assertion.posit() < b.assertion.posit()
}

/// The rows in the order of the result.
fn sort_rows(rows: &Vec<EffectiveAssertion>) -> (out: Vec<EffectiveAssertion>)
    ensures
        views(out@).to_multiset() == views(rows@).to_multiset(),
        in_order(views(out@)),
{
    broadcast use vstd::seq_lib::to_multiset_build, vstd::seq_lib::to_multiset_insert;

    let ghost rv = views(rows@);
    let mut out: Vec<EffectiveAssertion> = Vec::new();
    let mut i: usize = 0;
    assert(rv.take(0) =~= Seq::<AssertionView>::empty());
    assert(views(out@) =~= Seq::<AssertionView>::empty());
    while i < rows.len()
        invariant
            rv == views(rows@),
            i <= rows@.len(),
            views(out@).to_multiset() == rv.take(i as int).to_multiset(),
            in_order(views(out@)),
        decreases rows@.len() - i,
    {
        let x = rows[i].clone();
        let ghost xv = x@;
        let ghost ov = views(out@);
        let mut p: usize = 0;
        while p < out.len() && !row_precedes(&x, &out[p])
            invariant
                p <= out@.len(),
                ov == views(out@),
                xv == x@,
                forall|k: int| 0 <= k < p ==> !precedes(xv, #[trigger] ov[k]),
            decreases out@.len() - p,
        {
            p = p + 1;
        }
        out.insert(p, x);
        proof {
            let nv = views(out@);
            assert(nv =~= ov.insert(p as int, xv));
            assert(rv.take(i + 1) =~= rv.take(i as int).push(xv));
            vstd::seq_lib::to_multiset_insert(ov, p as int, xv);
            vstd::seq_lib::to_multiset_build(rv.take(i as int), xv);
            assert forall|a: int, b: int| 0 <= a < b < nv.len() implies !precedes(#[trigger] nv[b], #[trigger] nv[a]) by {
                if p < ov.len() {
                    result_order_is_strict(xv, ov[p as int], xv);
                }
                if a < p && b == p {
                } else if a == p && b > p {
                    result_order_is_strict(nv[b], xv, ov[p as int]);
                    result_order_is_strict(ov[p as int], xv, ov[p as int]);
                    if b - 1 > p {
                        assert(!precedes(ov[b - 1], ov[p as int]));
                    }
                } else if a < p && b > p {
                } else {
                }
            }
        }
        i = i + 1;
    }
    assert(rv.take(i as int) =~= rv);
    out
}

// ---------------------------------------------------------------------------
// Resolution
// ---------------------------------------------------------------------------

/// A kept posit with identity `t` has an appearance in each built-in role.
pub open spec fn assertion_candidate(posits: Seq<Posit>, t: Thing) -> bool {
    exists|i: int|
        0 <= i < posits.len() && (#[trigger] posits[i]).identity() == t && role_thing(
            appearance_keys(posits[i].members()),
            POSIT_ROLE_ID,
        ) is Some && role_thing(appearance_keys(posits[i].members()), ASCERTAINS_ROLE_ID) is Some
}

/// The identities of the kept posits with an appearance in each built-in
/// role, in increasing order.
pub fn assertion_candidates(keeper: &PositKeeper) -> (ids: Vec<Thing>)
    ensures
        crate::maintenance::increasing(ids@),
        forall|t: Thing| ids@.contains(t) <==> assertion_candidate(keeper.posits(), t),
{
    let mut ids: Vec<Thing> = Vec::new();
    let mut i: usize = 0;
    while i < keeper.len()
        invariant
            i <= keeper.posits().len(),
            crate::maintenance::increasing(ids@),
            forall|t: Thing| ids@.contains(t) <==> assertion_candidate(keeper.posits().take(i as int), t),
        decreases keeper.posits().len() - i,
    {
        let posit = keeper.get(i);
        let ghost before = ids@;
        let both = find_role_thing(posit, POSIT_ROLE_ID).is_some() && find_role_thing(posit, ASCERTAINS_ROLE_ID).is_some();
        if both {
            crate::maintenance::insert_sorted(&mut ids, posit.posit());
        }
        proof {
            let prev = keeper.posits().take(i as int);
            let next = keeper.posits().take(i + 1);
            assert forall|t: Thing| ids@.contains(t) <==> assertion_candidate(next, t) by {
                if assertion_candidate(prev, t) {
                    let k = choose|k: int|
                        0 <= k < prev.len() && (#[trigger] prev[k]).identity() == t && role_thing(
                            appearance_keys(prev[k].members()),
                            POSIT_ROLE_ID,
                        ) is Some && role_thing(appearance_keys(prev[k].members()), ASCERTAINS_ROLE_ID) is Some;
                    assert(next[k] == prev[k]);
                }
                if assertion_candidate(next, t) && !(both && t == posit.identity()) {
                    let k = choose|k: int|
                        0 <= k < next.len() && (#[trigger] next[k]).identity() == t && role_thing(
                            appearance_keys(next[k].members()),
                            POSIT_ROLE_ID,
                        ) is Some && role_thing(appearance_keys(next[k].members()), ASCERTAINS_ROLE_ID) is Some;
                    assert(k != i);
                    assert(prev[k] == next[k]);
                }
                if both && t == posit.identity() {
                    assert(next[i as int] == *posit);
                }
                assert(ids@.contains(t) <==> ids@.to_set().contains(t));
                assert(before.contains(t) <==> before.to_set().contains(t));
            }
        }
        i = i + 1;
    }
    assert(keeper.posits().take(i as int) =~= keeper.posits());
    ids
}

/// A deterministic, source-local slice of the evidence at one pair of cuts.
#[derive(Debug)]
pub struct EffectiveSlice {
    cut: EffectCut,
    assertions: Vec<EffectiveAssertion>,
    counters: EffectCounters,
}

impl EffectiveSlice {
    pub closed spec fn cut_spec(&self) -> EffectCut {
        self.cut
    }

    pub closed spec fn assertions_spec(&self) -> Seq<AssertionView> {
        views(self.assertions@)
    }

    pub closed spec fn counters_spec(&self) -> EffectCounters {
        self.counters
    }

    pub fn cut(&self) -> (c: &EffectCut)
        ensures
            *c == self.cut_spec(),
    {
        &self.cut
    }

    pub fn assertions(&self) -> (a: &[EffectiveAssertion])
        ensures
            views(a@) == self.assertions_spec(),
    {
        self.assertions.as_slice()
    }

    pub fn counters(&self) -> (c: EffectCounters)
        ensures
            c == self.counters_spec(),
    {
        self.counters
    }
}

/// The assertions in effect among the eligible `rows`: those that stand,
/// then the latest-targeted per positor and appearance set, then the
/// latest-asserted per positor, appearance set and value.
pub open spec fn in_effect(rows: Seq<AssertionView>) -> Seq<AssertionView> {
    maxima(Dominance::AssertionTime, maxima(Dominance::TargetTime, standing(rows)))
}

proof fn lemma_maxima_within(d: Dominance, rows: Seq<AssertionView>, n: nat, r: AssertionView)
    requires
        maxima_upto(d, rows, n).contains(r),
    ensures
        rows.contains(r),
    decreases n,
{
    if n > 0 && n <= rows.len() {
        let front = maxima_upto(d, rows, (n - 1) as nat);
        if front.contains(r) {
            lemma_maxima_within(d, rows, (n - 1) as nat, r);
        } else {
            assert(r == rows[n - 1]);
        }
    }
}

/// A row among the maxima is a row that no other row of its group
/// supersedes.
proof fn lemma_maxima_undominated(d: Dominance, rows: Seq<AssertionView>, n: nat, r: AssertionView)
    requires
        maxima_upto(d, rows, n).contains(r),
    ensures
        exists|k: int| 0 <= k < rows.len() && rows[k] == r && !dominated(d, rows, k),
    decreases n,
{
    if n > 0 && n <= rows.len() {
        let front = maxima_upto(d, rows, (n - 1) as nat);
        if front.contains(r) {
            lemma_maxima_undominated(d, rows, (n - 1) as nat, r);
        } else {
            assert(r == rows[n - 1]);
            assert(!dominated(d, rows, n - 1));
        }
    }
}

/// A row that no other row of its group supersedes is among the maxima.
proof fn lemma_undominated_in_maxima(d: Dominance, rows: Seq<AssertionView>, n: nat, k: int)
    requires
        0 <= k < n <= rows.len(),
        !dominated(d, rows, k),
    ensures
        maxima_upto(d, rows, n).contains(rows[k]),
    decreases n,
{
    if k < n - 1 {
        lemma_undominated_in_maxima(d, rows, (n - 1) as nat, k);
        let front = maxima_upto(d, rows, (n - 1) as nat);
        let i = choose|i: int| 0 <= i < front.len() && front[i] == rows[k];
        if !dominated(d, rows, n - 1) {
            assert(front.push(rows[n - 1])[i] == rows[k]);
        }
    } else {
        let front = maxima_upto(d, rows, (n - 1) as nat);
        assert(front.push(rows[n - 1])[front.len() as int] == rows[k]);
    }
}

/// A standing assertion is in effect when no standing assertion of the same
/// positor about the same appearance set is targeted definitely later, and
/// none of those left with the same value was asserted definitely later.
pub proof fn latest_standing_assertion_is_in_effect(rows: Seq<AssertionView>, s: AssertionView)
    requires
        standing(rows).contains(s),
        forall|o: AssertionView|
            #[trigger] standing(rows).contains(o) && o.positor == s.positor && o.target_appearances == s.target_appearances
                ==> !s.target_time.definitely_before_spec(o.target_time),
        forall|o: AssertionView|
            #[trigger] maxima(Dominance::TargetTime, standing(rows)).contains(o) && o.positor == s.positor
                && o.target_appearances == s.target_appearances && o.target_value == s.target_value
                ==> !s.assertion_time.definitely_before_spec(o.assertion_time),
    ensures
        in_effect(rows).contains(s),
{
    let st = standing(rows);
    let k = choose|k: int| 0 <= k < st.len() && st[k] == s;
    if dominated(Dominance::TargetTime, st, k) {
        let j = choose|j: int|
            0 <= j < st.len() && j != k && same_group(Dominance::TargetTime, st[k], #[trigger] st[j])
                && superseded_by(Dominance::TargetTime, st[k], st[j]);
        assert(st.contains(st[j]));
    }
    lemma_undominated_in_maxima(Dominance::TargetTime, st, st.len(), k);
    let m = maxima(Dominance::TargetTime, st);
    let k2 = choose|k2: int| 0 <= k2 < m.len() && m[k2] == s;
    if dominated(Dominance::AssertionTime, m, k2) {
        let j = choose|j: int|
            0 <= j < m.len() && j != k2 && same_group(Dominance::AssertionTime, m[k2], #[trigger] m[j])
                && superseded_by(Dominance::AssertionTime, m[k2], m[j]);
        assert(m.contains(m[j]));
    }
    lemma_undominated_in_maxima(Dominance::AssertionTime, m, m.len(), k2);
}

/// For each positor and target appearance set, the assertion in effect is
/// the latest-targeted: no standing assertion of the same positor about the
/// same appearance set has a target time that the one in effect's target
/// time is definitely before. Among those, for each value, it is the
/// latest-asserted: no such assertion with the same value that survives the
/// first step was asserted definitely later.
pub proof fn in_effect_is_latest_per_positor_and_appearance_set(rows: Seq<AssertionView>, r: AssertionView, s: AssertionView)
    requires
        in_effect(rows).contains(r),
        standing(rows).contains(s),
        s.positor == r.positor,
        s.target_appearances == r.target_appearances,
    ensures
        !r.target_time.definitely_before_spec(s.target_time),
        maxima(Dominance::TargetTime, standing(rows)).contains(s) && s.target_value == r.target_value
            ==> !r.assertion_time.definitely_before_spec(s.assertion_time),
{
    let st = standing(rows);
    let m = maxima(Dominance::TargetTime, st);
    lemma_maxima_within(Dominance::AssertionTime, m, m.len(), r);
    lemma_maxima_undominated(Dominance::TargetTime, st, st.len(), r);
    let k = choose|k: int| 0 <= k < st.len() && st[k] == r && !dominated(Dominance::TargetTime, st, k);
    let j = choose|j: int| 0 <= j < st.len() && st[j] == s;
    if j != k {
        assert(same_group(Dominance::TargetTime, st[k], st[j]));
        assert(!superseded_by(Dominance::TargetTime, st[k], st[j]));
    }
    if m.contains(s) && s.target_value == r.target_value {
        lemma_maxima_undominated(Dominance::AssertionTime, m, m.len(), r);
        let k2 = choose|k2: int| 0 <= k2 < m.len() && m[k2] == r && !dominated(Dominance::AssertionTime, m, k2);
        let j2 = choose|j2: int| 0 <= j2 < m.len() && m[j2] == s;
        if j2 != k2 {
            assert(same_group(Dominance::AssertionTime, m[k2], m[j2]));
            assert(!superseded_by(Dominance::AssertionTime, m[k2], m[j2]));
        }
    }
}

/// An assertion in effect is one of the eligible assertions, with a
/// non-zero certainty, and no retraction among them withdraws it: no
/// source's evidence is fused away and no retraction is ever in effect.
pub proof fn assertions_in_effect_stand(rows: Seq<AssertionView>, r: AssertionView)
    requires
        in_effect(rows).contains(r),
    ensures
        rows.contains(r),
        r.certainty != 0,
        !withdrawn(rows, r),
{
    let s = standing(rows);
    let m = maxima(Dominance::TargetTime, s);
    lemma_maxima_within(Dominance::AssertionTime, m, m.len(), r);
    lemma_maxima_within(Dominance::TargetTime, s, s.len(), r);
    rows.filter_lemma(stands(rows));
    let i = choose|i: int| 0 <= i < s.len() && s[i] == r;
    assert(stands(rows)(s[i]));
    rows.lemma_filter_contains_rev(stands(rows), r);
}

/// The temporal comparisons a resolution over the eligible `rows` makes.
pub open spec fn effect_comparisons(rows: Seq<AssertionView>) -> nat {
    let s = standing(rows);
    let m = maxima(Dominance::TargetTime, s);
    retraction_checks(rows, rows.len()) + dominance_checks(Dominance::TargetTime, s, s.len()) + dominance_checks(
        Dominance::AssertionTime,
        m,
        m.len(),
    )
}

/// How many of `rows` are retractions.
pub open spec fn retraction_count(rows: Seq<AssertionView>) -> nat {
    rows.filter(is_retraction()).len()
}

pub open spec fn is_retraction() -> spec_fn(AssertionView) -> bool {
    |r: AssertionView| r.certainty == 0
}

fn count_retractions(rows: &Vec<EffectiveAssertion>) -> (n: u64)
    requires
        rows@.len() <= u64::MAX,
    ensures
        n == retraction_count(views(rows@)),
{
    let ghost rv = views(rows@);
    let mut n: u64 = 0;
    let mut i: usize = 0;
    assert(rv.take(0) =~= Seq::<AssertionView>::empty());
    proof {
        reveal(Seq::filter);
    }
    while i < rows.len()
        invariant
            rv == views(rows@),
            rows@.len() <= u64::MAX,
            i <= rows@.len(),
            n == rv.take(i as int).filter(is_retraction()).len(),
            n <= i,
        decreases rows@.len() - i,
    {
        assert(rv.take(i + 1).drop_last() =~= rv.take(i as int));
        assert(rv.take(i + 1).last() == rows@[i as int]@);
        proof {
            reveal(Seq::filter);
        }
        if rows[i].certainty_percent == 0 {
            n = n + 1;
        }
        i = i + 1;
    }
    assert(rv.take(i as int) =~= rv);
    n
}

/// What resolving the assertions in effect among `candidates` at `cut`,
/// within `limits`, over the kept `posits` gives: a resource error when
/// there are too many candidates; the first failing examination; otherwise,
/// when the temporal comparisons fit the limit, the assertions in effect in
/// the order of the result, with the work counters.
pub open spec fn resolves(
    posits: Seq<Posit>,
    candidates: Seq<Thing>,
    cut: EffectCut,
    limits: EffectLimits,
    r: Result<EffectiveSlice, DatabaseError>,
) -> bool {
    if candidates.len() > limits.assertion_candidates {
        r == Err::<EffectiveSlice, DatabaseError>(
            DatabaseError::ResourceLimit {
                resource: "effective assertion candidates",
                limit: limits.assertion_candidates,
            },
        )
    } else {
        match eligible(posits, candidates, cut) {
            Err(x) => r matches Err(e) && examination_error(x, e),
            Ok(rows) => {
                &&& (r is Ok <==> effect_comparisons(rows) <= limits.temporal_comparisons)
                &&& (r matches Ok(slice) ==> {
                    &&& slice.cut_spec() == cut
                    &&& slice.assertions_spec().to_multiset() == in_effect(rows).to_multiset()
                    &&& in_order(slice.assertions_spec())
                    &&& slice.counters_spec() == (EffectCounters {
                        assertion_candidates: candidates.len() as u64,
                        temporally_eligible: rows.len() as u64,
                        retractions: retraction_count(rows) as u64,
                        temporal_comparisons: effect_comparisons(rows) as u64,
                        effective_assertions: in_effect(rows).len() as u64,
                    })
                })
                &&& (r matches Err(e) ==> e is ResourceLimit || e is Invariant)
            },
        }
    }
}

/// Resolves the assertions in effect among `candidates` at `cut`, within
/// `limits`. No sources are fused and no certainty is ranked.
pub fn resolve(keeper: &PositKeeper, candidates: &[Thing], cut: EffectCut, limits: EffectLimits) -> (r: Result<
    EffectiveSlice,
    DatabaseError,
>)
    ensures
        resolves(keeper.posits(), candidates@, cut, limits, r),
{
    let n = candidates.len() as u64;
    if n > limits.assertion_candidates {
        return Err(resource_limit("effective assertion candidates", limits.assertion_candidates));
    }
    let eligible_rows = collect_eligible(keeper, candidates, &cut)?;
    let ghost rows = views(eligible_rows@);
    proof {
        lemma_eligible_len(keeper.posits(), candidates@, cut);
    }
    let mut counters = EffectCounters {
        assertion_candidates: n,
        temporally_eligible: eligible_rows.len() as u64,
        retractions: count_retractions(&eligible_rows),
        temporal_comparisons: 0,
        effective_assertions: 0,
    };
    let standing_rows = without_retracted(&eligible_rows, &mut counters, limits)?;
    let target_maxima = maxima_of(&standing_rows, &Dominance::TargetTime, &mut counters, limits)?;
    let effective = maxima_of(&target_maxima, &Dominance::AssertionTime, &mut counters, limits)?;
    let sorted = sort_rows(&effective);
    counters.effective_assertions = effective.len() as u64;
    proof {
        vstd::seq_lib::to_multiset_len(views(sorted@));
        vstd::seq_lib::to_multiset_len(views(effective@));
    }
    Ok(EffectiveSlice { cut, assertions: sorted, counters })
}

proof fn lemma_eligible_len(posits: Seq<Posit>, candidates: Seq<Thing>, cut: EffectCut)
    ensures
        eligible(posits, candidates, cut) matches Ok(rows) ==> rows.len() <= candidates.len(),
    decreases candidates.len(),
{
    if candidates.len() > 0 {
        lemma_eligible_len(posits, candidates.drop_last(), cut);
    }
}

impl Database {
    /// The information in effect at `cut`, within the default limits.
    pub fn information_in_effect(&self, cut: EffectCut) -> (r: Result<EffectiveSlice, DatabaseError>)
        ensures
            exists|ids: Seq<Thing>|
                crate::maintenance::increasing(ids) && (forall|t: Thing| #[trigger] ids.contains(t) <==> assertion_candidate(self.posits(), t))
                    && resolves(
                    self.posits(),
                    ids,
                    cut,
                    EffectLimits {
                        assertion_candidates: MAX_EFFECT_ASSERTION_CANDIDATES,
                        temporal_comparisons: MAX_EFFECT_TEMPORAL_COMPARISONS,
                    },
                    r,
                ),
    {
        self.information_in_effect_with_limits(cut, EffectLimits::default())
    }

    /// The information in effect at `cut`, within `limits`: the assertions
    /// among every kept posit in the two built-in roles, in identity order.
    pub fn information_in_effect_with_limits(&self, cut: EffectCut, limits: EffectLimits) -> (r: Result<
        EffectiveSlice,
        DatabaseError,
    >)
        ensures
            exists|ids: Seq<Thing>|
                crate::maintenance::increasing(ids) && (forall|t: Thing| #[trigger] ids.contains(t) <==> assertion_candidate(self.posits(), t))
                    && resolves(self.posits(), ids, cut, limits, r),
    {
        let keeper = self.posit_keeper();
        let candidates = assertion_candidates(keeper);
        let r = resolve(keeper, candidates.as_slice(), cut, limits);
        proof {
            assert(crate::maintenance::increasing(candidates@));
        }
        r
    }
}

} // verus!
