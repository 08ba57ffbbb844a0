//! The frames of a Terrain report, built from captured posits: which posits
//! are current at a cutoff, and the appearance sets, attribute roles and
//! relationship signatures each frame holds.

use crate::construct::{
    appearance_keys_before, appearance_order_is_strict, sorts_before, text_before, text_order_is_strict, Thing,
};
use crate::datatype::{time_is_strictly_dominated, Time};
use crate::error::DatabaseError;
use crate::maintenance::{increasing, insert_sorted};
use crate::terrain::{
    allocation_id, checked_add, isopleth_id, joined_identities, limit_error, mask_hex, profile_id, role_id, signature_id,
    TerrainAllocation, TerrainExecution, TerrainFrameStats, TerrainIsopleth, TerrainLimits, TerrainProfile,
    TerrainProjectedRole, TerrainProjection, TerrainRelationship, TerrainRelationshipCatalog,
    TerrainRelationshipSignature, TerrainRoleRef, TerrainRoleSupport, TerrainRoleTotal, TerrainFrame, TerrainScope,
    TerrainDatabaseTotals, TerrainFrames, TerrainReport, interrupted, same_interruptions, terrain_time_token, time_token, MAX_POSITS_SCANNED,
    MAX_PROJECTED_ROLE_LIMIT, MAX_TEMPORAL_COMPARISONS, TERRAIN_VERSION,
    MAX_RELATIONSHIP_ARITY, MAX_RELATIONSHIP_SIGNATURES,
};
use crate::text::{decimal_text, push_decimal};
use vstd::string::StringExecFns;
use vstd::prelude::*;

verus! {

broadcast use vstd::seq_lib::group_seq_properties;

// ---------------------------------------------------------------------------
// Captured posits
// ---------------------------------------------------------------------------

/// One posit as a report sees it: its identity, its appearances as
/// `(role, thing)` pairs in increasing role order, and its time.
pub struct CapturedPosit {
    pub posit: Thing,
    pub pairs: Vec<(Thing, Thing)>,
    pub time: Time,
}

/// The plain content of a captured posit.
pub struct CapturedView {
    pub posit: Thing,
    pub pairs: Seq<(Thing, Thing)>,
    pub time: Time,
}

impl View for CapturedPosit {
    type V = CapturedView;

    open spec fn view(&self) -> CapturedView {
        CapturedView { posit: self.posit, pairs: self.pairs@, time: self.time }
    }
}

/// The plain contents of captured posits.
pub open spec fn captured_views(rs: Seq<CapturedPosit>) -> Seq<CapturedView> {
    rs.map_values(|r: CapturedPosit| r@)
}

/// A copy of a sequence of pairs.
pub fn copy_pairs(pairs: &[(Thing, Thing)]) -> (v: Vec<(Thing, Thing)>)
    ensures
        v@ == pairs@,
{
    let mut v: Vec<(Thing, Thing)> = Vec::new();
    let mut i: usize = 0;
    while i < pairs.len()
        invariant
            i <= pairs@.len(),
            v@ == pairs@.subrange(0, i as int),
        decreases pairs@.len() - i,
    {
        v.push(pairs[i]);
        i = i + 1;
    }
    assert(pairs@.subrange(0, pairs@.len() as int) =~= pairs@);
    v
}

/// Whether two sequences of pairs are equal.
pub fn same_pairs(a: &[(Thing, Thing)], b: &[(Thing, Thing)]) -> (r: bool)
    ensures
        r == (a@ == b@),
{
    if a.len() != b.len() {
        return false;
    }
    let mut i: usize = 0;
    while i < a.len()
        invariant
            a@.len() == b@.len(),
            i <= a@.len(),
            forall|k: int| 0 <= k < i ==> a@[k] == b@[k],
        decreases a@.len() - i,
    {
        if a[i].0 != b[i].0 || a[i].1 != b[i].1 {
            return false;
        }
        i = i + 1;
    }
    assert(a@ =~= b@);
    true
}

impl Clone for CapturedPosit {
    fn clone(&self) -> (c: Self)
        ensures
            c@ == self@,
    {
        CapturedPosit { posit: self.posit, pairs: copy_pairs(self.pairs.as_slice()), time: self.time }
    }
}

// ---------------------------------------------------------------------------
// Current posits
// ---------------------------------------------------------------------------

/// A record whose time is, conservatively, at or before the cutoff.
pub open spec fn at_or_before_cutoff(r: CapturedView, cutoff: Time) -> bool {
    r.time == cutoff || r.time.definitely_before_spec(cutoff)
}

/// Another record of the same appearance set, at or before the cutoff,
/// strictly dominates `rs[i]`.
pub open spec fn outdated(rs: Seq<CapturedView>, cutoff: Time, i: int) -> bool {
    exists|j: int|
        0 <= j < rs.len() && j != i && (#[trigger] rs[j]).pairs == rs[i].pairs && at_or_before_cutoff(rs[j], cutoff)
            && rs[i].time.definitely_before_spec(rs[j].time)
}

/// `rs[i]` is in the snapshot at the cutoff.
pub open spec fn is_current(rs: Seq<CapturedView>, cutoff: Time, i: int) -> bool {
    at_or_before_cutoff(rs[i], cutoff) && !outdated(rs, cutoff, i)
}

/// The current records among the first `n`, in their order.
pub open spec fn current_upto(rs: Seq<CapturedView>, cutoff: Time, n: nat) -> Seq<CapturedView>
    decreases n,
{
    if n == 0 || n > rs.len() {
        Seq::empty()
    } else if is_current(rs, cutoff, n - 1) {
        current_upto(rs, cutoff, (n - 1) as nat).push(rs[n - 1])
    } else {
        current_upto(rs, cutoff, (n - 1) as nat)
    }
}

/// The current records, in their order.
pub open spec fn current_of(rs: Seq<CapturedView>, cutoff: Time) -> Seq<CapturedView> {
    current_upto(rs, cutoff, rs.len())
}

/// The comparisons spent on `rs[i]` from position `j` on: one per other
/// record of its appearance set at or before the cutoff, up to the first
/// that dominates it.
pub open spec fn supersession_checks_from(rs: Seq<CapturedView>, cutoff: Time, i: int, j: nat) -> nat
    decreases rs.len() - j,
{
    if j >= rs.len() {
        0
    } else if j != i && rs[j as int].pairs == rs[i].pairs && at_or_before_cutoff(rs[j as int], cutoff) {
        if rs[i].time.definitely_before_spec(rs[j as int].time) {
            1
        } else {
            1 + supersession_checks_from(rs, cutoff, i, j + 1)
        }
    } else {
        supersession_checks_from(rs, cutoff, i, j + 1)
    }
}

/// The dominance comparisons spent on the first `n` records.
pub open spec fn supersession_checks(rs: Seq<CapturedView>, cutoff: Time, n: nat) -> nat
    decreases n,
{
    if n == 0 || n > rs.len() {
        0
    } else {
        supersession_checks(rs, cutoff, (n - 1) as nat) + if at_or_before_cutoff(rs[n - 1], cutoff) {
            supersession_checks_from(rs, cutoff, n - 1, 0)
        } else {
            0
        }
    }
}

/// All temporal comparisons of finding the current records: one per record
/// against the cutoff, then those between records of one appearance set.
pub open spec fn current_comparisons(rs: Seq<CapturedView>, cutoff: Time) -> nat {
    rs.len() + supersession_checks(rs, cutoff, rs.len())
}

proof fn lemma_supersession_checks_grow(rs: Seq<CapturedView>, cutoff: Time, a: nat, b: nat)
    requires
        a <= b <= rs.len(),
    ensures
        supersession_checks(rs, cutoff, a) <= supersession_checks(rs, cutoff, b),
    decreases b - a,
{
    if a < b {
        lemma_supersession_checks_grow(rs, cutoff, a, (b - 1) as nat);
    }
}

/// Whether each record is at or before the cutoff, counting one comparison
/// per record.
fn cutoff_flags(records: &Vec<CapturedPosit>, cutoff: &Time, execution: &mut TerrainExecution) -> (r: Result<
    Vec<bool>,
    DatabaseError,
>)
    requires
        old(execution).limits_spec().temporal_comparisons < u64::MAX,
        old(execution).comparisons() <= old(execution).limits_spec().temporal_comparisons,
    ensures
        final(execution).limits_spec() == old(execution).limits_spec(),
        same_interruptions(*final(execution), *old(execution)),
        r matches Ok(v) ==> {
            &&& v@.len() == records@.len()
            &&& forall|k: int| 0 <= k < v@.len() ==> v@[k] == at_or_before_cutoff(#[trigger] records@[k]@, *cutoff)
            &&& final(execution).comparisons() == old(execution).comparisons() + records@.len()
            &&& final(execution).comparisons() <= old(execution).limits_spec().temporal_comparisons
        },
        r matches Err(e) ==> interrupted(e, *old(execution)) || (e == limit_error(
            "temporal comparisons",
            old(execution).limits_spec().temporal_comparisons,
        ) && old(execution).comparisons() + records@.len() > old(execution).limits_spec().temporal_comparisons),
        old(execution).comparisons() + records@.len() > old(execution).limits_spec().temporal_comparisons ==> r is Err,
{
    let ghost limit = execution.limits_spec().temporal_comparisons;
    let ghost start = execution.comparisons();
    let mut flags: Vec<bool> = Vec::new();
    let mut i: usize = 0;
    while i < records.len()
        invariant
            i <= records@.len(),
            flags@.len() == i,
            forall|k: int| 0 <= k < i ==> flags@[k] == at_or_before_cutoff(#[trigger] records@[k]@, *cutoff),
            execution.limits_spec() == old(execution).limits_spec(),
            same_interruptions(*execution, *old(execution)),
            limit == execution.limits_spec().temporal_comparisons,
            limit < u64::MAX,
            start == old(execution).comparisons(),
            execution.comparisons() == start + i,
            execution.comparisons() <= limit,
        decreases records@.len() - i,
    {
        if let Err(e) = execution.checkpoint(i) {
            return Err(e);
        }
        if let Err(e) = execution.temporal_comparison() {
            return Err(e);
        }
        flags.push(records[i].time.definitely_at_or_before(cutoff));
        i = i + 1;
    }
    Ok(flags)
}

/// Whether another record of its appearance set, at or before the cutoff,
/// dominates `records[i]`, counting each comparison.
fn is_outdated(
    records: &Vec<CapturedPosit>,
    flags: &Vec<bool>,
    i: usize,
    cutoff: Ghost<Time>,
    execution: &mut TerrainExecution,
) -> (r: Result<bool, DatabaseError>)
    requires
        i < records@.len(),
        flags@.len() == records@.len(),
        forall|k: int| 0 <= k < flags@.len() ==> flags@[k] == at_or_before_cutoff(#[trigger] records@[k]@, cutoff@),
        old(execution).limits_spec().temporal_comparisons < u64::MAX,
        old(execution).comparisons() <= old(execution).limits_spec().temporal_comparisons,
    ensures
        final(execution).limits_spec() == old(execution).limits_spec(),
        same_interruptions(*final(execution), *old(execution)),
        r matches Ok(b) ==> {
            let n = old(execution).comparisons() + supersession_checks_from(
                captured_views(records@),
                cutoff@,
                i as int,
                0,
            );
            &&& b == outdated(captured_views(records@), cutoff@, i as int)
            &&& final(execution).comparisons() == n
            &&& n <= old(execution).limits_spec().temporal_comparisons
        },
        r matches Err(e) ==> interrupted(e, *old(execution)) || (e == limit_error(
            "temporal comparisons",
            old(execution).limits_spec().temporal_comparisons,
        ) && old(execution).comparisons() + supersession_checks_from(captured_views(records@), cutoff@, i as int, 0)
            > old(execution).limits_spec().temporal_comparisons),
        old(execution).comparisons() + supersession_checks_from(captured_views(records@), cutoff@, i as int, 0)
            > old(execution).limits_spec().temporal_comparisons ==> r is Err,
{
    let ghost rv = captured_views(records@);
    let ghost limit = execution.limits_spec().temporal_comparisons;
    let ghost start = execution.comparisons();
    let mut j: usize = 0;
    while j < records.len()
        invariant
            rv == captured_views(records@),
            i < records@.len(),
            j <= records@.len(),
            flags@.len() == records@.len(),
            forall|k: int| 0 <= k < flags@.len() ==> flags@[k] == at_or_before_cutoff(#[trigger] records@[k]@, cutoff@),
            execution.limits_spec() == old(execution).limits_spec(),
            same_interruptions(*execution, *old(execution)),
            limit == execution.limits_spec().temporal_comparisons,
            limit < u64::MAX,
            start == old(execution).comparisons(),
            execution.comparisons() <= limit,
            execution.comparisons() + supersession_checks_from(rv, cutoff@, i as int, j as nat) == start
                + supersession_checks_from(rv, cutoff@, i as int, 0),
            forall|k: int|
                0 <= k < j && k != i && (#[trigger] rv[k]).pairs == rv[i as int].pairs && at_or_before_cutoff(
                    rv[k],
                    cutoff@,
                ) ==> !rv[i as int].time.definitely_before_spec(rv[k].time),
        decreases records@.len() - j,
    {
        assert(rv[j as int] == records@[j as int]@);
        assert(rv[i as int] == records@[i as int]@);
        if j != i && flags[j] && same_pairs(records[j].pairs.as_slice(), records[i].pairs.as_slice()) {
            if let Err(e) = execution.temporal_comparison() {
                return Err(e);
            }
            if time_is_strictly_dominated(&records[i].time, &records[j].time) {
                return Ok(true);
            }
        }
        j = j + 1;
    }
    Ok(false)
}

/// The records in the snapshot at `cutoff`: those at or before it that no
/// other record of their appearance set at or before it strictly dominates,
/// in their order. Every comparison of a time is counted against the limit.
pub fn current_records(records: &Vec<CapturedPosit>, cutoff: &Time, execution: &mut TerrainExecution) -> (r: Result<
    Vec<CapturedPosit>,
    DatabaseError,
>)
    requires
        old(execution).limits_spec().temporal_comparisons < u64::MAX,
        old(execution).comparisons() <= old(execution).limits_spec().temporal_comparisons,
    ensures
        final(execution).limits_spec() == old(execution).limits_spec(),
        same_interruptions(*final(execution), *old(execution)),
        r matches Ok(v) ==> {
            let n = old(execution).comparisons() + current_comparisons(captured_views(records@), *cutoff);
            &&& captured_views(v@) == current_of(captured_views(records@), *cutoff)
            &&& final(execution).comparisons() == n
            &&& n <= old(execution).limits_spec().temporal_comparisons
        },
        r matches Err(e) ==> interrupted(e, *old(execution)) || (e == limit_error(
            "temporal comparisons",
            old(execution).limits_spec().temporal_comparisons,
        ) && old(execution).comparisons() + current_comparisons(captured_views(records@), *cutoff)
            > old(execution).limits_spec().temporal_comparisons),
        old(execution).comparisons() + current_comparisons(captured_views(records@), *cutoff)
            > old(execution).limits_spec().temporal_comparisons ==> r is Err,
{
    let ghost rv = captured_views(records@);
    let ghost limit = execution.limits_spec().temporal_comparisons;
    let ghost start = execution.comparisons();
    let n = records.len();
    let flags = match cutoff_flags(records, cutoff, execution) {
        Ok(flags) => flags,
        Err(e) => {
            return Err(e);
        },
    };
    let mut out: Vec<CapturedPosit> = Vec::new();
    let mut i: usize = 0;
    assert(captured_views(out@) =~= Seq::<CapturedView>::empty());
    while i < n
        invariant
            n == records@.len(),
            rv == captured_views(records@),
            i <= n,
            flags@.len() == n,
            forall|k: int| 0 <= k < flags@.len() ==> flags@[k] == at_or_before_cutoff(#[trigger] records@[k]@, *cutoff),
            execution.limits_spec() == old(execution).limits_spec(),
            same_interruptions(*execution, *old(execution)),
            limit == execution.limits_spec().temporal_comparisons,
            limit < u64::MAX,
            start == old(execution).comparisons(),
            execution.comparisons() == start + n + supersession_checks(rv, *cutoff, i as nat),
            execution.comparisons() <= limit,
            captured_views(out@) == current_upto(rv, *cutoff, i as nat),
        decreases n - i,
    {
        assert(rv[i as int] == records@[i as int]@);
        if flags[i] {
            match is_outdated(records, &flags, i, Ghost(*cutoff), execution) {
                Err(e) => {
                    proof {
                        lemma_supersession_checks_grow(rv, *cutoff, (i + 1) as nat, n as nat);
                    }
                    return Err(e);
                },
                Ok(true) => {},
                Ok(false) => {
                    let ghost before = out@;
                    out.push(records[i].clone());
                    assert(captured_views(out@) =~= captured_views(before).push(records@[i as int]@));
                },
            }
        }
        i = i + 1;
    }
    Ok(out)
}

// ---------------------------------------------------------------------------
// Appearance sets of a frame
// ---------------------------------------------------------------------------

/// The plain contents of a sequence of pair vectors.
pub open spec fn pair_views(v: Seq<Vec<(Thing, Thing)>>) -> Seq<Seq<(Thing, Thing)>> {
    v.map_values(|x: Vec<(Thing, Thing)>| x@)
}

/// Whether `a` sorts before `b` as an appearance set.
pub fn pairs_before(a: &[(Thing, Thing)], b: &[(Thing, Thing)]) -> (r: bool)
    ensures
        r == appearance_keys_before(a@, b@),
{
    let mut k: usize = 0;
    while k < a.len() && k < b.len()
        invariant
            k <= a@.len(),
            k <= b@.len(),
            appearance_keys_before(a@, b@) == appearance_keys_before(a@.skip(k as int), b@.skip(k as int)),
        decreases a@.len() - k,
    {
        if a[k].0 != b[k].0 || a[k].1 != b[k].1 {
            return a[k].0 < b[k].0 || (a[k].0 == b[k].0 && a[k].1 < b[k].1);
        }
        assert(a@.skip(k as int).drop_first() =~= a@.skip(k + 1));
        assert(b@.skip(k as int).drop_first() =~= b@.skip(k + 1));
        k = k + 1;
    }
    k == a.len() && k < b.len()
}

/// Two different appearance sets are ordered one way or the other.
pub proof fn appearance_order_is_total(a: Seq<(Thing, Thing)>, b: Seq<(Thing, Thing)>)
    ensures
        a != b ==> appearance_keys_before(a, b) || appearance_keys_before(b, a),
    decreases a.len(),
{
    if a.len() == 0 && b.len() == 0 {
        assert(a =~= b);
    }
    if a.len() > 0 && b.len() > 0 && a[0] == b[0] {
        appearance_order_is_total(a.drop_first(), b.drop_first());
        if a.drop_first() == b.drop_first() {
            assert(a.drop_first().len() == a.len() - 1);
            assert(b.drop_first().len() == b.len() - 1);
            assert(a =~= b) by {
                assert forall|k: int| 0 <= k < a.len() implies a[k] == b[k] by {
                    if k > 0 {
                        assert(a[k] == a.drop_first()[k - 1]);
                        assert(b[k] == b.drop_first()[k - 1]);
                    }
                }
            }
        }
    }
}

/// The appearance sets of the first `n` records.
pub open spec fn record_sets_upto(rs: Seq<CapturedView>, n: int) -> Set<Seq<(Thing, Thing)>> {
    Set::new(|p: Seq<(Thing, Thing)>| exists|i: int| 0 <= i < n && (#[trigger] rs[i]).pairs == p)
}

/// The appearance sets of the records.
pub open spec fn record_sets(rs: Seq<CapturedView>) -> Set<Seq<(Thing, Thing)>> {
    record_sets_upto(rs, rs.len() as int)
}

/// Appearance sets in strictly increasing order.
pub open spec fn sets_sorted(s: Seq<Seq<(Thing, Thing)>>) -> bool {
    forall|a: int, b: int| 0 <= a < b < s.len() ==> appearance_keys_before(#[trigger] s[a], #[trigger] s[b])
}

/// `s` lists the appearance sets of the records, once each, in order.
pub open spec fn enumerates(s: Seq<Seq<(Thing, Thing)>>, rs: Seq<CapturedView>) -> bool {
    sets_sorted(s) && s.to_set() == record_sets(rs)
}

/// The appearance sets of the records, once each, in order.
pub open spec fn set_sequence(rs: Seq<CapturedView>) -> Seq<Seq<(Thing, Thing)>> {
    choose|s: Seq<Seq<(Thing, Thing)>>| enumerates(s, rs)
}

/// Two sorted sequences of the same appearance sets are the same.
proof fn lemma_sorted_unique(s1: Seq<Seq<(Thing, Thing)>>, s2: Seq<Seq<(Thing, Thing)>>)
    requires
        sets_sorted(s1),
        sets_sorted(s2),
        s1.to_set() == s2.to_set(),
    ensures
        s1 == s2,
    decreases s1.len(),
{
    if s1.len() == 0 {
        if s2.len() > 0 {
            assert(s2.to_set().contains(s2[0]));
        }
        assert(s1 =~= s2);
        return;
    }
    if s2.len() == 0 {
        assert(s1.to_set().contains(s1[0]));
        return;
    }
    let x = s1[0];
    let y = s2[0];
    assert(s1.to_set().contains(x));
    assert(s2.to_set().contains(y));
    if x != y {
        let j = choose|j: int| 0 <= j < s2.len() && s2[j] == x;
        let i = choose|i: int| 0 <= i < s1.len() && s1[i] == y;
        assert(appearance_keys_before(s2[0], s2[j]));
        assert(appearance_keys_before(s1[0], s1[i]));
        assert(appearance_keys_before(x, y));
        assert(appearance_keys_before(y, x));
        appearance_order_is_strict(x, y, x);
        assert(false);
    }
    let r1 = s1.drop_first();
    let r2 = s2.drop_first();
    assert(sets_sorted(r1)) by {
        assert forall|a: int, b: int| 0 <= a < b < r1.len() implies appearance_keys_before(#[trigger] r1[a], #[trigger] r1[b]) by {
            assert(r1[a] == s1[a + 1]);
            assert(r1[b] == s1[b + 1]);
        }
    }
    assert(sets_sorted(r2)) by {
        assert forall|a: int, b: int| 0 <= a < b < r2.len() implies appearance_keys_before(#[trigger] r2[a], #[trigger] r2[b]) by {
            assert(r2[a] == s2[a + 1]);
            assert(r2[b] == s2[b + 1]);
        }
    }
    assert(r1.to_set() =~= r2.to_set()) by {
        assert forall|p: Seq<(Thing, Thing)>| r1.to_set().contains(p) implies r2.to_set().contains(p) by {
            let i = choose|i: int| 0 <= i < r1.len() && r1[i] == p;
            assert(s1[i + 1] == p);
            assert(appearance_keys_before(s1[0], s1[i + 1]));
            appearance_order_is_strict(x, x, x);
            assert(s1.to_set().contains(p));
            let j = choose|j: int| 0 <= j < s2.len() && s2[j] == p;
            assert(j != 0);
            assert(r2[j - 1] == p);
        }
        assert forall|p: Seq<(Thing, Thing)>| r2.to_set().contains(p) implies r1.to_set().contains(p) by {
            let j = choose|j: int| 0 <= j < r2.len() && r2[j] == p;
            assert(s2[j + 1] == p);
            assert(appearance_keys_before(s2[0], s2[j + 1]));
            appearance_order_is_strict(y, y, y);
            assert(s2.to_set().contains(p));
            let i = choose|i: int| 0 <= i < s1.len() && s1[i] == p;
            assert(i != 0);
            assert(r1[i - 1] == p);
        }
    }
    lemma_sorted_unique(r1, r2);
    assert(s1.len() == s2.len());
    assert(x == y);
    assert(s1 =~= s2) by {
        assert forall|k: int| 0 <= k < s1.len() implies s1[k] == s2[k] by {
            if k > 0 {
                assert(s1[k] == r1[k - 1]);
                assert(s2[k] == r2[k - 1]);
            }
        }
    }
}

/// A sorted listing of the records' appearance sets is the one
/// `set_sequence` names.
proof fn lemma_set_sequence(s: Seq<Seq<(Thing, Thing)>>, rs: Seq<CapturedView>)
    requires
        enumerates(s, rs),
    ensures
        set_sequence(rs) == s,
{
    let t = set_sequence(rs);
    assert(enumerates(t, rs));
    lemma_sorted_unique(s, t);
}

/// The records among the first `n` holding appearance set `p`.
pub open spec fn count_with(rs: Seq<CapturedView>, p: Seq<(Thing, Thing)>, n: nat) -> nat
    decreases n,
{
    if n == 0 || n > rs.len() {
        0
    } else {
        count_with(rs, p, (n - 1) as nat) + if rs[n - 1].pairs == p {
            1nat
        } else {
            0nat
        }
    }
}

proof fn lemma_count_with(rs: Seq<CapturedView>, p: Seq<(Thing, Thing)>, n: nat)
    requires
        n <= rs.len(),
    ensures
        count_with(rs, p, n) <= n,
        !record_sets_upto(rs, n as int).contains(p) ==> count_with(rs, p, n) == 0,
    decreases n,
{
    if n > 0 {
        lemma_count_with(rs, p, (n - 1) as nat);
        if !record_sets_upto(rs, n as int).contains(p) {
            assert(!record_sets_upto(rs, n - 1).contains(p)) by {
                if record_sets_upto(rs, n - 1).contains(p) {
                    let k = choose|k: int| 0 <= k < n - 1 && (#[trigger] rs[k]).pairs == p;
                    assert(0 <= k < n);
                }
            }
            if rs[n - 1].pairs == p {
                assert(record_sets_upto(rs, n as int).contains(p));
            }
        }
    }
}

/// The distinct appearance sets of the records, in order, with the number
/// of records holding each.
pub fn active_sets(records: &Vec<CapturedPosit>) -> (r: (Vec<Vec<(Thing, Thing)>>, Vec<u64>))
    ensures
        enumerates(pair_views(r.0@), captured_views(records@)),
        pair_views(r.0@) == set_sequence(captured_views(records@)),
        r.1@.len() == r.0@.len(),
        forall|k: int| 0 <= k < r.1@.len() ==> r.1@[k] == count_with(captured_views(records@), #[trigger] r.0@[k]@, records@.len() as nat),
{
    let ghost rv = captured_views(records@);
    let mut out: Vec<Vec<(Thing, Thing)>> = Vec::new();
    let mut counts: Vec<u64> = Vec::new();
    let mut i: usize = 0;
    assert(pair_views(out@).to_set() =~= record_sets_upto(rv, 0));
    while i < records.len()
        invariant
            rv == captured_views(records@),
            i <= records@.len(),
            sets_sorted(pair_views(out@)),
            pair_views(out@).to_set() == record_sets_upto(rv, i as int),
            counts@.len() == out@.len(),
            forall|k: int| 0 <= k < counts@.len() ==> counts@[k] == count_with(rv, #[trigger] out@[k]@, i as nat),
        decreases records@.len() - i,
    {
        let ghost before = pair_views(out@);
        let ghost before_counts = counts@;
        let pairs = records[i].pairs.as_slice();
        assert(rv[i as int].pairs == pairs@);
        proof {
            assert forall|k: int| 0 <= k < out@.len() implies out@[k]@ == before[k] by {}
        }
        let mut p: usize = 0;
        while p < out.len() && pairs_before(out[p].as_slice(), pairs)
            invariant
                before == pair_views(out@),
                p <= out@.len(),
                forall|k: int| 0 <= k < p ==> appearance_keys_before(#[trigger] before[k], pairs@),
            decreases out@.len() - p,
        {
            assert(before[p as int] == out@[p as int]@);
            p = p + 1;
        }
        if p < out.len() && same_pairs(out[p].as_slice(), pairs) {
            proof {
                assert(before[p as int] == pairs@);
                lemma_count_with(rv, pairs@, i as nat);
            }
            let c = counts[p];
            counts.set(p, c + 1);
            proof {
                assert forall|k: int| 0 <= k < counts@.len() implies counts@[k] == count_with(
                    rv,
                    #[trigger] out@[k]@,
                    (i + 1) as nat,
                ) by {
                    assert(out@[k]@ == before[k]);
                    if k != p {
                        if k < p {
                            assert(appearance_keys_before(before[k], before[p as int]));
                        } else {
                            assert(appearance_keys_before(before[p as int], before[k]));
                        }
                        appearance_order_is_strict(before[k], before[k], before[k]);
                    }
                }
                assert(record_sets_upto(rv, i + 1) =~= record_sets_upto(rv, i as int)) by {
                    assert forall|q: Seq<(Thing, Thing)>| record_sets_upto(rv, i + 1).contains(q) implies record_sets_upto(
                        rv,
                        i as int,
                    ).contains(q) by {
                        let k = choose|k: int| 0 <= k < i + 1 && (#[trigger] rv[k]).pairs == q;
                        if k == i {
                            assert(before.to_set().contains(pairs@));
                        }
                    }
                    assert forall|q: Seq<(Thing, Thing)>| record_sets_upto(rv, i as int).contains(q) implies record_sets_upto(
                        rv,
                        i + 1,
                    ).contains(q) by {
                        let k = choose|k: int| 0 <= k < i && (#[trigger] rv[k]).pairs == q;
                        assert(0 <= k < i + 1);
                    }
                }
            }
        } else {
            proof {
                if p < out.len() {
                    assert(before[p as int] == out@[p as int]@);
                    appearance_order_is_total(before[p as int], pairs@);
                }
                assert forall|j: int| p <= j < before.len() implies appearance_keys_before(pairs@, #[trigger] before[j]) by {
                    if j > p {
                        assert(appearance_keys_before(before[p as int], before[j]));
                        appearance_order_is_strict(pairs@, before[p as int], before[j]);
                    }
                }
                assert(!before.to_set().contains(pairs@)) by {
                    if before.to_set().contains(pairs@) {
                        let m = choose|m: int| 0 <= m < before.len() && before[m] == pairs@;
                        appearance_order_is_strict(pairs@, pairs@, pairs@);
                    }
                }
                lemma_count_with(rv, pairs@, i as nat);
            }
            let copy = copy_pairs(pairs);
            out.insert(p, copy);
            counts.insert(p, 1);
            proof {
                let now = pair_views(out@);
                assert(now =~= before.insert(p as int, pairs@));
                assert(counts@ =~= before_counts.insert(p as int, 1));
                assert forall|k: int| 0 <= k < counts@.len() implies counts@[k] == count_with(
                    rv,
                    #[trigger] out@[k]@,
                    (i + 1) as nat,
                ) by {
                    assert(out@[k]@ == now[k]);
                    if k < p {
                        assert(now[k] == before[k]);
                        appearance_order_is_strict(before[k], before[k], before[k]);
                    } else if k > p {
                        assert(now[k] == before[k - 1]);
                        appearance_order_is_strict(before[k - 1], before[k - 1], before[k - 1]);
                    }
                }
                assert(sets_sorted(now)) by {
                    assert forall|a: int, b: int| 0 <= a < b < now.len() implies appearance_keys_before(
                        #[trigger] now[a],
                        #[trigger] now[b],
                    ) by {
                        if a < p && b == p {
                        } else if a < p && b > p {
                            appearance_order_is_strict(before[a], pairs@, before[b - 1]);
                        } else if a == p {
                        } else if b < p {
                        } else {
                        }
                    }
                }
                assert(now.to_set() =~= record_sets_upto(rv, i + 1)) by {
                    assert forall|q: Seq<(Thing, Thing)>| now.to_set().contains(q) implies record_sets_upto(
                        rv,
                        i + 1,
                    ).contains(q) by {
                        let k = choose|k: int| 0 <= k < now.len() && now[k] == q;
                        if k == p {
                            assert(rv[i as int].pairs == q);
                        } else if k < p {
                            assert(before[k] == q);
                            assert(before.to_set().contains(q));
                            let m = choose|m: int| 0 <= m < i && (#[trigger] rv[m]).pairs == q;
                            assert(0 <= m < i + 1);
                        } else {
                            assert(before[k - 1] == q);
                            assert(before.to_set().contains(q));
                            let m = choose|m: int| 0 <= m < i && (#[trigger] rv[m]).pairs == q;
                            assert(0 <= m < i + 1);
                        }
                    }
                    assert forall|q: Seq<(Thing, Thing)>| record_sets_upto(rv, i + 1).contains(q) implies now.to_set().contains(
                        q,
                    ) by {
                        let k = choose|k: int| 0 <= k < i + 1 && (#[trigger] rv[k]).pairs == q;
                        if k == i {
                            assert(now[p as int] == q);
                        } else {
                            assert(record_sets_upto(rv, i as int).contains(q));
                            assert(before.to_set().contains(q));
                            let m = choose|m: int| 0 <= m < before.len() && before[m] == q;
                            if m < p {
                                assert(now[m] == q);
                            } else {
                                assert(now[m + 1] == q);
                            }
                        }
                    }
                }
            }
        }
        i = i + 1;
    }
    proof {
        lemma_set_sequence(pair_views(out@), rv);
    }
    (out, counts)
}

// ---------------------------------------------------------------------------
// Endpoints of a frame
// ---------------------------------------------------------------------------

/// The things of an appearance set.
pub open spec fn pair_things(p: Seq<(Thing, Thing)>) -> Set<Thing> {
    Set::new(|t: Thing| exists|k: int| 0 <= k < p.len() && (#[trigger] p[k]).1 == t)
}

/// The roles of an appearance set.
pub open spec fn pair_roles(p: Seq<(Thing, Thing)>) -> Set<Thing> {
    Set::new(|t: Thing| exists|k: int| 0 <= k < p.len() && (#[trigger] p[k]).0 == t)
}

/// The things of the first `n` appearance sets.
pub open spec fn things_upto(s: Seq<Seq<(Thing, Thing)>>, n: int) -> Set<Thing> {
    Set::new(|t: Thing| exists|k: int| 0 <= k < n && pair_things(#[trigger] s[k]).contains(t))
}

/// The roles of the first `n` appearance sets.
pub open spec fn roles_upto(s: Seq<Seq<(Thing, Thing)>>, n: int) -> Set<Thing> {
    Set::new(|t: Thing| exists|k: int| 0 <= k < n && pair_roles(#[trigger] s[k]).contains(t))
}

/// A relationship wider than the arity limit allows.
pub open spec fn too_wide(p: Seq<(Thing, Thing)>, limit: u64) -> bool {
    p.len() >= 2 && p.len() > limit
}

/// The first limit the first `n` appearance sets of a frame pass, taken in
/// order: a relationship too wide, or too many endpoint things so far.
pub open spec fn frame_failure(s: Seq<Seq<(Thing, Thing)>>, limits: TerrainLimits, n: nat) -> Option<DatabaseError>
    decreases n,
{
    if n == 0 || n > s.len() {
        None
    } else {
        match frame_failure(s, limits, (n - 1) as nat) {
            Some(e) => Some(e),
            None => if too_wide(s[n - 1], limits.relationship_arity) {
                Some(limit_error("relationship arity", limits.relationship_arity))
            } else if things_upto(s, n as int).len() > limits.endpoint_things {
                Some(limit_error("endpoint Things", limits.endpoint_things))
            } else {
                None
            },
        }
    }
}

proof fn lemma_frame_failure_persists(s: Seq<Seq<(Thing, Thing)>>, limits: TerrainLimits, a: nat, b: nat)
    requires
        a <= b <= s.len(),
        frame_failure(s, limits, a) is Some,
    ensures
        frame_failure(s, limits, b) == frame_failure(s, limits, a),
    decreases b - a,
{
    if a < b {
        lemma_frame_failure_persists(s, limits, a, (b - 1) as nat);
    }
}

proof fn lemma_upto_step(s: Seq<Seq<(Thing, Thing)>>, n: int)
    requires
        0 <= n < s.len(),
    ensures
        things_upto(s, n + 1) == things_upto(s, n).union(pair_things(s[n])),
        roles_upto(s, n + 1) == roles_upto(s, n).union(pair_roles(s[n])),
{
    assert(things_upto(s, n + 1) =~= things_upto(s, n).union(pair_things(s[n])));
    assert(roles_upto(s, n + 1) =~= roles_upto(s, n).union(pair_roles(s[n])));
}

/// Adds the things (or, with `roles`, the roles) of an appearance set to a
/// strictly increasing vector.
fn add_members(v: &mut Vec<Thing>, pairs: &[(Thing, Thing)], roles: bool)
    requires
        increasing(old(v)@),
    ensures
        increasing(final(v)@),
        final(v)@.to_set() == old(v)@.to_set().union(if roles {
            pair_roles(pairs@)
        } else {
            pair_things(pairs@)
        }),
{
    let ghost start = v@.to_set();
    let mut j: usize = 0;
    while j < pairs.len()
        invariant
            j <= pairs@.len(),
            increasing(v@),
            v@.to_set() == start.union(
                Set::new(
                    |t: Thing|
                        exists|k: int|
                            0 <= k < j && (if roles {
                                (#[trigger] pairs@[k]).0
                            } else {
                                pairs@[k].1
                            }) == t,
                ),
            ),
        decreases pairs@.len() - j,
    {
        let ghost before = v@.to_set();
        let member = if roles {
            pairs[j].0
        } else {
            pairs[j].1
        };
        insert_sorted(v, member);
        proof {
            assert(v@.to_set() =~= start.union(
                Set::new(
                    |t: Thing|
                        exists|k: int|
                            0 <= k < j + 1 && (if roles {
                                (#[trigger] pairs@[k]).0
                            } else {
                                pairs@[k].1
                            }) == t,
                ),
            )) by {
                assert forall|t: Thing| v@.to_set().contains(t) implies start.union(
                    Set::new(
                        |t: Thing|
                            exists|k: int|
                                0 <= k < j + 1 && (if roles {
                                    (#[trigger] pairs@[k]).0
                                } else {
                                    pairs@[k].1
                                }) == t,
                    ),
                ).contains(t) by {
                    if t != member {
                        assert(before.contains(t));
                        if !start.contains(t) {
                            let k = choose|k: int|
                                0 <= k < j && (if roles {
                                    (#[trigger] pairs@[k]).0
                                } else {
                                    pairs@[k].1
                                }) == t;
                            assert(0 <= k < j + 1);
                        }
                    }
                }
            }
        }
        j = j + 1;
    }
    proof {
        let target = if roles {
            pair_roles(pairs@)
        } else {
            pair_things(pairs@)
        };
        assert(v@.to_set() =~= start.union(target)) by {
            assert forall|t: Thing| target.contains(t) implies v@.to_set().contains(t) by {
                let k = choose|k: int| 0 <= k < pairs@.len() && (if roles {
                    (#[trigger] pairs@[k]).0
                } else {
                    pairs@[k].1
                }) == t;
            }
        }
    }
}

/// A strictly increasing sequence has as many members as elements.
pub proof fn lemma_increasing_len(s: Seq<u64>)
    requires
        increasing(s),
    ensures
        s.no_duplicates(),
        s.to_set().len() == s.len(),
{
    assert(s.no_duplicates()) by {
        assert forall|i: int, j: int| 0 <= i < s.len() && 0 <= j < s.len() && i != j implies s[i] != s[j] by {
            if i < j {
                assert(s[i] < s[j]);
            } else {
                assert(s[j] < s[i]);
            }
        }
    }
    s.unique_seq_to_set();
}

/// The endpoint things and active roles of a frame's appearance sets,
/// failing at the first set that passes a limit.
fn frame_endpoints(sets: &Vec<Vec<(Thing, Thing)>>, execution: &TerrainExecution) -> (r: Result<
    (Vec<Thing>, Vec<Thing>),
    DatabaseError,
>)
    ensures
        r matches Ok((things, roles)) ==> {
            &&& frame_failure(pair_views(sets@), execution.limits_spec(), sets@.len()) is None
            &&& increasing(things@)
            &&& things@.to_set() == things_upto(pair_views(sets@), sets@.len() as int)
            &&& increasing(roles@)
            &&& roles@.to_set() == roles_upto(pair_views(sets@), sets@.len() as int)
        },
        r matches Err(e) ==> interrupted(e, *execution) || frame_failure(pair_views(sets@), execution.limits_spec(), sets@.len())
            == Some(e),
        frame_failure(pair_views(sets@), execution.limits_spec(), sets@.len()) is Some ==> r is Err,
{
    let ghost sv = pair_views(sets@);
    let ghost limits = execution.limits_spec();
    let mut things: Vec<Thing> = Vec::new();
    let mut roles: Vec<Thing> = Vec::new();
    let mut k: usize = 0;
    assert(things@.to_set() =~= things_upto(sv, 0));
    assert(roles@.to_set() =~= roles_upto(sv, 0));
    while k < sets.len()
        invariant
            sv == pair_views(sets@),
            limits == execution.limits_spec(),
            k <= sets@.len(),
            frame_failure(sv, limits, k as nat) is None,
            increasing(things@),
            things@.to_set() == things_upto(sv, k as int),
            increasing(roles@),
            roles@.to_set() == roles_upto(sv, k as int),
        decreases sets@.len() - k,
    {
        if let Err(e) = execution.checkpoint(k) {
            return Err(e);
        }
        let set = sets[k].as_slice();
        assert(sv[k as int] == set@);
        let arity = set.len();
        if arity >= 2 && arity as u64 > execution.limits().relationship_arity {
            proof {
                lemma_frame_failure_persists(sv, limits, (k + 1) as nat, sets@.len() as nat);
            }
            return Err(crate::error::resource_limit("relationship arity", execution.limits().relationship_arity));
        }
        add_members(&mut things, set, false);
        add_members(&mut roles, set, true);
        proof {
            lemma_upto_step(sv, k as int);
            lemma_increasing_len(things@);
        }
        if things.len() as u64 > execution.limits().endpoint_things {
            proof {
                lemma_frame_failure_persists(sv, limits, (k + 1) as nat, sets@.len() as nat);
            }
            return Err(crate::error::resource_limit("endpoint Things", execution.limits().endpoint_things));
        }
        k = k + 1;
    }
    Ok((things, roles))
}

// ---------------------------------------------------------------------------
// The work of a frame
// ---------------------------------------------------------------------------

/// The appearances of the first `n` records, counted with repetition.
pub open spec fn incidence_count(rs: Seq<CapturedView>, n: nat) -> nat
    decreases n,
{
    if n == 0 || n > rs.len() {
        0
    } else {
        incidence_count(rs, (n - 1) as nat) + rs[n - 1].pairs.len()
    }
}

/// The limit a frame of records passes, if any: too many appearance sets,
/// then the first set too wide or bringing too many endpoint things.
pub open spec fn frame_error(rs: Seq<CapturedView>, limits: TerrainLimits) -> Option<DatabaseError> {
    let s = set_sequence(rs);
    if s.len() > limits.active_appearance_sets {
        Some(limit_error("active appearance sets", limits.active_appearance_sets))
    } else {
        frame_failure(s, limits, s.len())
    }
}

/// Appearances in strictly increasing role order.
pub open spec fn pairs_ordered(p: Seq<(Thing, Thing)>) -> bool {
    forall|a: int, b: int| 0 <= a < b < p.len() ==> (#[trigger] p[a]).0 < (#[trigger] p[b]).0
}

/// What one frame holds: its statistics, its appearance sets in order with
/// the posits holding each, its endpoint things in increasing order, and,
/// once assigned, the profile mask of each endpoint thing.
pub struct FrameWork {
    pub stats: TerrainFrameStats,
    pub sets: Vec<Vec<(Thing, Thing)>>,
    pub set_posits: Vec<u64>,
    pub endpoint_things: Vec<Thing>,
    pub profile_masks: Vec<u16>,
}

/// The plain contents of a frame: its sets in order, the posits holding
/// each, its endpoint things in order and the profile mask of each.
pub struct FrameView {
    pub sets: Seq<Seq<(Thing, Thing)>>,
    pub set_posits: Seq<u64>,
    pub things: Seq<Thing>,
    pub masks: Seq<u16>,
}

/// The plain contents of a frame's work.
pub open spec fn frame_view(w: FrameWork) -> FrameView {
    FrameView { sets: pair_views(w.sets@), set_posits: w.set_posits@, things: w.endpoint_things@, masks: w.profile_masks@ }
}

/// `w` holds the frame of the records `rs`.
pub open spec fn frame_work_of(w: FrameWork, rs: Seq<CapturedView>) -> bool {
    let s = set_sequence(rs);
    &&& pair_views(w.sets@) == s
    &&& sets_sorted(s)
    &&& forall|k: int| 0 <= k < s.len() ==> pairs_ordered(#[trigger] s[k]) && s[k].len() <= MAX_RELATIONSHIP_ARITY
    &&& w.set_posits@.len() == s.len()
    &&& forall|k: int| 0 <= k < s.len() ==> w.set_posits@[k] == count_with(rs, #[trigger] s[k], rs.len())
    &&& increasing(w.endpoint_things@)
    &&& w.endpoint_things@.to_set() == things_upto(s, s.len() as int)
    &&& roles_upto(s, s.len() as int).finite()
    &&& w.stats == (TerrainFrameStats {
        endpoint_things: w.endpoint_things@.len() as u64,
        roles: roles_upto(s, s.len() as int).len() as u64,
        appearance_sets: s.len() as u64,
        posits: rs.len() as u64,
        incidences: incidence_count(rs, rs.len()) as u64,
    })
}

proof fn lemma_no_failure_narrow(s: Seq<Seq<(Thing, Thing)>>, limits: TerrainLimits, n: nat, k: int)
    requires
        n <= s.len(),
        0 <= k < n,
        frame_failure(s, limits, n) is None,
    ensures
        !too_wide(s[k], limits.relationship_arity),
    decreases n,
{
    if k < n - 1 {
        lemma_no_failure_narrow(s, limits, (n - 1) as nat, k);
    }
}

/// The appearances of the records, counted with repetition.
fn count_incidences(records: &Vec<CapturedPosit>, limits: Ghost<TerrainLimits>) -> (n: u64)
    requires
        records@.len() <= MAX_POSITS_SCANNED,
        limits@.relationship_arity <= MAX_RELATIONSHIP_ARITY,
        forall|i: int| 0 <= i < records@.len() ==> !too_wide(#[trigger] records@[i].pairs@, limits@.relationship_arity),
    ensures
        n == incidence_count(captured_views(records@), records@.len() as nat),
{
    let ghost rv = captured_views(records@);
    let mut total: u64 = 0;
    let mut i: usize = 0;
    while i < records.len()
        invariant
            rv == captured_views(records@),
            i <= records@.len(),
            records@.len() <= MAX_POSITS_SCANNED,
            limits@.relationship_arity <= MAX_RELATIONSHIP_ARITY,
            forall|i: int| 0 <= i < records@.len() ==> !too_wide(#[trigger] records@[i].pairs@, limits@.relationship_arity),
            total == incidence_count(rv, i as nat),
            total <= 256 * i,
        decreases records@.len() - i,
    {
        assert(rv[i as int] == records@[i as int]@);
        assert(!too_wide(records@[i as int].pairs@, limits@.relationship_arity));
        total = total + records[i].pairs.len() as u64;
        i = i + 1;
    }
    total
}

/// Counts what a frame of records holds, failing at the first limit it
/// passes.
pub fn build_frame_work(records: &Vec<CapturedPosit>, execution: &TerrainExecution) -> (r: Result<
    FrameWork,
    DatabaseError,
>)
    requires
        records@.len() <= MAX_POSITS_SCANNED,
        execution.limits_spec().relationship_arity <= MAX_RELATIONSHIP_ARITY,
        forall|i: int| 0 <= i < records@.len() ==> pairs_ordered(#[trigger] records@[i].pairs@),
    ensures
        r matches Ok(w) ==> {
            &&& frame_work_of(w, captured_views(records@))
            &&& w.profile_masks@.len() == 0
            &&& frame_error(captured_views(records@), execution.limits_spec()) is None
        },
        r matches Err(e) ==> interrupted(e, *execution) || frame_error(captured_views(records@), execution.limits_spec()) == Some(
            e,
        ),
        frame_error(captured_views(records@), execution.limits_spec()) is Some ==> r is Err,
{
    let ghost rv = captured_views(records@);
    let ghost limits = execution.limits_spec();
    let (sets, set_posits) = active_sets(records);
    let ghost s = pair_views(sets@);
    if sets.len() as u64 > execution.limits().active_appearance_sets {
        return Err(crate::error::resource_limit("active appearance sets", execution.limits().active_appearance_sets));
    }
    let (endpoint_things, roles) = match frame_endpoints(&sets, execution) {
        Ok(found) => found,
        Err(e) => {
            return Err(e);
        },
    };
    proof {
        assert forall|i: int| 0 <= i < records@.len() implies !too_wide(
            #[trigger] records@[i].pairs@,
            limits.relationship_arity,
        ) by {
            assert(rv[i].pairs == records@[i].pairs@);
            assert(record_sets(rv).contains(rv[i].pairs));
            assert(s.to_set().contains(rv[i].pairs));
            let k = choose|k: int| 0 <= k < s.len() && s[k] == rv[i].pairs;
            lemma_no_failure_narrow(s, limits, s.len(), k);
        }
        lemma_increasing_len(endpoint_things@);
        lemma_increasing_len(roles@);
        assert forall|k: int| 0 <= k < s.len() implies set_posits@[k] == count_with(rv, #[trigger] s[k], rv.len()) by {
            assert(s[k] == sets@[k]@);
        }
        assert forall|k: int| 0 <= k < s.len() implies pairs_ordered(#[trigger] s[k]) && s[k].len()
            <= MAX_RELATIONSHIP_ARITY by {
            assert(s.to_set().contains(s[k]));
            assert(record_sets(rv).contains(s[k]));
            let i = choose|i: int| 0 <= i < rv.len() && (#[trigger] rv[i]).pairs == s[k];
            assert(rv[i].pairs == records@[i].pairs@);
            lemma_no_failure_narrow(s, limits, s.len(), k);
        }
    }
    let incidences = count_incidences(records, Ghost(limits));
    let stats = TerrainFrameStats {
        endpoint_things: endpoint_things.len() as u64,
        roles: roles.len() as u64,
        appearance_sets: sets.len() as u64,
        posits: records.len() as u64,
        incidences,
    };
    Ok(FrameWork { stats, sets, set_posits, endpoint_things, profile_masks: Vec::new() })
}

// ---------------------------------------------------------------------------
// Attribute roles
// ---------------------------------------------------------------------------

/// An appearance set of one appearance, in role `r`.
pub open spec fn attribute_in(p: Seq<(Thing, Thing)>, r: Thing) -> bool {
    p.len() == 1 && p[0].0 == r
}

/// The attribute sets in role `r` among the first `n` sets: the distinct
/// things that role is an attribute of.
pub open spec fn support_of(s: Seq<Seq<(Thing, Thing)>>, r: Thing, n: nat) -> nat
    decreases n,
{
    if n == 0 || n > s.len() {
        0
    } else {
        support_of(s, r, (n - 1) as nat) + if attribute_in(s[n - 1], r) {
            1nat
        } else {
            0nat
        }
    }
}

/// The roles of the attribute sets among the first `n` sets.
pub open spec fn attribute_roles_upto(s: Seq<Seq<(Thing, Thing)>>, n: int) -> Set<Thing> {
    Set::new(|r: Thing| exists|k: int| 0 <= k < n && attribute_in(#[trigger] s[k], r))
}

proof fn lemma_support_bound(s: Seq<Seq<(Thing, Thing)>>, r: Thing, n: nat)
    requires
        n <= s.len(),
    ensures
        support_of(s, r, n) <= n,
    decreases n,
{
    if n > 0 {
        lemma_support_bound(s, r, (n - 1) as nat);
    }
}

/// The number of things role `role` is an attribute of in a frame.
pub fn support(frame: &FrameWork, role: Thing) -> (n: u64)
    ensures
        n == support_of(pair_views(frame.sets@), role, frame.sets@.len() as nat),
{
    let ghost s = pair_views(frame.sets@);
    let mut n: u64 = 0;
    let mut k: usize = 0;
    while k < frame.sets.len()
        invariant
            s == pair_views(frame.sets@),
            k <= frame.sets@.len(),
            n == support_of(s, role, k as nat),
        decreases frame.sets@.len() - k,
    {
        proof {
            lemma_support_bound(s, role, k as nat);
        }
        assert(s[k as int] == frame.sets@[k as int]@);
        let set = frame.sets[k].as_slice();
        if set.len() == 1 && set[0].0 == role {
            n = n + 1;
        }
        k = k + 1;
    }
    n
}

/// The attribute roles of a frame, in increasing order.
pub fn attribute_roles(frame: &FrameWork) -> (roles: Vec<Thing>)
    ensures
        increasing(roles@),
        roles@.to_set() == attribute_roles_upto(pair_views(frame.sets@), frame.sets@.len() as int),
{
    let ghost s = pair_views(frame.sets@);
    let mut roles: Vec<Thing> = Vec::new();
    let mut k: usize = 0;
    assert(roles@.to_set() =~= attribute_roles_upto(s, 0));
    while k < frame.sets.len()
        invariant
            s == pair_views(frame.sets@),
            k <= frame.sets@.len(),
            increasing(roles@),
            roles@.to_set() == attribute_roles_upto(s, k as int),
        decreases frame.sets@.len() - k,
    {
        assert(s[k as int] == frame.sets@[k as int]@);
        let set = frame.sets[k].as_slice();
        if set.len() == 1 {
            insert_sorted(&mut roles, set[0].0);
        }
        assert(roles@.to_set() =~= attribute_roles_upto(s, k + 1)) by {
            assert forall|r: Thing| attribute_roles_upto(s, k + 1).contains(r) implies roles@.to_set().contains(r) by {
                let j = choose|j: int| 0 <= j < k + 1 && attribute_in(#[trigger] s[j], r);
                if j < k {
                    assert(attribute_roles_upto(s, k as int).contains(r));
                }
            }
            assert forall|r: Thing| roles@.to_set().contains(r) implies attribute_roles_upto(s, k + 1).contains(r) by {
                if attribute_roles_upto(s, k as int).contains(r) {
                    let j = choose|j: int| 0 <= j < k && attribute_in(#[trigger] s[j], r);
                    assert(0 <= j < k + 1);
                } else {
                    assert(attribute_in(s[k as int], r));
                }
            }
        }
        k = k + 1;
    }
    roles
}

/// Whether role `role` is an attribute of `thing` in a frame: the frame
/// holds the appearance set of that one appearance. A binary search.
pub fn has_attribute(frame: &FrameWork, role: Thing, thing: Thing) -> (b: bool)
    requires
        sets_sorted(pair_views(frame.sets@)),
    ensures
        b == pair_views(frame.sets@).contains(seq![(role, thing)]),
{
    let ghost s = pair_views(frame.sets@);
    let target = [(role, thing)];
    assert(target@ =~= seq![(role, thing)]);
    let mut lo: usize = 0;
    let mut hi: usize = frame.sets.len();
    while lo < hi
        invariant
            s == pair_views(frame.sets@),
            sets_sorted(s),
            target@ == seq![(role, thing)],
            lo <= hi <= s.len(),
            forall|k: int| 0 <= k < lo ==> appearance_keys_before(#[trigger] s[k], target@),
            forall|k: int| hi <= k < s.len() ==> appearance_keys_before(target@, #[trigger] s[k]),
        decreases hi - lo,
    {
        let mid = lo + (hi - lo) / 2;
        assert(s[mid as int] == frame.sets@[mid as int]@);
        let set = frame.sets[mid].as_slice();
        if pairs_before(set, target.as_slice()) {
            proof {
                assert forall|k: int| 0 <= k < mid + 1 implies appearance_keys_before(#[trigger] s[k], target@) by {
                    if k < mid {
                        appearance_order_is_strict(s[k], s[mid as int], target@);
                    }
                }
            }
            lo = mid + 1;
        } else if pairs_before(target.as_slice(), set) {
            proof {
                assert forall|k: int| mid <= k < s.len() implies appearance_keys_before(target@, #[trigger] s[k]) by {
                    if k > mid {
                        appearance_order_is_strict(target@, s[mid as int], s[k]);
                    }
                }
            }
            hi = mid;
        } else {
            proof {
                appearance_order_is_total(s[mid as int], target@);
            }
            return true;
        }
    }
    proof {
        if s.contains(seq![(role, thing)]) {
            let k = choose|k: int| 0 <= k < s.len() && s[k] == seq![(role, thing)];
            appearance_order_is_strict(target@, target@, target@);
        }
    }
    false
}

// ---------------------------------------------------------------------------
// Orders
// ---------------------------------------------------------------------------

/// `before` is a strict order: irreflexive and transitive.
pub open spec fn strict_order<A>(before: spec_fn(A, A) -> bool) -> bool {
    &&& forall|x: A| !(#[trigger] before(x, x))
    &&& forall|x: A, y: A, z: A| #![trigger before(x, y), before(y, z)] before(x, y) && before(y, z) ==> before(x, z)
}

/// Every element of `s` comes strictly before the ones after it.
pub open spec fn sorted_by<A>(s: Seq<A>, before: spec_fn(A, A) -> bool) -> bool {
    forall|a: int, b: int| 0 <= a < b < s.len() ==> before(#[trigger] s[a], #[trigger] s[b])
}

/// Two sequences sorted by the same strict order and holding the same
/// elements are the same.
pub proof fn lemma_sorted_by_unique<A>(s1: Seq<A>, s2: Seq<A>, before: spec_fn(A, A) -> bool)
    requires
        strict_order(before),
        sorted_by(s1, before),
        sorted_by(s2, before),
        s1.to_set() == s2.to_set(),
    ensures
        s1 == s2,
    decreases s1.len(),
{
    if s1.len() == 0 {
        if s2.len() > 0 {
            assert(s2.to_set().contains(s2[0]));
        }
        assert(s1 =~= s2);
        return;
    }
    if s2.len() == 0 {
        assert(s1.to_set().contains(s1[0]));
        return;
    }
    let x = s1[0];
    let y = s2[0];
    assert(s1.to_set().contains(x));
    assert(s2.to_set().contains(y));
    if x != y {
        let j = choose|j: int| 0 <= j < s2.len() && s2[j] == x;
        let i = choose|i: int| 0 <= i < s1.len() && s1[i] == y;
        assert(before(s2[0], s2[j]));
        assert(before(s1[0], s1[i]));
        assert(before(x, y) && before(y, x));
        assert(before(x, x));
        assert(false);
    }
    let r1 = s1.drop_first();
    let r2 = s2.drop_first();
    assert(sorted_by(r1, before)) by {
        assert forall|a: int, b: int| 0 <= a < b < r1.len() implies before(#[trigger] r1[a], #[trigger] r1[b]) by {
            assert(r1[a] == s1[a + 1]);
            assert(r1[b] == s1[b + 1]);
        }
    }
    assert(sorted_by(r2, before)) by {
        assert forall|a: int, b: int| 0 <= a < b < r2.len() implies before(#[trigger] r2[a], #[trigger] r2[b]) by {
            assert(r2[a] == s2[a + 1]);
            assert(r2[b] == s2[b + 1]);
        }
    }
    assert(r1.to_set() =~= r2.to_set()) by {
        assert forall|p: A| r1.to_set().contains(p) implies r2.to_set().contains(p) by {
            let i = choose|i: int| 0 <= i < r1.len() && r1[i] == p;
            assert(s1[i + 1] == p);
            assert(before(s1[0], s1[i + 1]));
            assert(s1.to_set().contains(p));
            let j = choose|j: int| 0 <= j < s2.len() && s2[j] == p;
            assert(j != 0);
            assert(r2[j - 1] == p);
        }
        assert forall|p: A| r2.to_set().contains(p) implies r1.to_set().contains(p) by {
            let j = choose|j: int| 0 <= j < r2.len() && r2[j] == p;
            assert(s2[j + 1] == p);
            assert(before(s2[0], s2[j + 1]));
            assert(s2.to_set().contains(p));
            let i = choose|i: int| 0 <= i < s1.len() && s1[i] == p;
            assert(i != 0);
            assert(r1[i - 1] == p);
        }
    }
    lemma_sorted_by_unique(r1, r2, before);
    assert(s1.len() == s2.len());
    assert(s1 =~= s2) by {
        assert forall|k: int| 0 <= k < s1.len() implies s1[k] == s2[k] by {
            if k > 0 {
                assert(s1[k] == r1[k - 1]);
                assert(s2[k] == r2[k - 1]);
            }
        }
    }
}

/// Two different texts are ordered one way or the other.
pub proof fn text_order_is_total(a: Seq<char>, b: Seq<char>)
    ensures
        a != b ==> text_before(a, b) || text_before(b, a),
    decreases a.len(),
{
    if a.len() == 0 && b.len() == 0 {
        assert(a =~= b);
    }
    if a.len() > 0 && b.len() > 0 && (a[0] as u32) == (b[0] as u32) {
        vstd::utf8::char_u32_cast(a[0], a[0] as u32);
        vstd::utf8::char_u32_cast(b[0], a[0] as u32);
        assert(a[0] == b[0]);
        text_order_is_total(a.drop_first(), b.drop_first());
        if a.drop_first() == b.drop_first() {
            assert(a.drop_first().len() == a.len() - 1);
            assert(b.drop_first().len() == b.len() - 1);
            assert(a =~= b) by {
                assert forall|k: int| 0 <= k < a.len() implies a[k] == b[k] by {
                    if k > 0 {
                        assert(a[k] == a.drop_first()[k - 1]);
                        assert(b[k] == b.drop_first()[k - 1]);
                    }
                }
            }
        }
    }
}

/// Absent names sort first, then names in text order.
pub open spec fn name_before(a: Option<Seq<char>>, b: Option<Seq<char>>) -> bool {
    match (a, b) {
        (None, Some(_)) => true,
        (Some(x), Some(y)) => text_before(x, y),
        _ => false,
    }
}

proof fn lemma_name_order(a: Option<Seq<char>>, b: Option<Seq<char>>, c: Option<Seq<char>>)
    ensures
        !name_before(a, a),
        name_before(a, b) && name_before(b, c) ==> name_before(a, c),
        a != b ==> name_before(a, b) || name_before(b, a),
{
    match (a, b, c) {
        (Some(x), Some(y), Some(z)) => {
            text_order_is_strict(x, y, z);
            text_order_is_total(x, y);
        },
        (Some(x), Some(y), None) => {
            text_order_is_strict(x, y, y);
            text_order_is_total(x, y);
        },
        (Some(x), None, _) => {
            text_order_is_strict(x, x, x);
        },
        (None, Some(y), _) => {
            text_order_is_strict(y, y, y);
        },
        _ => {},
    }
}

// ---------------------------------------------------------------------------
// Role names
// ---------------------------------------------------------------------------

/// The plain contents of a role catalog: identities and names.
pub open spec fn names_view(names: Seq<(Thing, String)>) -> Seq<(Thing, Seq<char>)> {
    names.map_values(|e: (Thing, String)| (e.0, e.1@))
}

/// The name of role `r` in a catalog: the last entry for it.
pub open spec fn name_in(names: Seq<(Thing, Seq<char>)>, r: Thing) -> Option<Seq<char>>
    decreases names.len(),
{
    if names.len() == 0 {
        None
    } else if names.last().0 == r {
        Some(names.last().1)
    } else {
        name_in(names.drop_last(), r)
    }
}

/// The name of role `role` in the catalog.
pub fn find_name(names: &Vec<(Thing, String)>, role: Thing) -> (r: Option<&String>)
    ensures
        match name_in(names_view(names@), role) {
            Some(n) => r matches Some(s) && s@ == n,
            None => r is None,
        },
{
    let ghost nv = names_view(names@);
    let mut i = names.len();
    while i > 0
        invariant
            nv == names_view(names@),
            i <= names@.len(),
            name_in(nv, role) == name_in(nv.take(i as int), role),
        decreases i,
    {
        assert(nv.take(i as int).last() == (names@[i - 1].0, names@[i - 1].1@));
        if names[i - 1].0 == role {
            return Some(&names[i - 1].1);
        }
        assert(nv.take(i as int).drop_last() =~= nv.take(i - 1));
        i = i - 1;
    }
    assert(nv.take(0) =~= Seq::<(Thing, Seq<char>)>::empty());
    None
}

/// `e` reports role `r` missing from the catalog.
pub open spec fn unknown_role_error(e: DatabaseError, r: Thing) -> bool {
    e matches DatabaseError::Invariant(m) && m@ == "Terrain references unknown Role "@ + decimal_text(r as nat)
}

/// The error reporting role `role` missing from the catalog.
fn unknown_role(role: Thing) -> (e: DatabaseError)
    ensures
        unknown_role_error(e, role),
{
    let mut m = String::from_str("Terrain references unknown Role ");
    push_decimal(&mut m, role);
    proof {
        reveal_strlit("Terrain references unknown Role ");
    }
    DatabaseError::Invariant(m)
}

// ---------------------------------------------------------------------------
// Projection
// ---------------------------------------------------------------------------

/// What orders projected attribute roles.
pub struct ProjectionKey {
    pub role: Thing,
    pub current: nat,
    pub history: nat,
    pub name: Option<Seq<char>>,
}

/// Most current support first, then most history support, then by name,
/// then by identity.
pub open spec fn projection_before(a: ProjectionKey, b: ProjectionKey) -> bool {
    if a.current != b.current {
        a.current > b.current
    } else if a.history != b.history {
        a.history > b.history
    } else if a.name != b.name {
        name_before(a.name, b.name)
    } else {
        a.role < b.role
    }
}

/// The key of role `r` in the two frames' sets `hs` and `cs`.
pub open spec fn projection_key(
    hs: Seq<Seq<(Thing, Thing)>>,
    cs: Seq<Seq<(Thing, Thing)>>,
    names: Seq<(Thing, Seq<char>)>,
    r: Thing,
) -> ProjectionKey {
    ProjectionKey {
        role: r,
        current: support_of(cs, r, cs.len()),
        history: support_of(hs, r, hs.len()),
        name: name_in(names, r),
    }
}

/// The order of candidate roles.
pub open spec fn role_before(
    hs: Seq<Seq<(Thing, Thing)>>,
    cs: Seq<Seq<(Thing, Thing)>>,
    names: Seq<(Thing, Seq<char>)>,
) -> spec_fn(Thing, Thing) -> bool {
    |a: Thing, b: Thing| projection_before(projection_key(hs, cs, names, a), projection_key(hs, cs, names, b))
}

/// The attribute roles of either frame.
pub open spec fn projection_candidates(hs: Seq<Seq<(Thing, Thing)>>, cs: Seq<Seq<(Thing, Thing)>>) -> Set<Thing> {
    attribute_roles_upto(hs, hs.len() as int).union(attribute_roles_upto(cs, cs.len() as int))
}

/// The candidate roles in projection order.
pub open spec fn projection_order(
    hs: Seq<Seq<(Thing, Thing)>>,
    cs: Seq<Seq<(Thing, Thing)>>,
    names: Seq<(Thing, Seq<char>)>,
) -> Seq<Thing> {
    choose|s: Seq<Thing>| sorted_by(s, role_before(hs, cs, names)) && s.to_set() == projection_candidates(hs, cs)
}

proof fn lemma_projection_order_strict(a: ProjectionKey, b: ProjectionKey, c: ProjectionKey)
    ensures
        !projection_before(a, a),
        projection_before(a, b) && projection_before(b, c) ==> projection_before(a, c),
        a.role != b.role ==> projection_before(a, b) || projection_before(b, a),
{
    lemma_name_order(a.name, b.name, c.name);
    lemma_name_order(a.name, a.name, a.name);
}

proof fn lemma_role_before_strict(
    hs: Seq<Seq<(Thing, Thing)>>,
    cs: Seq<Seq<(Thing, Thing)>>,
    names: Seq<(Thing, Seq<char>)>,
)
    ensures
        strict_order(role_before(hs, cs, names)),
{
    let before = role_before(hs, cs, names);
    assert forall|x: Thing| !(#[trigger] before(x, x)) by {
        let k = projection_key(hs, cs, names, x);
        lemma_projection_order_strict(k, k, k);
    }
    assert forall|x: Thing, y: Thing, z: Thing| #![trigger before(x, y), before(y, z)] before(x, y) && before(y, z) implies before(x, z) by {
        lemma_projection_order_strict(
            projection_key(hs, cs, names, x),
            projection_key(hs, cs, names, y),
            projection_key(hs, cs, names, z),
        );
    }
}

/// A candidate role with what orders it.
struct RankedRole {
    role: Thing,
    current: u64,
    history: u64,
    name: Option<String>,
}

impl RankedRole {
    spec fn key(&self) -> ProjectionKey {
        ProjectionKey {
            role: self.role,
            current: self.current as nat,
            history: self.history as nat,
            name: match self.name {
                Some(n) => Some(n@),
                None => None,
            },
        }
    }
}

spec fn ranked_keys(s: Seq<RankedRole>) -> Seq<ProjectionKey> {
    s.map_values(|r: RankedRole| r.key())
}

spec fn ranked_roles(s: Seq<RankedRole>) -> Seq<Thing> {
    s.map_values(|r: RankedRole| r.role)
}

fn ranked_before(a: &RankedRole, b: &RankedRole) -> (r: bool)
    ensures
        r == projection_before(a.key(), b.key()),
{
    if a.current != b.current {
        return a.current > b.current;
    }
    if a.history != b.history {
        return a.history > b.history;
    }
    let names_differ = match (&a.name, &b.name) {
        (None, None) => false,
        (Some(x), Some(y)) => sorts_before(x.as_str(), y.as_str()) || sorts_before(y.as_str(), x.as_str()),
        _ => true,
    };
    proof {
        match (&a.name, &b.name) {
            (Some(x), Some(y)) => {
                text_order_is_total(x@, y@);
                text_order_is_strict(x@, x@, x@);
            },
            _ => {},
        }
    }
    if names_differ {
        match (&a.name, &b.name) {
            (None, Some(_)) => true,
            (Some(x), Some(y)) => sorts_before(x.as_str(), y.as_str()),
            _ => false,
        }
    } else {
        a.role < b.role
    }
}

/// How many of `n` ordered candidates a report shows under `limit`.
pub open spec fn shown_count(n: nat, limit: usize) -> int {
    if n <= limit {
        n as int
    } else {
        limit as int
    }
}

/// `p` projects the attribute roles of the two frames' sets `hs` and `cs`,
/// at most `limit` of them.
pub open spec fn projection_matches(
    p: TerrainProjection,
    hs: Seq<Seq<(Thing, Thing)>>,
    cs: Seq<Seq<(Thing, Thing)>>,
    nv: Seq<(Thing, Seq<char>)>,
    limit: usize,
) -> bool {
    let order = projection_order(hs, cs, nv);
    let shown = shown_count(order.len(), limit);
    &&& p.complete == (order.len() <= limit)
    &&& p.total_attribute_roles == order.len()
    &&& p.roles@.len() == shown
    &&& forall|i: int|
        0 <= i < shown ==> {
            let key = #[trigger] projection_key(hs, cs, nv, order[i]);
            &&& p.roles@[i].id@ == decimal_text(order[i] as nat)
            &&& key.name == Some(p.roles@[i].name@)
            &&& p.roles@[i].bit == i
            &&& p.roles@[i].history_support == key.history
            &&& p.roles@[i].current_support == key.current
        }
}

/// A role the projection shows has no name in the catalog.
pub open spec fn projection_unnamed(
    hs: Seq<Seq<(Thing, Thing)>>,
    cs: Seq<Seq<(Thing, Thing)>>,
    nv: Seq<(Thing, Seq<char>)>,
    limit: usize,
) -> bool {
    let order = projection_order(hs, cs, nv);
    exists|i: int| 0 <= i < shown_count(order.len(), limit) && name_in(nv, #[trigger] order[i]) is None
}

/// `e` reports the first role the projection shows without a name.
pub open spec fn projection_error(
    e: DatabaseError,
    hs: Seq<Seq<(Thing, Thing)>>,
    cs: Seq<Seq<(Thing, Thing)>>,
    nv: Seq<(Thing, Seq<char>)>,
    limit: usize,
) -> bool {
    let order = projection_order(hs, cs, nv);
    exists|i: int|
        0 <= i < shown_count(order.len(), limit) && name_in(nv, #[trigger] order[i]) is None && unknown_role_error(
            e,
            order[i],
        ) && forall|j: int| 0 <= j < i ==> name_in(nv, #[trigger] order[j]) is Some
}

/// The attribute roles to project, at most `limit` of them, in projection
/// order, with the supports and names that order them; refused where a
/// selected role has no name in the catalog.
pub fn build_projection(
    history: &FrameWork,
    current: &FrameWork,
    names: &Vec<(Thing, String)>,
    limit: usize,
) -> (r: Result<(TerrainProjection, Vec<Thing>), DatabaseError>)
    requires
        limit <= MAX_PROJECTED_ROLE_LIMIT,
    ensures
        ({
            let hs = pair_views(history.sets@);
            let cs = pair_views(current.sets@);
            let nv = names_view(names@);
            let order = projection_order(hs, cs, nv);
            &&& r matches Ok((p, selected)) ==> projection_matches(p, hs, cs, nv, limit) && selected@ == order.take(
                shown_count(order.len(), limit),
            )
            &&& r matches Err(e) ==> projection_error(e, hs, cs, nv, limit)
            &&& projection_unnamed(hs, cs, nv, limit) ==> r is Err
        }),
{
    let ghost hs = pair_views(history.sets@);
    let ghost cs = pair_views(current.sets@);
    let ghost nv = names_view(names@);
    let ghost before = role_before(hs, cs, nv);
    let mut candidates = attribute_roles(history);
    let others = attribute_roles(current);
    let ghost first = candidates@.to_set();
    let mut k: usize = 0;
    while k < others.len()
        invariant
            k <= others@.len(),
            increasing(candidates@),
            candidates@.to_set() == first.union(others@.take(k as int).to_set()),
        decreases others@.len() - k,
    {
        let ghost was = candidates@.to_set();
        insert_sorted(&mut candidates, others[k]);
        assert(others@.take(k + 1) =~= others@.take(k as int).push(others@[k as int]));
        assert(candidates@.to_set() =~= first.union(others@.take(k + 1).to_set()));
        k = k + 1;
    }
    assert(others@.take(others@.len() as int) =~= others@);
    assert(candidates@.to_set() =~= projection_candidates(hs, cs));
    proof {
        lemma_increasing_len(candidates@);
    }
    let mut ranked: Vec<RankedRole> = Vec::new();
    let mut i: usize = 0;
    while i < candidates.len()
        invariant
            i <= candidates@.len(),
            increasing(candidates@),
            hs == pair_views(history.sets@),
            cs == pair_views(current.sets@),
            nv == names_view(names@),
            forall|a: int, b: int| 0 <= a < b < ranked@.len() ==> projection_before(
                #[trigger] ranked@[a].key(),
                #[trigger] ranked@[b].key(),
            ),
            forall|a: int| 0 <= a < ranked@.len() ==> (#[trigger] ranked@[a]).key() == projection_key(
                hs,
                cs,
                nv,
                ranked@[a].role,
            ),
            ranked_roles(ranked@).to_set() == candidates@.take(i as int).to_set(),
            ranked@.len() == i,
        decreases candidates@.len() - i,
    {
        let role = candidates[i];
        let name = match find_name(names, role) {
            Some(n) => Some(n.clone()),
            None => None,
        };
        let entry = RankedRole { role, current: support(current, role), history: support(history, role), name };
        assert(entry.key() == projection_key(hs, cs, nv, role));
        let ghost old_ranked = ranked@;
        proof {
            assert(!ranked_roles(old_ranked).to_set().contains(role)) by {
                if ranked_roles(old_ranked).to_set().contains(role) {
                    let m = choose|m: int| 0 <= m < i && #[trigger] candidates@.take(i as int)[m] == role;
                    assert(candidates@[m] < candidates@[i as int]);
                }
            }
        }
        let mut p: usize = 0;
        while p < ranked.len() && ranked_before(&ranked[p], &entry)
            invariant
                p <= ranked@.len(),
                ranked@ == old_ranked,
                forall|m: int| 0 <= m < p ==> projection_before(#[trigger] ranked@[m].key(), entry.key()),
            decreases ranked@.len() - p,
        {
            p = p + 1;
        }
        proof {
            if p < ranked@.len() {
                assert(ranked_roles(old_ranked)[p as int] == old_ranked[p as int].role);
                assert(ranked_roles(old_ranked).to_set().contains(old_ranked[p as int].role));
                lemma_projection_order_strict(old_ranked[p as int].key(), entry.key(), entry.key());
            }
            assert forall|m: int| p <= m < old_ranked.len() implies projection_before(entry.key(), #[trigger] old_ranked[m].key()) by {
                if m > p {
                    lemma_projection_order_strict(entry.key(), old_ranked[p as int].key(), old_ranked[m].key());
                }
            }
        }
        ranked.insert(p, entry);
        proof {
            assert(ranked@ == old_ranked.insert(p as int, entry));
            assert forall|a: int, b: int| 0 <= a < b < ranked@.len() implies projection_before(
                #[trigger] ranked@[a].key(),
                #[trigger] ranked@[b].key(),
            ) by {
                if a < p && b > p {
                    lemma_projection_order_strict(old_ranked[a].key(), entry.key(), old_ranked[b - 1].key());
                }
            }
            assert(ranked_roles(ranked@) =~= ranked_roles(old_ranked).insert(p as int, role));
            assert(candidates@.take(i + 1) =~= candidates@.take(i as int).push(role));
            assert(ranked_roles(ranked@).to_set() =~= candidates@.take(i + 1).to_set()) by {
                assert forall|x: Thing| ranked_roles(ranked@).to_set().contains(x) implies candidates@.take(i + 1).to_set().contains(x) by {
                    let m = choose|m: int| 0 <= m < ranked_roles(ranked@).len() && ranked_roles(ranked@)[m] == x;
                    if m < p {
                        assert(ranked_roles(old_ranked)[m] == x);
                        assert(ranked_roles(old_ranked).to_set().contains(x));
                    } else if m > p {
                        assert(ranked_roles(old_ranked)[m - 1] == x);
                        assert(ranked_roles(old_ranked).to_set().contains(x));
                    }
                }
                assert forall|x: Thing| candidates@.take(i + 1).to_set().contains(x) implies ranked_roles(ranked@).to_set().contains(x) by {
                    if x == role {
                        assert(ranked_roles(ranked@)[p as int] == role);
                    } else {
                        let m = choose|m: int| 0 <= m < i + 1 && #[trigger] candidates@.take(i + 1)[m] == x;
                        assert(candidates@.take(i as int)[m] == x);
                        assert(ranked_roles(old_ranked).to_set().contains(x));
                        let q = choose|q: int| 0 <= q < old_ranked.len() && ranked_roles(old_ranked)[q] == x;
                        if q < p {
                            assert(ranked_roles(ranked@)[q] == x);
                        } else {
                            assert(ranked_roles(ranked@)[q + 1] == x);
                        }
                    }
                }
            }
        }
        i = i + 1;
    }
    let ghost order = ranked_roles(ranked@);
    proof {
        assert(candidates@.take(candidates@.len() as int) =~= candidates@);
        lemma_role_before_strict(hs, cs, nv);
        assert(sorted_by(order, before)) by {
            assert forall|a: int, b: int| 0 <= a < b < order.len() implies before(#[trigger] order[a], #[trigger] order[b]) by {
                assert(projection_before(ranked@[a].key(), ranked@[b].key()));
            }
        }
        let chosen = projection_order(hs, cs, nv);
        assert(sorted_by(chosen, before) && chosen.to_set() == projection_candidates(hs, cs));
        lemma_sorted_by_unique(order, chosen, before);
    }
    let total = ranked.len();
    let shown = if total <= limit {
        total
    } else {
        limit
    };
    let mut roles: Vec<TerrainProjectedRole> = Vec::new();
    let mut selected: Vec<Thing> = Vec::new();
    let mut b: usize = 0;
    while b < shown
        invariant
            hs == pair_views(history.sets@),
            cs == pair_views(current.sets@),
            nv == names_view(names@),
            total == ranked@.len(),
            shown == (if total <= limit {
                total
            } else {
                limit
            }),
            limit <= MAX_PROJECTED_ROLE_LIMIT,
            order == ranked_roles(ranked@),
            order == projection_order(hs, cs, nv),
            forall|a: int| 0 <= a < ranked@.len() ==> (#[trigger] ranked@[a]).key() == projection_key(
                hs,
                cs,
                nv,
                ranked@[a].role,
            ),
            b <= shown,
            roles@.len() == b,
            selected@ == order.take(b as int),
            forall|j: int| 0 <= j < b ==> name_in(nv, #[trigger] order[j]) is Some,
            forall|j: int|
                0 <= j < b ==> {
                    let key = #[trigger] projection_key(hs, cs, nv, order[j]);
                    &&& roles@[j].id@ == decimal_text(order[j] as nat)
                    &&& key.name == Some(roles@[j].name@)
                    &&& roles@[j].bit == j
                    &&& roles@[j].history_support == key.history
                    &&& roles@[j].current_support == key.current
                },
        decreases shown - b,
    {
        let entry = &ranked[b];
        assert(order[b as int] == entry.role);
        let name = match &entry.name {
            Some(n) => n.clone(),
            None => {
                let e = unknown_role(entry.role);
                proof {
                    assert(ranked@[b as int].key() == projection_key(hs, cs, nv, entry.role));
                    assert(name_in(nv, order[b as int]) is None);
                    assert(0 <= b < shown && name_in(nv, order[b as int]) is None && unknown_role_error(e, order[b as int]));

                }
                return Err(e);
            },
        };
        roles.push(
            TerrainProjectedRole {
                id: role_id(entry.role),
                name,
                bit: b as u8,
                history_support: entry.history,
                current_support: entry.current,
            },
        );
        selected.push(entry.role);
        assert(order.take(b + 1) =~= order.take(b as int).push(entry.role));
        b = b + 1;
    }
    Ok((TerrainProjection { complete: total <= limit, total_attribute_roles: total as u64, roles }, selected))
}

// ---------------------------------------------------------------------------
// Profiles
// ---------------------------------------------------------------------------

/// Bit `b` of a mask is set.
pub open spec fn has_bit(m: u16, b: u16) -> bool {
    (m >> b) & 1u16 == 1u16
}

proof fn lemma_set_bit(m: u16, b: u16, c: u16)
    by (bit_vector)
    requires
        b < 16,
        c < 16,
    ensures
        ((m | (1u16 << b)) >> c) & 1u16 == if c == b {
            1u16
        } else {
            (m >> c) & 1u16
        },
{
}

proof fn lemma_bit_bound(m: u16, b: u16)
    by (bit_vector)
    requires
        b < 8,
        m < (1u16 << b),
    ensures
        (m | (1u16 << b)) < (1u16 << (b + 1)),
        m < (1u16 << (b + 1)),
{
}

proof fn lemma_no_bits(c: u16)
    by (bit_vector)
    ensures
        (0u16 >> c) & 1u16 == 0u16,
{
}

/// `m` is the profile of thing `t`: bit `b` is set exactly where the `b`-th
/// projected role is an attribute of `t` in the frame's sets `s`.
pub open spec fn profile_of(m: u16, s: Seq<Seq<(Thing, Thing)>>, selected: Seq<Thing>, t: Thing) -> bool {
    forall|b: u16| b < 16 ==> (#[trigger] has_bit(m, b) <==> (b < selected.len() && s.contains(seq![(selected[b as int], t)])))
}

/// The mask whose bit `b`, for each `b` below `n`, is set where the
/// `b`-th projected role is an attribute of `t`.
pub open spec fn mask_bits(s: Seq<Seq<(Thing, Thing)>>, selected: Seq<Thing>, t: Thing, n: nat) -> u16
    decreases n,
{
    if n == 0 {
        0u16
    } else if n - 1 < selected.len() && s.contains(seq![(selected[n - 1], t)]) {
        mask_bits(s, selected, t, (n - 1) as nat) | (1u16 << ((n - 1) as u16))
    } else {
        mask_bits(s, selected, t, (n - 1) as nat)
    }
}

/// The profile mask of `thing`.
fn profile_mask(frame: &FrameWork, selected: &Vec<Thing>, thing: Thing) -> (m: u16)
    requires
        selected@.len() <= MAX_PROJECTED_ROLE_LIMIT,
        sets_sorted(pair_views(frame.sets@)),
    ensures
        profile_of(m, pair_views(frame.sets@), selected@, thing),
        m < (1u16 << selected@.len() as u16),
        m == mask_bits(pair_views(frame.sets@), selected@, thing, selected@.len() as nat),
{
    let ghost s = pair_views(frame.sets@);
    let mut mask: u16 = 0;
    let mut bit: usize = 0;
    proof {
        assert(0u16 < (1u16 << 0u16)) by (bit_vector);
        assert forall|c: u16| c < 16 implies (#[trigger] has_bit(mask, c) <==> (c < 0 && s.contains(
            seq![(selected@[c as int], thing)],
        ))) by {
            lemma_no_bits(c);
        }
    }
    while bit < selected.len()
        invariant
            s == pair_views(frame.sets@),
            sets_sorted(s),
            selected@.len() <= MAX_PROJECTED_ROLE_LIMIT,
            bit <= selected@.len(),
            mask < (1u16 << bit as u16),
            mask == mask_bits(s, selected@, thing, bit as nat),
            forall|c: u16| c < 16 ==> (#[trigger] has_bit(mask, c) <==> (c < bit && s.contains(
                seq![(selected@[c as int], thing)],
            ))),
        decreases selected@.len() - bit,
    {
        if has_attribute(frame, selected[bit], thing) {
            let ghost before = mask;
            mask = mask | (1u16 << bit as u16);
            proof {
                lemma_bit_bound(before, bit as u16);
                assert forall|c: u16| c < 16 implies (#[trigger] has_bit(mask, c) <==> (c < bit + 1 && s.contains(
                    seq![(selected@[c as int], thing)],
                ))) by {
                    lemma_set_bit(before, bit as u16, c);
                    if c != bit as u16 {
                        assert(has_bit(before, c) <==> (c < bit && s.contains(seq![(selected@[c as int], thing)])));
                    }
                }
            }
        } else {
            proof {
                lemma_bit_bound(mask, bit as u16);
                assert forall|c: u16| c < 16 implies (#[trigger] has_bit(mask, c) <==> (c < bit + 1 && s.contains(
                    seq![(selected@[c as int], thing)],
                ))) by {
                    if c == bit {
                        assert(has_bit(mask, c) <==> (c < bit && s.contains(seq![(selected@[c as int], thing)])));
                    }
                }
            }
        }
        bit = bit + 1;
    }
    mask
}

/// Gives every endpoint thing of a frame its profile mask.
pub fn assign_profiles(frame: &mut FrameWork, selected: &Vec<Thing>, execution: &TerrainExecution) -> (r: Result<
    (),
    DatabaseError,
>)
    requires
        selected@.len() <= MAX_PROJECTED_ROLE_LIMIT,
        sets_sorted(pair_views(old(frame).sets@)),
    ensures
        final(frame).stats == old(frame).stats,
        final(frame).sets@ == old(frame).sets@,
        final(frame).set_posits@ == old(frame).set_posits@,
        final(frame).endpoint_things@ == old(frame).endpoint_things@,
        r is Ok ==> final(frame).profile_masks@.len() == final(frame).endpoint_things@.len() && forall|k: int|
            0 <= k < final(frame).profile_masks@.len() ==> profile_of(
                #[trigger] final(frame).profile_masks@[k],
                pair_views(final(frame).sets@),
                selected@,
                final(frame).endpoint_things@[k],
            ) && final(frame).profile_masks@[k] < (1u16 << selected@.len() as u16) && final(frame).profile_masks@[k]
                == mask_bits(pair_views(final(frame).sets@), selected@, final(frame).endpoint_things@[k], selected@.len() as nat),
        r matches Err(e) ==> interrupted(e, *execution),
{
    let ghost s = pair_views(frame.sets@);
    let mut masks: Vec<u16> = Vec::new();
    let mut k: usize = 0;
    while k < frame.endpoint_things.len()
        invariant
            s == pair_views(frame.sets@),
            sets_sorted(s),
            selected@.len() <= MAX_PROJECTED_ROLE_LIMIT,
            *frame == *old(frame),
            k <= frame.endpoint_things@.len(),
            masks@.len() == k,
            forall|j: int| 0 <= j < k ==> profile_of(#[trigger] masks@[j], s, selected@, frame.endpoint_things@[j])
                && masks@[j] < (1u16 << selected@.len() as u16) && masks@[j] == mask_bits(
                s,
                selected@,
                frame.endpoint_things@[j],
                selected@.len() as nat,
            ),
        decreases frame.endpoint_things@.len() - k,
    {
        if let Err(e) = execution.checkpoint(k) {
            return Err(e);
        }
        let mask = profile_mask(frame, selected, frame.endpoint_things[k]);
        masks.push(mask);
        k = k + 1;
    }
    frame.profile_masks = masks;
    Ok(())
}

/// How many of the first `n` endpoint things have profile `m`.
pub open spec fn population(masks: Seq<u16>, m: u16, n: nat) -> nat
    decreases n,
{
    if n == 0 || n > masks.len() {
        0
    } else {
        population(masks, m, (n - 1) as nat) + if masks[n - 1] == m {
            1nat
        } else {
            0nat
        }
    }
}

/// How many of the first `n` endpoint things have every role of `m` in
/// their profile.
pub open spec fn superset_count(masks: Seq<u16>, m: u16, n: nat) -> nat
    decreases n,
{
    if n == 0 || n > masks.len() {
        0
    } else {
        superset_count(masks, m, (n - 1) as nat) + if masks[n - 1] & m == m {
            1nat
        } else {
            0nat
        }
    }
}

proof fn lemma_counts_bounded(masks: Seq<u16>, m: u16, n: nat)
    requires
        n <= masks.len(),
    ensures
        population(masks, m, n) <= n,
        superset_count(masks, m, n) <= n,
    decreases n,
{
    if n > 0 {
        lemma_counts_bounded(masks, m, (n - 1) as nat);
    }
}

/// The identities of the first `n` projected roles whose bit in `m` is set
/// (or, where `present` is false, clear), in projection order.
pub open spec fn role_ids_with(selected: Seq<Thing>, m: u16, present: bool, n: nat) -> Seq<Seq<char>>
    decreases n,
{
    if n == 0 || n > selected.len() {
        Seq::empty()
    } else if has_bit(m, (n - 1) as u16) == present {
        role_ids_with(selected, m, present, (n - 1) as nat).push(decimal_text(selected[n - 1] as nat))
    } else {
        role_ids_with(selected, m, present, (n - 1) as nat)
    }
}

/// The texts of strings.
pub open spec fn string_views(v: Seq<String>) -> Seq<Seq<char>> {
    v.map_values(|x: String| x@)
}

/// The number of bits set among the first `n` of `m`.
pub open spec fn ones_upto(m: u16, n: nat) -> nat
    decreases n,
{
    if n == 0 {
        0
    } else {
        ones_upto(m, (n - 1) as nat) + if has_bit(m, (n - 1) as u16) {
            1nat
        } else {
            0nat
        }
    }
}

/// The number of bits set in `m`.
pub open spec fn ones(m: u16) -> nat {
    ones_upto(m, 16)
}

/// Isopleths with fewer roles first, then larger support, then by mask.
pub open spec fn isopleth_before(a: (u16, u64), b: (u16, u64)) -> bool {
    if ones(a.0) != ones(b.0) {
        ones(a.0) < ones(b.0)
    } else if a.1 != b.1 {
        a.1 > b.1
    } else {
        a.0 < b.0
    }
}

/// The fields of a profile of mask `p.mask` over `selected` and the frame's
/// masks.
pub open spec fn profile_fields(p: TerrainProfile, masks: Seq<u16>, selected: Seq<Thing>) -> bool {
    &&& p.id@ == "terrain-v1-profile-"@ + mask_hex(p.mask)
    &&& string_views(p.present_role_ids@) == role_ids_with(selected, p.mask, true, selected.len())
    &&& string_views(p.absent_role_ids@) == role_ids_with(selected, p.mask, false, selected.len())
    &&& p.things == population(masks, p.mask, masks.len())
    &&& (p.isopleth_id is Some <==> p.mask != 0)
    &&& (p.isopleth_id matches Some(i) ==> i@ == "terrain-v1-isopleth-"@ + mask_hex(p.mask))
}

/// The fields of an isopleth of mask `i.mask`.
pub open spec fn isopleth_fields(i: TerrainIsopleth, masks: Seq<u16>, selected: Seq<Thing>) -> bool {
    &&& i.id@ == "terrain-v1-isopleth-"@ + mask_hex(i.mask)
    &&& string_views(i.included_role_ids@) == role_ids_with(selected, i.mask, true, selected.len())
    &&& i.support == superset_count(masks, i.mask, masks.len())
}

/// The number of bits set in `m`.
fn count_ones(m: u16) -> (n: u32)
    ensures
        n == ones(m),
{
    let mut n: u32 = 0;
    let mut b: u16 = 0;
    while b < 16
        invariant
            b <= 16,
            n == ones_upto(m, b as nat),
            n <= b,
        decreases 16 - b,
    {
        if (m >> b) & 1u16 == 1u16 {
            n = n + 1;
        }
        b = b + 1;
    }
    n
}

fn isopleth_sorts_before(a: &TerrainIsopleth, b: &TerrainIsopleth) -> (r: bool)
    ensures
        r == isopleth_before((a.mask, a.support), (b.mask, b.support)),
{
    let oa = count_ones(a.mask);
    let ob = count_ones(b.mask);
    if oa != ob {
        oa < ob
    } else if a.support != b.support {
        a.support > b.support
    } else {
        a.mask < b.mask
    }
}

/// The identities of the projected roles whose bit in `m` is set (or, where
/// `present` is false, clear).
fn role_ids_where(selected: &Vec<Thing>, m: u16, present: bool) -> (ids: Vec<String>)
    requires
        selected@.len() <= MAX_PROJECTED_ROLE_LIMIT,
    ensures
        string_views(ids@) == role_ids_with(selected@, m, present, selected@.len() as nat),
{
    let mut ids: Vec<String> = Vec::new();
    let mut b: usize = 0;
    while b < selected.len()
        invariant
            selected@.len() <= MAX_PROJECTED_ROLE_LIMIT,
            b <= selected@.len(),
            string_views(ids@) == role_ids_with(selected@, m, present, b as nat),
        decreases selected@.len() - b,
    {
        let ghost before = ids@;
        if ((m >> b as u16) & 1u16 == 1u16) == present {
            ids.push(role_id(selected[b]));
            assert(string_views(ids@) =~= string_views(before).push(decimal_text(selected@[b as int] as nat)));
        }
        b = b + 1;
    }
    ids
}

/// The masks of profiles.
pub open spec fn profile_masks_of(p: Seq<TerrainProfile>) -> Seq<u16> {
    p.map_values(|x: TerrainProfile| x.mask)
}

/// The masks of isopleths.
pub open spec fn isopleth_masks_of(i: Seq<TerrainIsopleth>) -> Seq<u16> {
    i.map_values(|x: TerrainIsopleth| x.mask)
}

/// The profiles of a frame, in increasing mask order, and its isopleths,
/// none after one it sorts before by `isopleth_before`.
pub fn frame_profiles(frame: &FrameWork, selected: &Vec<Thing>) -> (r: (Vec<TerrainProfile>, Vec<TerrainIsopleth>))
    requires
        selected@.len() <= MAX_PROJECTED_ROLE_LIMIT,
        forall|k: int| 0 <= k < frame.profile_masks@.len() ==> #[trigger] frame.profile_masks@[k] < (1u16 << selected@.len() as u16),
    ensures
        ({
            let masks = frame.profile_masks@;
            let limit = 1u16 << selected@.len() as u16;
            let (profiles, isopleths) = r;
            &&& forall|a: int, b: int| 0 <= a < b < profiles@.len() ==> #[trigger] profiles@[a].mask < #[trigger] profiles@[b].mask
            &&& forall|m: u16| (m < limit && population(masks, m, masks.len()) > 0) <==> #[trigger] profile_masks_of(profiles@).contains(m)
            &&& forall|k: int| 0 <= k < profiles@.len() ==> profile_fields(#[trigger] profiles@[k], masks, selected@)
            &&& forall|a: int, b: int| 0 <= a < b < isopleths@.len() ==> !isopleth_before(
                (#[trigger] isopleths@[b].mask, isopleths@[b].support),
                (#[trigger] isopleths@[a].mask, isopleths@[a].support),
            )
            &&& forall|m: u16| (0 < m < limit && population(masks, m, masks.len()) > 0) <==> #[trigger] isopleth_masks_of(isopleths@).contains(m)
            &&& forall|k: int| 0 <= k < isopleths@.len() ==> isopleth_fields(#[trigger] isopleths@[k], masks, selected@)
        }),
{
    let ghost masks = frame.profile_masks@;
    let k = selected.len();
    let limit: u16 = 1u16 << k as u16;
    proof {
        assert(k <= 8);
        assert((k as u16) <= 8u16 ==> (1u16 << (k as u16)) <= 256u16) by (bit_vector);
    }
    let count = limit as usize;
    let mut pops: Vec<u64> = Vec::new();
    let mut m: usize = 0;
    while m < count
        invariant
            m <= count,
            pops@.len() == m,
            forall|x: int| 0 <= x < m ==> pops@[x] == 0,
        decreases count - m,
    {
        pops.push(0);
        m = m + 1;
    }
    let mut j: usize = 0;
    while j < frame.profile_masks.len()
        invariant
            masks == frame.profile_masks@,
            count == limit as usize,
            limit <= 256,
            limit == 1u16 << selected@.len() as u16,
            forall|k: int| 0 <= k < masks.len() ==> #[trigger] masks[k] < limit,
            j <= masks.len(),
            pops@.len() == count,
            forall|x: int| 0 <= x < count ==> #[trigger] pops@[x] == population(masks, x as u16, j as nat),
        decreases masks.len() - j,
    {
        let x = frame.profile_masks[j] as usize;
        assert(masks[j as int] < limit);
        proof {
            lemma_counts_bounded(masks, x as u16, j as nat);
        }
        let c = pops[x];
        pops.set(x, c + 1);
        j = j + 1;
    }
    let mut profiles: Vec<TerrainProfile> = Vec::new();
    let mut isopleths: Vec<TerrainIsopleth> = Vec::new();
    let mut m: usize = 0;
    while m < count
        invariant
            masks == frame.profile_masks@,
            selected@.len() <= MAX_PROJECTED_ROLE_LIMIT,
            count == limit as usize,
            limit <= 256,
            limit == 1u16 << selected@.len() as u16,
            m <= count,
            pops@.len() == count,
            forall|x: int| 0 <= x < count ==> #[trigger] pops@[x] == population(masks, x as u16, masks.len()),
            forall|a: int, b: int| 0 <= a < b < profiles@.len() ==> #[trigger] profiles@[a].mask < #[trigger] profiles@[b].mask,
            forall|a: int| 0 <= a < profiles@.len() ==> #[trigger] profiles@[a].mask < m,
            forall|x: u16| (x < m && population(masks, x, masks.len()) > 0) <==> #[trigger] profile_masks_of(profiles@).contains(x),
            forall|a: int| 0 <= a < profiles@.len() ==> profile_fields(#[trigger] profiles@[a], masks, selected@),
            forall|x: u16| (0 < x < m && population(masks, x, masks.len()) > 0) <==> #[trigger] isopleth_masks_of(isopleths@).contains(x),
            forall|a: int| 0 <= a < isopleths@.len() ==> isopleth_fields(#[trigger] isopleths@[a], masks, selected@),
        decreases count - m,
    {
        let ghost old_profiles = profiles@;
        let ghost old_isopleths = isopleths@;
        let mask = m as u16;
        let things = pops[m];
        assert(things == population(masks, mask, masks.len()));
        if things > 0 {
            let present = role_ids_where(selected, mask, true);
            let absent = role_ids_where(selected, mask, false);
            let isopleth = if mask != 0 {
                Some(isopleth_id(mask))
            } else {
                None
            };
            if mask != 0 {
                let mut support: u64 = 0;
                let mut q: usize = 0;
                while q < frame.profile_masks.len()
                    invariant
                        masks == frame.profile_masks@,
                        q <= masks.len(),
                        support == superset_count(masks, mask, q as nat),
                    decreases masks.len() - q,
                {
                    proof {
                        lemma_counts_bounded(masks, mask, q as nat);
                    }
                    if frame.profile_masks[q] & mask == mask {
                        support = support + 1;
                    }
                    q = q + 1;
                }
                let included = role_ids_where(selected, mask, true);
                isopleths.push(TerrainIsopleth { id: isopleth_id(mask), mask, included_role_ids: included, support });
                assert(isopleth_masks_of(isopleths@) =~= isopleth_masks_of(old_isopleths).push(mask));
            } else {
                assert(isopleth_masks_of(isopleths@) =~= isopleth_masks_of(old_isopleths));
            }
            profiles.push(
                TerrainProfile {
                    id: profile_id(mask),
                    mask,
                    present_role_ids: present,
                    absent_role_ids: absent,
                    things,
                    isopleth_id: isopleth,
                },
            );
            assert(profile_masks_of(profiles@) =~= profile_masks_of(old_profiles).push(mask));
        } else {
            assert(profile_masks_of(profiles@) =~= profile_masks_of(old_profiles));
            assert(isopleth_masks_of(isopleths@) =~= isopleth_masks_of(old_isopleths));
        }
        proof {
            assert forall|x: u16| (x < m + 1 && population(masks, x, masks.len()) > 0) <==> #[trigger] profile_masks_of(
                profiles@,
            ).contains(x) by {
                if profile_masks_of(old_profiles).contains(x) {
                    let a = choose|a: int| 0 <= a < old_profiles.len() && profile_masks_of(old_profiles)[a] == x;
                    assert(old_profiles[a].mask < m);
                }
            }
            assert forall|x: u16| (0 < x < m + 1 && population(masks, x, masks.len()) > 0) <==> #[trigger] isopleth_masks_of(
                isopleths@,
            ).contains(x) by {
                if isopleth_masks_of(old_isopleths).contains(x) {
                    assert(0 < x < m && population(masks, x, masks.len()) > 0);
                }
            }
        }
        m = m + 1;
    }
    let ghost unsorted = isopleths@;
    let sorted = sort_isopleths(isopleths);
    proof {
        broadcast use vstd::seq_lib::to_multiset_contains;

        assert forall|x: u16| (0 < x < limit && population(masks, x, masks.len()) > 0) <==> #[trigger] isopleth_masks_of(
            sorted@,
        ).contains(x) by {
            if isopleth_masks_of(unsorted).contains(x) {
                let a = choose|a: int| 0 <= a < unsorted.len() && isopleth_masks_of(unsorted)[a] == x;
                assert(unsorted.contains(unsorted[a]));
                assert(unsorted.to_multiset().count(unsorted[a]) > 0);
                assert(sorted@.contains(unsorted[a]));
                let b = choose|b: int| 0 <= b < sorted@.len() && sorted@[b] == unsorted[a];
                assert(isopleth_masks_of(sorted@)[b] == x);
            }
            if isopleth_masks_of(sorted@).contains(x) {
                let b = choose|b: int| 0 <= b < sorted@.len() && isopleth_masks_of(sorted@)[b] == x;
                assert(sorted@.contains(sorted@[b]));
                assert(sorted@.to_multiset().count(sorted@[b]) > 0);
                assert(unsorted.contains(sorted@[b]));
                let a = choose|a: int| 0 <= a < unsorted.len() && unsorted[a] == sorted@[b];
                assert(isopleth_masks_of(unsorted)[a] == x);
            }
        }
        assert forall|a: int| 0 <= a < sorted@.len() implies isopleth_fields(#[trigger] sorted@[a], masks, selected@) by {
            assert(sorted@.contains(sorted@[a]));
            assert(sorted@.to_multiset().count(sorted@[a]) > 0);
            assert(unsorted.contains(sorted@[a]));
        }
    }
    (profiles, sorted)
}

proof fn lemma_isopleth_order(a: (u16, u64), b: (u16, u64), c: (u16, u64))
    ensures
        !isopleth_before(a, a),
        isopleth_before(a, b) && isopleth_before(b, c) ==> isopleth_before(a, c),
{
}

/// Sorts isopleths so that none comes after one it sorts before by
/// `isopleth_before`.
fn sort_isopleths(items: Vec<TerrainIsopleth>) -> (sorted: Vec<TerrainIsopleth>)
    ensures
        sorted@.to_multiset() == items@.to_multiset(),
        forall|a: int, b: int| 0 <= a < b < sorted@.len() ==> !isopleth_before(
            (#[trigger] sorted@[b].mask, sorted@[b].support),
            (#[trigger] sorted@[a].mask, sorted@[a].support),
        ),
{
    broadcast use vstd::seq_lib::to_multiset_build, vstd::seq_lib::to_multiset_insert;

    let mut pending = items;
    let ghost all = pending@;
    let mut out: Vec<TerrainIsopleth> = Vec::new();
    assert(out@.to_multiset().add(pending@.to_multiset()) =~= all.to_multiset());
    while pending.len() > 0
        invariant
            out@.to_multiset().add(pending@.to_multiset()) == all.to_multiset(),
            forall|a: int, b: int| 0 <= a < b < out@.len() ==> !isopleth_before(
                (#[trigger] out@[b].mask, out@[b].support),
                (#[trigger] out@[a].mask, out@[a].support),
            ),
        decreases pending@.len(),
    {
        let ghost before_pending = pending@;
        let item = pending.pop().unwrap();
        let ghost before = out@;
        let ghost key = (item.mask, item.support);
        let mut p: usize = 0;
        while p < out.len() && !isopleth_sorts_before(&item, &out[p])
            invariant
                p <= out@.len(),
                out@ == before,
                key == (item.mask, item.support),
                forall|k: int| 0 <= k < p ==> !isopleth_before(key, (#[trigger] out@[k].mask, out@[k].support)),
            decreases out@.len() - p,
        {
            p = p + 1;
        }
        out.insert(p, item);
        proof {
            assert(before_pending == pending@.push(item));
            assert(out@ == before.insert(p as int, item));
            let now = out@;
            assert forall|a: int, b: int| 0 <= a < b < now.len() implies !isopleth_before(
                (#[trigger] now[b].mask, now[b].support),
                (#[trigger] now[a].mask, now[a].support),
            ) by {
                if a == p && b > p {
                    let q = (before[p as int].mask, before[p as int].support);
                    let o = (now[b].mask, now[b].support);
                    assert(isopleth_before(key, q));
                    if b - 1 > p {
                        assert(!isopleth_before((before[b - 1].mask, before[b - 1].support), q));
                    }
                    lemma_isopleth_order(o, key, q);
                    lemma_isopleth_order(q, key, q);
                }
            }
            assert(out@.to_multiset().add(pending@.to_multiset()) =~= all.to_multiset());
        }
    }
    assert(pending@.to_multiset() =~= vstd::multiset::Multiset::<TerrainIsopleth>::empty());
    assert(out@.to_multiset() =~= out@.to_multiset().add(pending@.to_multiset()));
    out
}

// ---------------------------------------------------------------------------
// Relationships
// ---------------------------------------------------------------------------

/// The roles of an appearance set, in order.
pub open spec fn roles_of(p: Seq<(Thing, Thing)>) -> Seq<Thing> {
    p.map_values(|x: (Thing, Thing)| x.0)
}

/// An appearance set of the relationship with signature `sig`.
pub open spec fn in_relationship(p: Seq<(Thing, Thing)>, sig: Seq<Thing>) -> bool {
    p.len() >= 2 && roles_of(p) == sig
}

/// How many of the first `n` sets belong to the relationship.
pub open spec fn relationship_sets(s: Seq<Seq<(Thing, Thing)>>, sig: Seq<Thing>, n: nat) -> nat
    decreases n,
{
    if n == 0 || n > s.len() {
        0
    } else {
        relationship_sets(s, sig, (n - 1) as nat) + if in_relationship(s[n - 1], sig) {
            1nat
        } else {
            0nat
        }
    }
}

/// The posits holding the relationship's sets among the first `n`.
pub open spec fn relationship_posits(s: Seq<Seq<(Thing, Thing)>>, posits: Seq<u64>, sig: Seq<Thing>, n: nat) -> nat
    decreases n,
{
    if n == 0 || n > s.len() {
        0
    } else {
        relationship_posits(s, posits, sig, (n - 1) as nat) + if in_relationship(s[n - 1], sig) {
            posits[n - 1] as nat
        } else {
            0nat
        }
    }
}

/// The profile of endpoint thing `t`: the mask at its position.
pub open spec fn mask_of(things: Seq<Thing>, masks: Seq<u16>, t: Thing) -> u16 {
    masks[choose|i: int| 0 <= i < things.len() && things[i] == t]
}

/// The things in the `i`-th role of the relationship's sets among the
/// first `n`.
pub open spec fn role_things(s: Seq<Seq<(Thing, Thing)>>, sig: Seq<Thing>, i: int, n: int) -> Set<Thing> {
    Set::new(|t: Thing| exists|k: int| 0 <= k < n && in_relationship(#[trigger] s[k], sig) && s[k][i].1 == t)
}

/// Those of them whose profile is `m`.
pub open spec fn allocation_things(
    s: Seq<Seq<(Thing, Thing)>>,
    sig: Seq<Thing>,
    things: Seq<Thing>,
    masks: Seq<u16>,
    i: int,
    m: u16,
    n: int,
) -> Set<Thing> {
    Set::new(
        |t: Thing|
            exists|k: int|
                0 <= k < n && in_relationship(#[trigger] s[k], sig) && s[k][i].1 == t && mask_of(things, masks, t) == m,
    )
}

/// How many of the relationship's sets among the first `n` put a thing of
/// profile `m` in the `i`-th role.
pub open spec fn allocation_participations(
    s: Seq<Seq<(Thing, Thing)>>,
    sig: Seq<Thing>,
    things: Seq<Thing>,
    masks: Seq<u16>,
    i: int,
    m: u16,
    n: nat,
) -> nat
    decreases n,
{
    if n == 0 || n > s.len() {
        0
    } else {
        allocation_participations(s, sig, things, masks, i, m, (n - 1) as nat) + if in_relationship(s[n - 1], sig)
            && mask_of(things, masks, s[n - 1][i].1) == m {
            1nat
        } else {
            0nat
        }
    }
}

/// Some set among the first `n` puts a thing of profile `m` in the `i`-th
/// role.
pub open spec fn allocation_present(
    s: Seq<Seq<(Thing, Thing)>>,
    sig: Seq<Thing>,
    things: Seq<Thing>,
    masks: Seq<u16>,
    i: int,
    m: u16,
    n: int,
) -> bool {
    exists|k: int| 0 <= k < n && in_relationship(#[trigger] s[k], sig) && mask_of(things, masks, s[k][i].1) == m
}

/// `(i, m)` comes strictly before `(j, q)`.
pub open spec fn key_before(a: (int, u16), b: (int, u16)) -> bool {
    a.0 < b.0 || (a.0 == b.0 && a.1 < b.1)
}

/// What a frame that a relationship is read from holds.
pub open spec fn readable_frame(frame: FrameWork) -> bool {
    let s = pair_views(frame.sets@);
    &&& sets_sorted(s)
    &&& forall|k: int| 0 <= k < s.len() ==> pairs_ordered(#[trigger] s[k]) && s[k].len() <= MAX_RELATIONSHIP_ARITY
    &&& frame.set_posits@.len() == s.len()
    &&& increasing(frame.endpoint_things@)
    &&& frame.endpoint_things@.to_set() == things_upto(s, s.len() as int)
    &&& frame.profile_masks@.len() == frame.endpoint_things@.len()
}

/// The position of endpoint thing `t`.
fn endpoint_index(things: &Vec<Thing>, t: Thing) -> (i: usize)
    requires
        increasing(things@),
        things@.contains(t),
    ensures
        i < things@.len(),
        things@[i as int] == t,
        (choose|j: int| 0 <= j < things@.len() && things@[j] == t) == i,
{
    let mut lo: usize = 0;
    let mut hi: usize = things.len();
    while lo < hi
        invariant
            increasing(things@),
            things@.contains(t),
            lo <= hi <= things@.len(),
            forall|k: int| 0 <= k < lo ==> #[trigger] things@[k] < t,
            forall|k: int| hi <= k < things@.len() ==> #[trigger] things@[k] > t,
        decreases hi - lo,
    {
        let mid = lo + (hi - lo) / 2;
        if things[mid] < t {
            lo = mid + 1;
        } else if things[mid] > t {
            hi = mid;
        } else {
            proof {
                let j = choose|j: int| 0 <= j < things@.len() && things@[j] == t;
                if j < mid {
                    assert(things@[j] < things@[mid as int]);
                } else if j > mid {
                    assert(things@[mid as int] < things@[j]);
                }
            }
            return mid;
        }
    }
    proof {
        let j = choose|j: int| 0 <= j < things@.len() && things@[j] == t;
        assert(false);
    }
    0
}

/// A copy of a vector of identities.
fn copy_things(v: &Vec<Thing>) -> (c: Vec<Thing>)
    ensures
        c@ == v@,
{
    let mut c: Vec<Thing> = Vec::new();
    let mut i: usize = 0;
    while i < v.len()
        invariant
            i <= v@.len(),
            c@ == v@.take(i as int),
        decreases v@.len() - i,
    {
        c.push(v[i]);
        assert(v@.take(i + 1) =~= v@.take(i as int).push(v@[i as int]));
        i = i + 1;
    }
    assert(v@.take(v@.len() as int) =~= v@);
    c
}

/// The things and participations of one role with one profile.
struct AllocationTally {
    index: usize,
    mask: u16,
    things: Vec<Thing>,
    participations: u64,
}

/// The sets among the first `i` roles count through set `k`, the others
/// up to it.
pub open spec fn done_through(role: int, i: int, k: int) -> int {
    if role < i {
        k + 1
    } else {
        k
    }
}

/// The allocations present among a relationship's sets: `(role index,
/// profile)` pairs.
pub open spec fn allocation_keys(
    s: Seq<Seq<(Thing, Thing)>>,
    sig: Seq<Thing>,
    things: Seq<Thing>,
    masks: Seq<u16>,
    n: int,
) -> Set<(int, u16)> {
    Set::new(|x: (int, u16)| 0 <= x.0 < sig.len() && allocation_present(s, sig, things, masks, x.0, x.1, n))
}

proof fn lemma_relationship_step(
    s: Seq<Seq<(Thing, Thing)>>,
    sig: Seq<Thing>,
    things: Seq<Thing>,
    masks: Seq<u16>,
    k: int,
    i: int,
    m: u16,
)
    requires
        0 <= k < s.len(),
    ensures
        in_relationship(s[k], sig) ==> role_things(s, sig, i, k + 1) == role_things(s, sig, i, k).insert(s[k][i].1),
        !in_relationship(s[k], sig) ==> role_things(s, sig, i, k + 1) == role_things(s, sig, i, k),
        (in_relationship(s[k], sig) && mask_of(things, masks, s[k][i].1) == m) ==> {
            &&& allocation_things(s, sig, things, masks, i, m, k + 1) == allocation_things(
                s,
                sig,
                things,
                masks,
                i,
                m,
                k,
            ).insert(s[k][i].1)
            &&& allocation_present(s, sig, things, masks, i, m, k + 1)
        },
        !(in_relationship(s[k], sig) && mask_of(things, masks, s[k][i].1) == m) ==> {
            &&& allocation_things(s, sig, things, masks, i, m, k + 1) == allocation_things(s, sig, things, masks, i, m, k)
            &&& allocation_present(s, sig, things, masks, i, m, k + 1) == allocation_present(
                s,
                sig,
                things,
                masks,
                i,
                m,
                k,
            )
        },
{
    if in_relationship(s[k], sig) {
        assert(role_things(s, sig, i, k + 1) =~= role_things(s, sig, i, k).insert(s[k][i].1)) by {
            assert forall|t: Thing| role_things(s, sig, i, k + 1).contains(t) implies role_things(s, sig, i, k).insert(
                s[k][i].1,
            ).contains(t) by {
                let j = choose|j: int| 0 <= j < k + 1 && in_relationship(#[trigger] s[j], sig) && s[j][i].1 == t;
                if j < k {
                    assert(role_things(s, sig, i, k).contains(t));
                }
            }
            assert forall|t: Thing| role_things(s, sig, i, k).insert(s[k][i].1).contains(t) implies role_things(
                s,
                sig,
                i,
                k + 1,
            ).contains(t) by {
                if t != s[k][i].1 {
                    let j = choose|j: int| 0 <= j < k && in_relationship(#[trigger] s[j], sig) && s[j][i].1 == t;
                    assert(0 <= j < k + 1);
                }
            }
        }
    } else {
        assert(role_things(s, sig, i, k + 1) =~= role_things(s, sig, i, k)) by {
            assert forall|t: Thing| role_things(s, sig, i, k + 1).contains(t) implies role_things(s, sig, i, k).contains(t) by {
                let j = choose|j: int| 0 <= j < k + 1 && in_relationship(#[trigger] s[j], sig) && s[j][i].1 == t;
            }
            assert forall|t: Thing| role_things(s, sig, i, k).contains(t) implies role_things(s, sig, i, k + 1).contains(t) by {
                let j = choose|j: int| 0 <= j < k && in_relationship(#[trigger] s[j], sig) && s[j][i].1 == t;
                assert(0 <= j < k + 1);
            }
        }
    }
    let hit = in_relationship(s[k], sig) && mask_of(things, masks, s[k][i].1) == m;
    let later = allocation_things(s, sig, things, masks, i, m, k + 1);
    let earlier = allocation_things(s, sig, things, masks, i, m, k);
    assert forall|t: Thing| #[trigger] later.contains(t) implies earlier.contains(t) || (hit && t == s[k][i].1) by {
        let j = choose|j: int|
            0 <= j < k + 1 && in_relationship(#[trigger] s[j], sig) && s[j][i].1 == t && mask_of(things, masks, t) == m;
    }
    assert forall|t: Thing| #[trigger] earlier.contains(t) implies later.contains(t) by {
        let j = choose|j: int|
            0 <= j < k && in_relationship(#[trigger] s[j], sig) && s[j][i].1 == t && mask_of(things, masks, t) == m;
        assert(0 <= j < k + 1);
    }
    if hit {
        assert(later.contains(s[k][i].1));
        assert(later =~= earlier.insert(s[k][i].1));
        assert(allocation_present(s, sig, things, masks, i, m, k + 1));
    } else {
        assert(later =~= earlier);
        if allocation_present(s, sig, things, masks, i, m, k + 1) {
            let j = choose|j: int|
                0 <= j < k + 1 && in_relationship(#[trigger] s[j], sig) && mask_of(things, masks, s[j][i].1) == m;
            assert(j < k);
        }
        if allocation_present(s, sig, things, masks, i, m, k) {
            let j = choose|j: int|
                0 <= j < k && in_relationship(#[trigger] s[j], sig) && mask_of(things, masks, s[j][i].1) == m;
            assert(0 <= j < k + 1);
        }
    }
}

/// The allocation keys of tallies.
spec fn tally_keys(t: Seq<AllocationTally>) -> Seq<(int, u16)> {
    t.map_values(|a: AllocationTally| (a.index as int, a.mask))
}

/// Tallies hold the allocations of a relationship: in key order, each
/// with its things and participations, the roles before `i` counted
/// through set `k` and the others up to it.
spec fn tallies_hold(
    t: Seq<AllocationTally>,
    s: Seq<Seq<(Thing, Thing)>>,
    sig: Seq<Thing>,
    things: Seq<Thing>,
    masks: Seq<u16>,
    i: int,
    k: int,
) -> bool {
    &&& forall|a: int, b: int| 0 <= a < b < t.len() ==> key_before(#[trigger] tally_keys(t)[a], #[trigger] tally_keys(t)[b])
    &&& forall|a: int|
        0 <= a < t.len() ==> {
            let x = #[trigger] t[a];
            let n = done_through(x.index as int, i, k);
            &&& x.index < sig.len()
            &&& increasing(x.things@)
            &&& x.things@.to_set() == allocation_things(s, sig, things, masks, x.index as int, x.mask, n)
            &&& x.participations == allocation_participations(s, sig, things, masks, x.index as int, x.mask, n as nat)
            &&& allocation_present(s, sig, things, masks, x.index as int, x.mask, n)
        }
    &&& forall|r: int, m: u16|
        0 <= r < sig.len() && #[trigger] allocation_present(s, sig, things, masks, r, m, done_through(r, i, k))
            ==> tally_keys(t).contains((r, m))
}

proof fn lemma_participations_bounded(
    s: Seq<Seq<(Thing, Thing)>>,
    sig: Seq<Thing>,
    things: Seq<Thing>,
    masks: Seq<u16>,
    i: int,
    m: u16,
    n: nat,
)
    requires
        n <= s.len(),
    ensures
        allocation_participations(s, sig, things, masks, i, m, n) <= n,
        relationship_sets(s, sig, n) <= n,
    decreases n,
{
    if n > 0 {
        lemma_participations_bounded(s, sig, things, masks, i, m, (n - 1) as nat);
    }
}

proof fn lemma_absent_allocation(
    s: Seq<Seq<(Thing, Thing)>>,
    sig: Seq<Thing>,
    things: Seq<Thing>,
    masks: Seq<u16>,
    i: int,
    m: u16,
    n: nat,
)
    requires
        n <= s.len(),
        !allocation_present(s, sig, things, masks, i, m, n as int),
    ensures
        allocation_participations(s, sig, things, masks, i, m, n) == 0,
        allocation_things(s, sig, things, masks, i, m, n as int) == Set::<Thing>::empty(),
    decreases n,
{
    if n > 0 {
        assert(!allocation_present(s, sig, things, masks, i, m, n - 1)) by {
            if allocation_present(s, sig, things, masks, i, m, n - 1) {
                let j = choose|j: int|
                    0 <= j < n - 1 && in_relationship(#[trigger] s[j], sig) && mask_of(things, masks, s[j][i].1) == m;
                assert(0 <= j < n);
            }
        }
        lemma_absent_allocation(s, sig, things, masks, i, m, (n - 1) as nat);
        if in_relationship(s[n - 1], sig) && mask_of(things, masks, s[n - 1][i].1) == m {
            assert(allocation_present(s, sig, things, masks, i, m, n as int));
        }
    }
    assert(allocation_things(s, sig, things, masks, i, m, n as int) =~= Set::<Thing>::empty()) by {
        assert forall|t: Thing| !allocation_things(s, sig, things, masks, i, m, n as int).contains(t) by {
            if allocation_things(s, sig, things, masks, i, m, n as int).contains(t) {
                let j = choose|j: int|
                    0 <= j < n && in_relationship(#[trigger] s[j], sig) && s[j][i].1 == t && mask_of(things, masks, t) == m;
                assert(allocation_present(s, sig, things, masks, i, m, n as int));
            }
        }
    }
}

/// Tallies one set of a relationship into the role things and the
/// allocations.
fn tally_set(
    frame: &FrameWork,
    sig: &Vec<Thing>,
    k: usize,
    roles: &mut Vec<Vec<Thing>>,
    tallies: &mut Vec<AllocationTally>,
)
    requires
        readable_frame(*frame),
        k < frame.sets@.len(),
        in_relationship(frame.sets@[k as int]@, sig@),
        old(roles)@.len() == sig@.len(),
        forall|r: int|
            0 <= r < sig@.len() ==> increasing(#[trigger] old(roles)@[r]@) && old(roles)@[r]@.to_set() == role_things(
                pair_views(frame.sets@),
                sig@,
                r,
                k as int,
            ),
        tallies_hold(
            old(tallies)@,
            pair_views(frame.sets@),
            sig@,
            frame.endpoint_things@,
            frame.profile_masks@,
            0,
            k as int,
        ),
    ensures
        final(roles)@.len() == sig@.len(),
        forall|r: int|
            0 <= r < sig@.len() ==> increasing(#[trigger] final(roles)@[r]@) && final(roles)@[r]@.to_set() == role_things(
                pair_views(frame.sets@),
                sig@,
                r,
                k + 1,
            ),
        tallies_hold(
            final(tallies)@,
            pair_views(frame.sets@),
            sig@,
            frame.endpoint_things@,
            frame.profile_masks@,
            0,
            k + 1,
        ),
{
    let ghost s = pair_views(frame.sets@);
    let ghost things = frame.endpoint_things@;
    let ghost masks = frame.profile_masks@;
    let pairs = frame.sets[k].as_slice();
    let total_sets = frame.sets.len();
    assert(s[k as int] == pairs@);
    assert(roles_of(pairs@).len() == sig@.len());
    proof {
        assert forall|a: int| 0 <= a < tallies@.len() implies done_through((#[trigger] tallies@[a]).index as int, 0, k as int)
            == k by {}
    }
    let mut i: usize = 0;
    while i < sig.len()
        invariant
            s == pair_views(frame.sets@),
            things == frame.endpoint_things@,
            masks == frame.profile_masks@,
            readable_frame(*frame),
            k < s.len(),
            s.len() == total_sets,
            s[k as int] == pairs@,
            in_relationship(pairs@, sig@),
            i <= sig@.len(),
            roles@.len() == sig@.len(),
            forall|r: int|
                0 <= r < sig@.len() ==> increasing(#[trigger] roles@[r]@) && roles@[r]@.to_set() == role_things(
                    s,
                    sig@,
                    r,
                    done_through(r, i as int, k as int),
                ),
            tallies_hold(tallies@, s, sig@, things, masks, i as int, k as int),
        decreases sig@.len() - i,
    {
        let thing = pairs[i].1;
        proof {
            assert(pair_things(s[k as int]).contains(thing));
            assert(things_upto(s, s.len() as int).contains(thing));
            assert(things.to_set().contains(thing));
        }
        let position = endpoint_index(&frame.endpoint_things, thing);
        let mask = frame.profile_masks[position];
        assert(mask == mask_of(things, masks, thing));
        assert(s[k as int][i as int].1 == thing);
        // the role's things
        let ghost roles_before = roles@;
        let mut entry = roles.remove(i);
        insert_sorted(&mut entry, thing);
        roles.insert(i, entry);
        proof {
            lemma_relationship_step(s, sig@, things, masks, k as int, i as int, mask);
            assert(roles@ =~= roles_before.update(i as int, roles@[i as int]));
            assert forall|r: int|
                0 <= r < sig@.len() implies increasing(#[trigger] roles@[r]@) && roles@[r]@.to_set() == role_things(
                s,
                sig@,
                r,
                done_through(r, i + 1, k as int),
            ) by {
                if r != i {
                    assert(roles@[r] == roles_before[r]);
                }
            }
        }
        add_allocation(tallies, i, mask, thing, Ghost(s), Ghost(sig@), Ghost(things), Ghost(masks), Ghost(k as int));
        i = i + 1;
    }
    proof {
        assert forall|a: int| 0 <= a < tallies@.len() implies done_through((#[trigger] tallies@[a]).index as int, sig@.len() as int, k as int)
            == done_through(tallies@[a].index as int, 0, k + 1) by {}
        assert forall|r: int| 0 <= r < sig@.len() implies done_through(r, sig@.len() as int, k as int) == #[trigger] done_through(r, 0, k + 1) by {}
    }
}

/// Counts one appearance of `thing`, of profile `mask`, in the `i`-th role
/// of relationship set `k`.
#[verifier::rlimit(60)]
#[verifier::spinoff_prover]
fn add_allocation(
    tallies: &mut Vec<AllocationTally>,
    i: usize,
    mask: u16,
    thing: Thing,
    s: Ghost<Seq<Seq<(Thing, Thing)>>>,
    sig: Ghost<Seq<Thing>>,
    things: Ghost<Seq<Thing>>,
    masks: Ghost<Seq<u16>>,
    k: Ghost<int>,
)
    requires
        0 <= k@ < s@.len(),
        s@.len() <= usize::MAX,
        in_relationship(s@[k@], sig@),
        i < sig@.len(),
        s@[k@][i as int].1 == thing,
        mask == mask_of(things@, masks@, thing),
        tallies_hold(old(tallies)@, s@, sig@, things@, masks@, i as int, k@),
    ensures
        tallies_hold(final(tallies)@, s@, sig@, things@, masks@, i + 1, k@),
{
    let ghost s = s@;
    let ghost sig = sig@;
    let ghost things = things@;
    let ghost masks = masks@;
    let ghost k = k@;
    let ghost before = tallies@;
    let ghost keys = tally_keys(before);
    let mut p: usize = 0;
    while p < tallies.len() && (tallies[p].index < i || (tallies[p].index == i && tallies[p].mask < mask))
        invariant
            tallies@ == before,
            keys == tally_keys(before),
            p <= before.len(),
            forall|a: int| 0 <= a < p ==> key_before(#[trigger] keys[a], (i as int, mask)),
        decreases before.len() - p,
    {
        p = p + 1;
    }
    proof {
        assert forall|a: int| p <= a < before.len() implies !key_before(#[trigger] keys[a], (i as int, mask)) by {
            if a > p {
                assert(key_before(keys[p as int], keys[a]));
            }
        }
    }
    if p < tallies.len() && tallies[p].index == i && tallies[p].mask == mask {
        proof {
            assert(keys[p as int] == (i as int, mask));
            assert(before[p as int].participations == allocation_participations(s, sig, things, masks, i as int, mask, k as nat));
        }
        let old_tally = tallies.remove(p);
        let mut tally_things = old_tally.things;
        insert_sorted(&mut tally_things, thing);
        proof {
            lemma_participations_bounded(s, sig, things, masks, i as int, mask, k as nat);
        }
        let updated = AllocationTally {
            index: i,
            mask,
            things: tally_things,
            participations: old_tally.participations + 1,
        };
        tallies.insert(p, updated);
        proof {
            assert(tallies@ =~= before.update(p as int, updated));
            assert(tally_keys(tallies@) =~= keys);
            lemma_relationship_step(s, sig, things, masks, k, i as int, mask);
            assert forall|a: int| 0 <= a < tallies@.len() implies {
                let x = #[trigger] tallies@[a];
                let n = done_through(x.index as int, i + 1, k);
                &&& x.index < sig.len()
                &&& increasing(x.things@)
                &&& x.things@.to_set() == allocation_things(s, sig, things, masks, x.index as int, x.mask, n)
                &&& x.participations == allocation_participations(s, sig, things, masks, x.index as int, x.mask, n as nat)
                &&& allocation_present(s, sig, things, masks, x.index as int, x.mask, n)
            } by {
                if a != p {
                    let x = before[a];
                    assert(tallies@[a] == x);
                    if x.index == i {
                        assert(keys[a] != (i as int, mask));
                        lemma_relationship_step(s, sig, things, masks, k, i as int, x.mask);
                    }
                }
            }
            assert forall|r: int, m: u16|
                0 <= r < sig.len() && #[trigger] allocation_present(s, sig, things, masks, r, m, done_through(r, i + 1, k))
                    implies tally_keys(tallies@).contains((r, m)) by {
                if r == i {
                    lemma_relationship_step(s, sig, things, masks, k, i as int, m);
                    if m == mask {
                        assert(tally_keys(tallies@)[p as int] == (r, m));
                    } else {
                        assert(allocation_present(s, sig, things, masks, r, m, done_through(r, i as int, k)));
                    }
                } else {
                    assert(allocation_present(s, sig, things, masks, r, m, done_through(r, i as int, k)));
                }
            }
        }
    } else {
        proof {
            lemma_relationship_step(s, sig, things, masks, k, i as int, mask);
            if allocation_present(s, sig, things, masks, i as int, mask, k) {
                assert(allocation_present(s, sig, things, masks, i as int, mask, done_through(i as int, i as int, k)));
                assert(keys.contains((i as int, mask)));
                let a = choose|a: int| 0 <= a < keys.len() && keys[a] == (i as int, mask);
                if a < p {
                    assert(key_before(keys[a], (i as int, mask)));
                } else if a > p {
                    assert(key_before(keys[p as int], keys[a]));
                }
            }
            lemma_absent_allocation(s, sig, things, masks, i as int, mask, k as nat);
        }
        let mut fresh: Vec<Thing> = Vec::new();
        fresh.push(thing);
        let created = AllocationTally { index: i, mask, things: fresh, participations: 1 };
        tallies.insert(p, created);
        proof {
            assert(tallies@ =~= before.insert(p as int, created));
            assert(tally_keys(tallies@) =~= keys.insert(p as int, (i as int, mask)));
            assert(created.things@.to_set() =~= Set::<Thing>::empty().insert(thing));
            let now = tally_keys(tallies@);
            assert forall|a: int, b: int| 0 <= a < b < now.len() implies key_before(#[trigger] now[a], #[trigger] now[b]) by {
                if a < p && b > p {
                    assert(key_before(keys[a], (i as int, mask)));
                } else if a == p && b > p {
                } else if a < p && b == p {
                } else if b < p {
                } else {
                    assert(key_before(keys[a - 1], keys[b - 1]));
                }
            }
            assert forall|a: int| 0 <= a < tallies@.len() implies {
                let x = #[trigger] tallies@[a];
                let n = done_through(x.index as int, i + 1, k);
                &&& x.index < sig.len()
                &&& increasing(x.things@)
                &&& x.things@.to_set() == allocation_things(s, sig, things, masks, x.index as int, x.mask, n)
                &&& x.participations == allocation_participations(s, sig, things, masks, x.index as int, x.mask, n as nat)
                &&& allocation_present(s, sig, things, masks, x.index as int, x.mask, n)
            } by {
                if a != p {
                    let x = if a < p {
                        before[a]
                    } else {
                        before[a - 1]
                    };
                    assert(tallies@[a] == x);
                    if x.index == i {
                        assert(x.mask != mask) by {
                            if a < p {
                                assert(key_before(keys[a], (i as int, mask)));
                            } else {
                                assert(!key_before(keys[a - 1], (i as int, mask)));
                                if x.mask == mask {
                                    assert(keys[a - 1] == (i as int, mask));
                                }
                            }
                        }
                        lemma_relationship_step(s, sig, things, masks, k, i as int, x.mask);
                    }
                }
            }
            assert forall|r: int, m: u16|
                0 <= r < sig.len() && #[trigger] allocation_present(s, sig, things, masks, r, m, done_through(r, i + 1, k))
                    implies tally_keys(tallies@).contains((r, m)) by {
                if r == i && m == mask {
                    assert(now[p as int] == (r, m));
                } else {
                    if r == i {
                        lemma_relationship_step(s, sig, things, masks, k, i as int, m);
                    }
                    assert(allocation_present(s, sig, things, masks, r, m, done_through(r, i as int, k)));
                    assert(keys.contains((r, m)));
                    let a = choose|a: int| 0 <= a < keys.len() && keys[a] == (r, m);
                    if a < p {
                        assert(now[a] == (r, m));
                    } else {
                        assert(now[a + 1] == (r, m));
                    }
                }
            }
        }
    }
}

/// The fields of allocation `a` of the `i`-th role.
pub open spec fn allocation_fields(
    a: TerrainAllocation,
    i: int,
    s: Seq<Seq<(Thing, Thing)>>,
    sig: Seq<Thing>,
    things: Seq<Thing>,
    masks: Seq<u16>,
    n: int,
) -> bool {
    let m = a.profile_mask;
    &&& a.id@ == "terrain-v1-allocation-"@ + joined_identities(sig) + "-"@ + decimal_text(sig[i] as nat) + "-"@
        + mask_hex(m)
    &&& a.role_id@ == decimal_text(sig[i] as nat)
    &&& a.profile_id@ == "terrain-v1-profile-"@ + mask_hex(m)
    &&& (a.isopleth_id is Some <==> m != 0)
    &&& (a.isopleth_id matches Some(x) ==> x@ == "terrain-v1-isopleth-"@ + mask_hex(m))
    &&& allocation_things(s, sig, things, masks, i, m, n).finite()
    &&& a.distinct_things == allocation_things(s, sig, things, masks, i, m, n).len()
    &&& a.participations == allocation_participations(s, sig, things, masks, i, m, n as nat)
    &&& allocation_present(s, sig, things, masks, i, m, n)
}

/// `allocs` are the allocations of a relationship, `idx` naming the role
/// index of each: in order of role, then profile, and all of them.
pub open spec fn allocations_indexed(
    allocs: Seq<TerrainAllocation>,
    idx: Seq<int>,
    s: Seq<Seq<(Thing, Thing)>>,
    sig: Seq<Thing>,
    things: Seq<Thing>,
    masks: Seq<u16>,
    n: int,
) -> bool {
    &&& idx.len() == allocs.len()
    &&& forall|a: int, b: int|
        0 <= a < b < allocs.len() ==> key_before(
            (idx[a], (#[trigger] allocs[a]).profile_mask),
            (idx[b], (#[trigger] allocs[b]).profile_mask),
        )
    &&& forall|a: int|
        0 <= a < allocs.len() ==> 0 <= idx[a] < sig.len() && allocation_fields(
            #[trigger] allocs[a],
            idx[a],
            s,
            sig,
            things,
            masks,
            n,
        )
    &&& forall|r: int, m: u16|
        0 <= r < sig.len() && #[trigger] allocation_present(s, sig, things, masks, r, m, n) ==> exists|a: int|
            0 <= a < allocs.len() && idx[a] == r && (#[trigger] allocs[a]).profile_mask == m
}

/// `rel` is the relationship with signature `sig` in a frame.
pub open spec fn relationship_in(rel: TerrainRelationship, fv: FrameView, sig: Seq<Thing>) -> bool {
    let s = fv.sets;
    let n = s.len();
    let things = fv.things;
    let masks = fv.masks;
    &&& rel.signature_id@ == "terrain-v1-signature-"@ + joined_identities(sig)
    &&& rel.appearance_sets == relationship_sets(s, sig, n)
    &&& rel.posits == relationship_posits(s, fv.set_posits, sig, n)
    &&& rel.role_totals@.len() == sig.len()
    &&& forall|r: int|
        0 <= r < sig.len() ==> {
            let t = #[trigger] rel.role_totals@[r];
            &&& t.role_id@ == decimal_text(sig[r] as nat)
            &&& role_things(s, sig, r, n as int).finite()
            &&& t.distinct_things == role_things(s, sig, r, n as int).len()
            &&& t.participations == relationship_sets(s, sig, n)
        }
    &&& exists|idx: Seq<int>| allocations_indexed(rel.allocations@, idx, s, sig, things, masks, n as int)
}

/// `rel` is the relationship with signature `sig` in `frame`.
pub open spec fn relationship_of(rel: TerrainRelationship, frame: FrameWork, sig: Seq<Thing>) -> bool {
    relationship_in(rel, frame_view(frame), sig)
}

proof fn lemma_keys_sorted_len(keys: Seq<(int, u16)>)
    requires
        forall|a: int, b: int| 0 <= a < b < keys.len() ==> key_before(#[trigger] keys[a], #[trigger] keys[b]),
    ensures
        keys.to_set().len() == keys.len(),
{
    assert(keys.no_duplicates()) by {
        assert forall|a: int, b: int| 0 <= a < keys.len() && 0 <= b < keys.len() && a != b implies keys[a] != keys[b] by {
            if a < b {
                assert(key_before(keys[a], keys[b]));
            } else {
                assert(key_before(keys[b], keys[a]));
            }
        }
    }
    keys.unique_seq_to_set();
}

/// The relationship with signature `sig` in a frame: how many of its sets
/// and posits the frame holds, the distinct things in each role, and how
/// those things are allocated to profiles; the allocations are counted
/// against the report's limit.
pub fn frame_relationship(
    frame: &FrameWork,
    sig: &Vec<Thing>,
    execution: &TerrainExecution,
    allocation_count: &mut u64,
) -> (r: Result<TerrainRelationship, DatabaseError>)
    requires
        readable_frame(*frame),
        sig@.len() <= MAX_RELATIONSHIP_ARITY,
    ensures
        ({
            let s = pair_views(frame.sets@);
            let n = s.len();
            let things = frame.endpoint_things@;
            let masks = frame.profile_masks@;
            let posits = relationship_posits(s, frame.set_posits@, sig@, n);
            let keys = allocation_keys(s, sig@, things, masks, n as int);
            let limit = execution.limits_spec().allocations;
            &&& posits > u64::MAX ==> r == Err::<TerrainRelationship, DatabaseError>(
                limit_error("relationship posits", u64::MAX),
            )
            &&& r matches Ok(rel) ==> {
                &&& keys.finite()
                &&& relationship_of(rel, *frame, sig@)
                &&& *final(allocation_count) == *old(allocation_count) + keys.len()
                &&& *final(allocation_count) <= limit
            }
            &&& r matches Err(e) ==> {
                ||| interrupted(e, *execution)
                ||| (posits > u64::MAX && e == limit_error("relationship posits", u64::MAX))
                ||| (posits <= u64::MAX && *old(allocation_count) + keys.len() > u64::MAX && e == limit_error(
                    "allocations",
                    u64::MAX,
                ))
                ||| (posits <= u64::MAX && *old(allocation_count) + keys.len() <= u64::MAX && *old(allocation_count)
                    + keys.len() > limit && e == limit_error("allocations", limit))
            }
            &&& (posits <= u64::MAX && *old(allocation_count) + keys.len() > limit) ==> r is Err
        }),
{
    let ghost s = pair_views(frame.sets@);
    let ghost things = frame.endpoint_things@;
    let ghost masks = frame.profile_masks@;
    let total_sets = frame.sets.len();
    // posits
    let mut posits: u64 = 0;
    let mut k: usize = 0;
    while k < total_sets
        invariant
            s == pair_views(frame.sets@),
            total_sets == frame.sets@.len(),
            frame.set_posits@.len() == total_sets,
            k <= total_sets,
            posits == relationship_posits(s, frame.set_posits@, sig@, k as nat),
        decreases total_sets - k,
    {
        assert(s[k as int] == frame.sets@[k as int]@);
        if frame.sets[k].len() >= 2 && same_roles(frame.sets[k].as_slice(), sig.as_slice()) {
            match checked_add(posits, frame.set_posits[k], "relationship posits") {
                Ok(sum) => {
                    posits = sum;
                },
                Err(e) => {
                    proof {
                        lemma_relationship_posits_grow(s, frame.set_posits@, sig@, (k + 1) as nat, total_sets as nat);
                    }
                    return Err(e);
                },
            }
        }
        k = k + 1;
    }
    // tallies
    let mut roles: Vec<Vec<Thing>> = Vec::new();
    let mut r: usize = 0;
    while r < sig.len()
        invariant
            r <= sig@.len(),
            roles@.len() == r,
            forall|q: int| 0 <= q < r ==> (#[trigger] roles@[q])@ == Seq::<Thing>::empty(),
        decreases sig@.len() - r,
    {
        roles.push(Vec::new());
        r = r + 1;
    }
    proof {
        assert forall|q: int| 0 <= q < sig@.len() implies increasing(#[trigger] roles@[q]@) && roles@[q]@.to_set()
            == role_things(s, sig@, q, 0) by {
            assert(roles@[q]@.to_set() =~= role_things(s, sig@, q, 0));
        }
    }
    let mut tallies: Vec<AllocationTally> = Vec::new();
    let mut matched: u64 = 0;
    let mut k: usize = 0;
    proof {
        assert(tallies_hold(tallies@, s, sig@, things, masks, 0, 0)) by {
            assert forall|q: int, m: u16|
                0 <= q < sig@.len() && #[trigger] allocation_present(s, sig@, things, masks, q, m, done_through(q, 0, 0))
                    implies tally_keys(tallies@).contains((q, m)) by {
                let j = choose|j: int|
                    0 <= j < 0 && in_relationship(#[trigger] s[j], sig@) && mask_of(things, masks, s[j][q].1) == m;
            }
        }
    }
    while k < total_sets
        invariant
            s == pair_views(frame.sets@),
            things == frame.endpoint_things@,
            masks == frame.profile_masks@,
            readable_frame(*frame),
            total_sets == frame.sets@.len(),
            k <= total_sets,
            roles@.len() == sig@.len(),
            forall|q: int|
                0 <= q < sig@.len() ==> increasing(#[trigger] roles@[q]@) && roles@[q]@.to_set() == role_things(
                    s,
                    sig@,
                    q,
                    k as int,
                ),
            tallies_hold(tallies@, s, sig@, things, masks, 0, k as int),
            matched == relationship_sets(s, sig@, k as nat),
            posits == relationship_posits(s, frame.set_posits@, sig@, total_sets as nat),
        decreases total_sets - k,
    {
        if let Err(e) = execution.checkpoint(k) {
            return Err(e);
        }
        assert(s[k as int] == frame.sets@[k as int]@);
        if frame.sets[k].len() >= 2 && same_roles(frame.sets[k].as_slice(), sig.as_slice()) {
            tally_set(frame, sig, k, &mut roles, &mut tallies);
            proof {
                lemma_participations_bounded(s, sig@, things, masks, 0, 0, k as nat);
            }
            matched = matched + 1;
        } else {
            proof {
                assert forall|q: int|
                    0 <= q < sig@.len() implies increasing(#[trigger] roles@[q]@) && roles@[q]@.to_set() == role_things(
                    s,
                    sig@,
                    q,
                    k + 1,
                ) by {
                    lemma_relationship_step(s, sig@, things, masks, k as int, q, 0);
                }
                assert forall|a: int| 0 <= a < tallies@.len() implies {
                    let x = #[trigger] tallies@[a];
                    let n = done_through(x.index as int, 0, k + 1);
                    &&& x.index < sig@.len()
                    &&& increasing(x.things@)
                    &&& x.things@.to_set() == allocation_things(s, sig@, things, masks, x.index as int, x.mask, n)
                    &&& x.participations == allocation_participations(s, sig@, things, masks, x.index as int, x.mask, n as nat)
                    &&& allocation_present(s, sig@, things, masks, x.index as int, x.mask, n)
                } by {
                    lemma_relationship_step(s, sig@, things, masks, k as int, tallies@[a].index as int, tallies@[a].mask);
                }
                assert forall|q: int, m: u16|
                    0 <= q < sig@.len() && #[trigger] allocation_present(s, sig@, things, masks, q, m, done_through(q, 0, k + 1))
                        implies tally_keys(tallies@).contains((q, m)) by {
                    lemma_relationship_step(s, sig@, things, masks, k as int, q, m);
                    assert(allocation_present(s, sig@, things, masks, q, m, done_through(q, 0, k as int)));
                }
            }
        }
        k = k + 1;
    }
    // the allocation keys
    let ghost keys = allocation_keys(s, sig@, things, masks, s.len() as int);
    proof {
        let tk = tally_keys(tallies@);
        assert(tk.to_set() =~= keys) by {
            assert forall|x: (int, u16)| tk.to_set().contains(x) implies keys.contains(x) by {
                let a = choose|a: int| 0 <= a < tk.len() && tk[a] == x;
                assert(tallies@[a].index < sig@.len());
                assert(allocation_present(s, sig@, things, masks, x.0, x.1, done_through(tallies@[a].index as int, 0, s.len() as int)));
            }
            assert forall|x: (int, u16)| keys.contains(x) implies tk.to_set().contains(x) by {
                assert(allocation_present(s, sig@, things, masks, x.0, x.1, done_through(x.0, 0, s.len() as int)));
            }
        }
        lemma_keys_sorted_len(tk);
    }
    let count = match checked_add(*allocation_count, tallies.len() as u64, "allocations") {
        Ok(c) => c,
        Err(e) => {
            return Err(e);
        },
    };
    *allocation_count = count;
    if count > execution.limits().allocations {
        return Err(crate::error::resource_limit("allocations", execution.limits().allocations));
    }
    // role totals
    let mut role_totals: Vec<TerrainRoleTotal> = Vec::new();
    let mut q: usize = 0;
    while q < sig.len()
        invariant
            s == pair_views(frame.sets@),
            q <= sig@.len(),
            roles@.len() == sig@.len(),
            forall|x: int|
                0 <= x < sig@.len() ==> increasing(#[trigger] roles@[x]@) && roles@[x]@.to_set() == role_things(
                    s,
                    sig@,
                    x,
                    s.len() as int,
                ),
            matched == relationship_sets(s, sig@, s.len()),
            posits == relationship_posits(s, frame.set_posits@, sig@, s.len()),
            role_totals@.len() == q,
            forall|x: int|
                0 <= x < q ==> {
                    let t = #[trigger] role_totals@[x];
                    &&& t.role_id@ == decimal_text(sig@[x] as nat)
                    &&& role_things(s, sig@, x, s.len() as int).finite()
                    &&& t.distinct_things == role_things(s, sig@, x, s.len() as int).len()
                    &&& t.participations == relationship_sets(s, sig@, s.len())
                },
        decreases sig@.len() - q,
    {
        proof {
            lemma_increasing_len(roles@[q as int]@);
        }
        role_totals.push(
            TerrainRoleTotal { role_id: role_id(sig[q]), distinct_things: roles[q].len() as u64, participations: matched },
        );
        q = q + 1;
    }
    // allocations
    let mut allocations: Vec<TerrainAllocation> = Vec::new();
    let mut a: usize = 0;
    let ghost n = s.len() as int;
    while a < tallies.len()
        invariant
            s == pair_views(frame.sets@),
            things == frame.endpoint_things@,
            masks == frame.profile_masks@,
            n == s.len(),
            posits == relationship_posits(s, frame.set_posits@, sig@, s.len()),
            matched == relationship_sets(s, sig@, s.len()),
            tallies_hold(tallies@, s, sig@, things, masks, 0, n),
            a <= tallies@.len(),
            allocations@.len() == a,
            forall|b: int| 0 <= b < a ==> (#[trigger] allocations@[b]).profile_mask == tallies@[b].mask,
            forall|b: int|
                0 <= b < a ==> allocation_fields(
                    #[trigger] allocations@[b],
                    tallies@[b].index as int,
                    s,
                    sig@,
                    things,
                    masks,
                    n,
                ),
        decreases tallies@.len() - a,
    {
        let tally = &tallies[a];
        assert(tallies@[a as int] == *tally);
        assert(done_through(tally.index as int, 0, n) == n);
        proof {
            lemma_increasing_len(tally.things@);
        }
        let role = sig[tally.index];
        let isopleth = if tally.mask != 0 {
            Some(isopleth_id(tally.mask))
        } else {
            None
        };
        allocations.push(
            TerrainAllocation {
                id: allocation_id(sig.as_slice(), role, tally.mask),
                role_id: role_id(role),
                profile_id: profile_id(tally.mask),
                profile_mask: tally.mask,
                isopleth_id: isopleth,
                distinct_things: tally.things.len() as u64,
                participations: tally.participations,
            },
        );
        a = a + 1;
    }
    let ghost idx = tally_keys(tallies@).map_values(|x: (int, u16)| x.0);
    proof {
        let tk = tally_keys(tallies@);
        assert forall|x: int, y: int| 0 <= x < y < allocations@.len() implies key_before(
            (idx[x], (#[trigger] allocations@[x]).profile_mask),
            (idx[y], (#[trigger] allocations@[y]).profile_mask),
        ) by {
            assert(key_before(tk[x], tk[y]));
        }
        assert forall|q: int, m: u16|
            0 <= q < sig@.len() && #[trigger] allocation_present(s, sig@, things, masks, q, m, n) implies exists|b: int|
            0 <= b < allocations@.len() && idx[b] == q && (#[trigger] allocations@[b]).profile_mask == m by {
            assert(done_through(q, 0, n) == n);
            assert(tk.contains((q, m)));
            let b = choose|b: int| 0 <= b < tk.len() && tk[b] == (q, m);
            assert(allocations@[b].profile_mask == m);
        }
        assert(allocations_indexed(allocations@, idx, s, sig@, things, masks, n));
    }
    let id = signature_id(sig.as_slice());
    let rel = TerrainRelationship { signature_id: id, appearance_sets: matched, posits, role_totals, allocations };
    proof {
        assert(rel.allocations@ == allocations@);
        assert(allocations_indexed(rel.allocations@, idx, s, sig@, things, masks, n));
        assert(exists|i: Seq<int>|
            allocations_indexed(
                rel.allocations@,
                i,
                pair_views(frame.sets@),
                sig@,
                frame.endpoint_things@,
                frame.profile_masks@,
                pair_views(frame.sets@).len() as int,
            ));
        let fv = frame_view(*frame);
        assert(fv.sets == s && fv.things == things && fv.masks == masks);
        assert(allocations_indexed(rel.allocations@, idx, fv.sets, sig@, fv.things, fv.masks, fv.sets.len() as int));
        assert(relationship_in(rel, fv, sig@));
    }
    Ok(rel)
}

proof fn lemma_relationship_posits_grow(s: Seq<Seq<(Thing, Thing)>>, posits: Seq<u64>, sig: Seq<Thing>, a: nat, b: nat)
    requires
        a <= b <= s.len(),
    ensures
        relationship_posits(s, posits, sig, a) <= relationship_posits(s, posits, sig, b),
    decreases b - a,
{
    if a < b {
        lemma_relationship_posits_grow(s, posits, sig, a, (b - 1) as nat);
    }
}

/// Whether the roles of an appearance set are those of `sig`.
fn same_roles(pairs: &[(Thing, Thing)], sig: &[Thing]) -> (r: bool)
    ensures
        r == (roles_of(pairs@) == sig@),
{
    if pairs.len() != sig.len() {
        proof {
            assert(roles_of(pairs@).len() != sig@.len());
        }
        return false;
    }
    let mut i: usize = 0;
    while i < pairs.len()
        invariant
            pairs@.len() == sig@.len(),
            i <= pairs@.len(),
            forall|k: int| 0 <= k < i ==> pairs@[k].0 == sig@[k],
        decreases pairs@.len() - i,
    {
        if pairs[i].0 != sig[i] {
            proof {
                assert(roles_of(pairs@)[i as int] != sig@[i as int]);
            }
            return false;
        }
        i = i + 1;
    }
    assert(roles_of(pairs@) =~= sig@);
    true
}

// ---------------------------------------------------------------------------
// Relationship catalog
// ---------------------------------------------------------------------------

/// Lexicographic order of identity sequences, a shorter prefix first.
pub open spec fn things_before(a: Seq<Thing>, b: Seq<Thing>) -> bool
    decreases a.len(),
{
    if b.len() == 0 {
        false
    } else if a.len() == 0 {
        true
    } else if a[0] != b[0] {
        a[0] < b[0]
    } else {
        things_before(a.drop_first(), b.drop_first())
    }
}

/// Lexicographic order of name sequences, a shorter prefix first.
pub open spec fn names_before(a: Seq<Option<Seq<char>>>, b: Seq<Option<Seq<char>>>) -> bool
    decreases a.len(),
{
    if b.len() == 0 {
        false
    } else if a.len() == 0 {
        true
    } else if a[0] != b[0] {
        name_before(a[0], b[0])
    } else {
        names_before(a.drop_first(), b.drop_first())
    }
}

proof fn lemma_things_order(a: Seq<Thing>, b: Seq<Thing>, c: Seq<Thing>)
    ensures
        !things_before(a, a),
        things_before(a, b) && things_before(b, c) ==> things_before(a, c),
        a != b ==> things_before(a, b) || things_before(b, a),
    decreases a.len(),
{
    if a.len() > 0 {
        lemma_things_order(a.drop_first(), a.drop_first(), a.drop_first());
    }
    if a.len() > 0 && b.len() > 0 && c.len() > 0 && a[0] == b[0] && b[0] == c[0] {
        lemma_things_order(a.drop_first(), b.drop_first(), c.drop_first());
    }
    if a.len() == 0 && b.len() == 0 {
        assert(a =~= b);
    }
    if a.len() > 0 && b.len() > 0 && a[0] == b[0] {
        lemma_things_order(a.drop_first(), b.drop_first(), c);
        if a.drop_first() == b.drop_first() {
            assert(a.drop_first().len() == a.len() - 1);
            assert(b.drop_first().len() == b.len() - 1);
            assert(a =~= b) by {
                assert forall|k: int| 0 <= k < a.len() implies a[k] == b[k] by {
                    if k > 0 {
                        assert(a[k] == a.drop_first()[k - 1]);
                        assert(b[k] == b.drop_first()[k - 1]);
                    }
                }
            }
        }
    }
}

proof fn lemma_names_order(a: Seq<Option<Seq<char>>>, b: Seq<Option<Seq<char>>>, c: Seq<Option<Seq<char>>>)
    ensures
        !names_before(a, a),
        names_before(a, b) && names_before(b, c) ==> names_before(a, c),
        a != b ==> names_before(a, b) || names_before(b, a),
    decreases a.len(),
{
    if a.len() > 0 {
        lemma_name_order(a[0], a[0], a[0]);
        lemma_names_order(a.drop_first(), a.drop_first(), a.drop_first());
    }
    if a.len() > 0 && b.len() > 0 && c.len() > 0 {
        lemma_name_order(a[0], b[0], c[0]);
        lemma_name_order(b[0], a[0], c[0]);
        lemma_name_order(a[0], c[0], b[0]);
        if a[0] == b[0] && b[0] == c[0] {
            lemma_names_order(a.drop_first(), b.drop_first(), c.drop_first());
        }
    }
    if a.len() > 0 && b.len() > 0 {
        lemma_name_order(a[0], b[0], b[0]);
    }
    if a.len() == 0 && b.len() == 0 {
        assert(a =~= b);
    }
    if a.len() > 0 && b.len() > 0 && a[0] == b[0] {
        lemma_names_order(a.drop_first(), b.drop_first(), c);
        if a.drop_first() == b.drop_first() {
            assert(a.drop_first().len() == a.len() - 1);
            assert(b.drop_first().len() == b.len() - 1);
            assert(a =~= b) by {
                assert forall|k: int| 0 <= k < a.len() implies a[k] == b[k] by {
                    if k > 0 {
                        assert(a[k] == a.drop_first()[k - 1]);
                        assert(b[k] == b.drop_first()[k - 1]);
                    }
                }
            }
        }
    }
}

/// What orders relationship signatures.
pub struct CatalogKey {
    pub roles: Seq<Thing>,
    pub current: nat,
    pub history: nat,
    pub names: Seq<Option<Seq<char>>>,
}

/// Most sets in the current frame first, then most in history, then wider
/// signatures, then by role names, then by role identities.
pub open spec fn catalog_before(a: CatalogKey, b: CatalogKey) -> bool {
    if a.current != b.current {
        a.current > b.current
    } else if a.history != b.history {
        a.history > b.history
    } else if a.roles.len() != b.roles.len() {
        a.roles.len() > b.roles.len()
    } else if a.names != b.names {
        names_before(a.names, b.names)
    } else {
        things_before(a.roles, b.roles)
    }
}

proof fn lemma_catalog_order(a: CatalogKey, b: CatalogKey, c: CatalogKey)
    ensures
        !catalog_before(a, a),
        catalog_before(a, b) && catalog_before(b, c) ==> catalog_before(a, c),
        a.roles != b.roles ==> catalog_before(a, b) || catalog_before(b, a),
{
    lemma_names_order(a.names, b.names, c.names);
    lemma_names_order(a.names, a.names, a.names);
    lemma_things_order(a.roles, b.roles, c.roles);
    lemma_things_order(a.roles, a.roles, a.roles);
}

/// The names of roles in a catalog.
pub open spec fn names_of(names: Seq<(Thing, Seq<char>)>, roles: Seq<Thing>) -> Seq<Option<Seq<char>>> {
    roles.map_values(|r: Thing| name_in(names, r))
}

/// The key of signature `sig` in the two frames' sets.
pub open spec fn catalog_key(
    hs: Seq<Seq<(Thing, Thing)>>,
    cs: Seq<Seq<(Thing, Thing)>>,
    names: Seq<(Thing, Seq<char>)>,
    sig: Seq<Thing>,
) -> CatalogKey {
    CatalogKey {
        roles: sig,
        current: relationship_sets(cs, sig, cs.len()),
        history: relationship_sets(hs, sig, hs.len()),
        names: names_of(names, sig),
    }
}

/// The order of candidate signatures.
pub open spec fn signature_before(
    hs: Seq<Seq<(Thing, Thing)>>,
    cs: Seq<Seq<(Thing, Thing)>>,
    names: Seq<(Thing, Seq<char>)>,
) -> spec_fn(Seq<Thing>, Seq<Thing>) -> bool {
    |a: Seq<Thing>, b: Seq<Thing>| catalog_before(catalog_key(hs, cs, names, a), catalog_key(hs, cs, names, b))
}

/// The signatures of the relationships of a frame's sets.
pub open spec fn frame_signatures(s: Seq<Seq<(Thing, Thing)>>) -> Set<Seq<Thing>> {
    Set::new(|sig: Seq<Thing>| exists|k: int| 0 <= k < s.len() && in_relationship(#[trigger] s[k], sig))
}

/// The signatures of either frame.
pub open spec fn catalog_candidates(hs: Seq<Seq<(Thing, Thing)>>, cs: Seq<Seq<(Thing, Thing)>>) -> Set<Seq<Thing>> {
    frame_signatures(hs).union(frame_signatures(cs))
}

/// The candidate signatures in catalog order.
pub open spec fn catalog_order(
    hs: Seq<Seq<(Thing, Thing)>>,
    cs: Seq<Seq<(Thing, Thing)>>,
    names: Seq<(Thing, Seq<char>)>,
) -> Seq<Seq<Thing>> {
    choose|s: Seq<Seq<Thing>>| sorted_by(s, signature_before(hs, cs, names)) && s.to_set() == catalog_candidates(hs, cs)
}

/// A candidate signature with what orders it.
struct RankedSignature {
    roles: Vec<Thing>,
    current: u64,
    history: u64,
    names: Vec<Option<String>>,
}

spec fn option_texts(v: Seq<Option<String>>) -> Seq<Option<Seq<char>>> {
    v.map_values(
        |o: Option<String>|
            match o {
                Some(n) => Some(n@),
                None => None,
            },
    )
}

impl RankedSignature {
    spec fn key(&self) -> CatalogKey {
        CatalogKey {
            roles: self.roles@,
            current: self.current as nat,
            history: self.history as nat,
            names: option_texts(self.names@),
        }
    }
}

spec fn ranked_signatures(s: Seq<RankedSignature>) -> Seq<Seq<Thing>> {
    s.map_values(|r: RankedSignature| r.roles@)
}

fn things_sort_before(a: &[Thing], b: &[Thing]) -> (r: bool)
    ensures
        r == things_before(a@, b@),
{
    let mut k: usize = 0;
    while k < a.len() && k < b.len()
        invariant
            k <= a@.len(),
            k <= b@.len(),
            things_before(a@, b@) == things_before(a@.skip(k as int), b@.skip(k as int)),
        decreases a@.len() - k,
    {
        if a[k] != b[k] {
            return a[k] < b[k];
        }
        assert(a@.skip(k as int).drop_first() =~= a@.skip(k + 1));
        assert(b@.skip(k as int).drop_first() =~= b@.skip(k + 1));
        k = k + 1;
    }
    k == a.len() && k < b.len()
}

fn same_name(a: &Option<String>, b: &Option<String>) -> (r: bool)
    ensures
        r == (option_texts(seq![*a])[0] == option_texts(seq![*b])[0]),
{
    match (a, b) {
        (None, None) => true,
        (Some(x), Some(y)) => {
            let r = !sorts_before(x.as_str(), y.as_str()) && !sorts_before(y.as_str(), x.as_str());
            proof {
                text_order_is_total(x@, y@);
                text_order_is_strict(x@, x@, x@);
            }
            r
        },
        _ => false,
    }
}

fn name_sorts_before(a: &Option<String>, b: &Option<String>) -> (r: bool)
    ensures
        r == name_before(option_texts(seq![*a])[0], option_texts(seq![*b])[0]),
{
    match (a, b) {
        (None, Some(_)) => true,
        (Some(x), Some(y)) => sorts_before(x.as_str(), y.as_str()),
        _ => false,
    }
}

fn names_sort_before(a: &Vec<Option<String>>, b: &Vec<Option<String>>) -> (r: bool)
    ensures
        r == names_before(option_texts(a@), option_texts(b@)),
{
    let ghost av = option_texts(a@);
    let ghost bv = option_texts(b@);
    let mut k: usize = 0;
    while k < a.len() && k < b.len()
        invariant
            av == option_texts(a@),
            bv == option_texts(b@),
            k <= a@.len(),
            k <= b@.len(),
            names_before(av, bv) == names_before(av.skip(k as int), bv.skip(k as int)),
        decreases a@.len() - k,
    {
        assert(option_texts(seq![a@[k as int]])[0] == av[k as int]);
        assert(option_texts(seq![b@[k as int]])[0] == bv[k as int]);
        if !same_name(&a[k], &b[k]) {
            return name_sorts_before(&a[k], &b[k]);
        }
        assert(av.skip(k as int).drop_first() =~= av.skip(k + 1));
        assert(bv.skip(k as int).drop_first() =~= bv.skip(k + 1));
        k = k + 1;
    }
    k == a.len() && k < b.len()
}

fn ranked_signature_before(a: &RankedSignature, b: &RankedSignature) -> (r: bool)
    ensures
        r == catalog_before(a.key(), b.key()),
{
    if a.current != b.current {
        return a.current > b.current;
    }
    if a.history != b.history {
        return a.history > b.history;
    }
    if a.roles.len() != b.roles.len() {
        return a.roles.len() > b.roles.len();
    }
    let differ = names_sort_before(&a.names, &b.names) || names_sort_before(&b.names, &a.names);
    proof {
        lemma_names_order(option_texts(a.names@), option_texts(b.names@), option_texts(b.names@));
        lemma_names_order(option_texts(a.names@), option_texts(a.names@), option_texts(a.names@));
    }
    if differ {
        names_sort_before(&a.names, &b.names)
    } else {
        things_sort_before(a.roles.as_slice(), b.roles.as_slice())
    }
}

/// The identity sequences of vectors.
pub open spec fn thing_views(v: Seq<Vec<Thing>>) -> Seq<Seq<Thing>> {
    v.map_values(|x: Vec<Thing>| x@)
}

/// The roles of an appearance set.
fn roles_vec(pairs: &[(Thing, Thing)]) -> (v: Vec<Thing>)
    ensures
        v@ == roles_of(pairs@),
{
    let mut v: Vec<Thing> = Vec::new();
    let mut i: usize = 0;
    while i < pairs.len()
        invariant
            i <= pairs@.len(),
            v@ == roles_of(pairs@).take(i as int),
        decreases pairs@.len() - i,
    {
        v.push(pairs[i].0);
        assert(roles_of(pairs@).take(i + 1) =~= roles_of(pairs@).take(i as int).push(pairs@[i as int].0));
        i = i + 1;
    }
    assert(roles_of(pairs@).take(pairs@.len() as int) =~= roles_of(pairs@));
    v
}

/// Whether two identity sequences are equal.
fn same_things(a: &[Thing], b: &[Thing]) -> (r: bool)
    ensures
        r == (a@ == b@),
{
    if a.len() != b.len() {
        return false;
    }
    let mut i: usize = 0;
    while i < a.len()
        invariant
            a@.len() == b@.len(),
            i <= a@.len(),
            forall|k: int| 0 <= k < i ==> a@[k] == b@[k],
        decreases a@.len() - i,
    {
        if a[i] != b[i] {
            return false;
        }
        i = i + 1;
    }
    assert(a@ =~= b@);
    true
}

/// Adds the signatures of a frame's relationships to `acc`, once each.
fn collect_signatures(frame: &FrameWork, acc: &mut Vec<Vec<Thing>>)
    requires
        thing_views(old(acc)@).no_duplicates(),
    ensures
        thing_views(final(acc)@).no_duplicates(),
        thing_views(final(acc)@).to_set() == thing_views(old(acc)@).to_set().union(
            frame_signatures(pair_views(frame.sets@)),
        ),
{
    let ghost s = pair_views(frame.sets@);
    let ghost start = thing_views(acc@).to_set();
    let mut k: usize = 0;
    assert(thing_views(acc@).to_set() =~= start.union(
        Set::new(|sig: Seq<Thing>| exists|j: int| 0 <= j < 0 && in_relationship(#[trigger] s[j], sig)),
    ));
    while k < frame.sets.len()
        invariant
            s == pair_views(frame.sets@),
            k <= s.len(),
            thing_views(acc@).no_duplicates(),
            thing_views(acc@).to_set() == start.union(
                Set::new(|sig: Seq<Thing>| exists|j: int| 0 <= j < k && in_relationship(#[trigger] s[j], sig)),
            ),
        decreases s.len() - k,
    {
        let ghost before = thing_views(acc@);
        assert(s[k as int] == frame.sets@[k as int]@);
        let pairs = frame.sets[k].as_slice();
        if pairs.len() >= 2 {
            let sig = roles_vec(pairs);
            let mut found = false;
            let mut q: usize = 0;
            while q < acc.len()
                invariant
                    before == thing_views(acc@),
                    q <= acc@.len(),
                    found ==> before.contains(sig@),
                    !found ==> forall|x: int| 0 <= x < q ==> before[x] != sig@,
                decreases acc@.len() - q,
            {
                if same_things(acc[q].as_slice(), sig.as_slice()) {
                    found = true;
                    assert(before[q as int] == sig@);
                }
                q = q + 1;
            }
            if !found {
                acc.push(sig);
                proof {
                    assert(thing_views(acc@) =~= before.push(sig@));
                    assert(!before.contains(sig@));
                }
            }
        }
        proof {
            let next = Set::new(|sig: Seq<Thing>| exists|j: int| 0 <= j < k + 1 && in_relationship(#[trigger] s[j], sig));
            let prev = Set::new(|sig: Seq<Thing>| exists|j: int| 0 <= j < k && in_relationship(#[trigger] s[j], sig));
            let added = if s[k as int].len() >= 2 {
                Set::<Seq<Thing>>::empty().insert(roles_of(s[k as int]))
            } else {
                Set::<Seq<Thing>>::empty()
            };
            assert(next =~= prev.union(added)) by {
                assert forall|x: Seq<Thing>| #[trigger] next.contains(x) implies prev.union(added).contains(x) by {
                    let j = choose|j: int| 0 <= j < k + 1 && in_relationship(#[trigger] s[j], x);
                    if j < k {
                        assert(prev.contains(x));
                    }
                }
                assert forall|x: Seq<Thing>| #[trigger] prev.union(added).contains(x) implies next.contains(x) by {
                    if prev.contains(x) {
                        let j = choose|j: int| 0 <= j < k && in_relationship(#[trigger] s[j], x);
                        assert(0 <= j < k + 1);
                    } else {
                        assert(in_relationship(s[k as int], x));
                    }
                }
            }
            assert(thing_views(acc@).to_set() =~= before.to_set().union(added));
            assert(thing_views(acc@).to_set() =~= start.union(next));
        }
        k = k + 1;
    }
    assert(Set::new(|sig: Seq<Thing>| exists|j: int| 0 <= j < s.len() && in_relationship(#[trigger] s[j], sig))
        =~= frame_signatures(s));
}

/// The number of a frame's sets in the relationship with signature `sig`.
fn count_sets(frame: &FrameWork, sig: &Vec<Thing>) -> (n: u64)
    ensures
        n == relationship_sets(pair_views(frame.sets@), sig@, frame.sets@.len() as nat),
{
    let ghost s = pair_views(frame.sets@);
    let mut n: u64 = 0;
    let mut k: usize = 0;
    while k < frame.sets.len()
        invariant
            s == pair_views(frame.sets@),
            k <= s.len(),
            n == relationship_sets(s, sig@, k as nat),
        decreases s.len() - k,
    {
        assert(s[k as int] == frame.sets@[k as int]@);
        proof {
            lemma_participations_bounded(s, sig@, Seq::empty(), Seq::empty(), 0, 0, k as nat);
        }
        if frame.sets[k].len() >= 2 && same_roles(frame.sets[k].as_slice(), sig.as_slice()) {
            n = n + 1;
        }
        k = k + 1;
    }
    n
}

/// The names of roles, where the catalog has them.
fn names_for(names: &Vec<(Thing, String)>, roles: &Vec<Thing>) -> (v: Vec<Option<String>>)
    ensures
        option_texts(v@) == names_of(names_view(names@), roles@),
{
    let mut v: Vec<Option<String>> = Vec::new();
    let mut i: usize = 0;
    while i < roles.len()
        invariant
            i <= roles@.len(),
            option_texts(v@) == names_of(names_view(names@), roles@).take(i as int),
        decreases roles@.len() - i,
    {
        let name = match find_name(names, roles[i]) {
            Some(n) => Some(n.clone()),
            None => None,
        };
        let ghost before = v@;
        v.push(name);
        assert(option_texts(v@) =~= option_texts(before).push(name_in(names_view(names@), roles@[i as int])));
        assert(names_of(names_view(names@), roles@).take(i + 1) =~= names_of(names_view(names@), roles@).take(i as int).push(
            name_in(names_view(names@), roles@[i as int]),
        ));
        i = i + 1;
    }
    assert(names_of(names_view(names@), roles@).take(roles@.len() as int) =~= names_of(names_view(names@), roles@));
    v
}

proof fn lemma_signature_before_strict(
    hs: Seq<Seq<(Thing, Thing)>>,
    cs: Seq<Seq<(Thing, Thing)>>,
    names: Seq<(Thing, Seq<char>)>,
)
    ensures
        strict_order(signature_before(hs, cs, names)),
{
    let before = signature_before(hs, cs, names);
    assert forall|x: Seq<Thing>| !(#[trigger] before(x, x)) by {
        let k = catalog_key(hs, cs, names, x);
        lemma_catalog_order(k, k, k);
    }
    assert forall|x: Seq<Thing>, y: Seq<Thing>, z: Seq<Thing>| #![trigger before(x, y), before(y, z)] before(x, y) && before(
        y,
        z,
    ) implies before(x, z) by {
        lemma_catalog_order(catalog_key(hs, cs, names, x), catalog_key(hs, cs, names, y), catalog_key(hs, cs, names, z));
    }
}

/// Every role of the first `i` signatures, and the first `j` roles of the
/// next, has a name in the catalog.
pub open spec fn named_through(order: Seq<Seq<Thing>>, names: Seq<(Thing, Seq<char>)>, i: int, j: int) -> bool {
    &&& forall|a: int, b: int| 0 <= a < i && 0 <= b < order[a].len() ==> name_in(names, #[trigger] order[a][b]) is Some
    &&& forall|b: int| 0 <= b < j ==> name_in(names, #[trigger] order[i][b]) is Some
}

/// `c` catalogs the relationship signatures of the two frames' sets, at
/// most `limit` of them.
pub open spec fn catalog_matches(
    c: TerrainRelationshipCatalog,
    hs: Seq<Seq<(Thing, Thing)>>,
    cs: Seq<Seq<(Thing, Thing)>>,
    nv: Seq<(Thing, Seq<char>)>,
    limit: usize,
) -> bool {
    let order = catalog_order(hs, cs, nv);
    let shown = shown_count(order.len(), limit);
    &&& c.complete == (order.len() <= limit)
    &&& c.total_signatures == order.len()
    &&& c.signatures@.len() == shown
    &&& forall|i: int|
        0 <= i < shown ==> {
            let sig = #[trigger] c.signatures@[i];
            &&& sig.id@ == "terrain-v1-signature-"@ + joined_identities(order[i])
            &&& sig.roles@.len() == order[i].len()
            &&& forall|j: int|
                0 <= j < order[i].len() ==> (#[trigger] sig.roles@[j]).id@ == decimal_text(order[i][j] as nat) && name_in(
                    nv,
                    order[i][j],
                ) == Some(sig.roles@[j].name@)
        }
    &&& (c.default_signature_id is Some <==> shown > 0)
    &&& (c.default_signature_id matches Some(d) ==> d@ == "terrain-v1-signature-"@ + joined_identities(order[0]))
}

/// A role of a signature the catalog shows has no name in the catalog.
pub open spec fn catalog_unnamed(
    hs: Seq<Seq<(Thing, Thing)>>,
    cs: Seq<Seq<(Thing, Thing)>>,
    nv: Seq<(Thing, Seq<char>)>,
    limit: usize,
) -> bool {
    let order = catalog_order(hs, cs, nv);
    exists|i: int, j: int|
        0 <= i < shown_count(order.len(), limit) && 0 <= j < order[i].len() && name_in(nv, #[trigger] order[i][j]) is None
}

/// `e` reports the first role of a shown signature without a name.
pub open spec fn catalog_error(
    e: DatabaseError,
    hs: Seq<Seq<(Thing, Thing)>>,
    cs: Seq<Seq<(Thing, Thing)>>,
    nv: Seq<(Thing, Seq<char>)>,
    limit: usize,
) -> bool {
    let order = catalog_order(hs, cs, nv);
    exists|i: int, j: int|
        0 <= i < shown_count(order.len(), limit) && 0 <= j < order[i].len() && name_in(nv, #[trigger] order[i][j]) is None
            && unknown_role_error(e, order[i][j]) && named_through(order, nv, i, j)
}

/// The relationship signatures to catalog, at most `limit` of them, in
/// catalog order, with their roles' names; refused where a role of a
/// selected signature has no name in the catalog.
pub fn build_catalog(
    history: &FrameWork,
    current: &FrameWork,
    names: &Vec<(Thing, String)>,
    limit: usize,
) -> (r: Result<(TerrainRelationshipCatalog, Vec<Vec<Thing>>), DatabaseError>)
    requires
        limit <= MAX_RELATIONSHIP_SIGNATURES,
    ensures
        ({
            let hs = pair_views(history.sets@);
            let cs = pair_views(current.sets@);
            let nv = names_view(names@);
            let order = catalog_order(hs, cs, nv);
            &&& order.to_set() == catalog_candidates(hs, cs)
            &&& r matches Ok((c, selected)) ==> catalog_matches(c, hs, cs, nv, limit) && thing_views(selected@)
                == order.take(shown_count(order.len(), limit))
            &&& r matches Err(e) ==> catalog_error(e, hs, cs, nv, limit)
            &&& catalog_unnamed(hs, cs, nv, limit) ==> r is Err
        }),
{
    let ghost hs = pair_views(history.sets@);
    let ghost cs = pair_views(current.sets@);
    let ghost nv = names_view(names@);
    let ghost before = signature_before(hs, cs, nv);
    let mut candidates: Vec<Vec<Thing>> = Vec::new();
    collect_signatures(history, &mut candidates);
    collect_signatures(current, &mut candidates);
    let ghost cv = thing_views(candidates@);
    assert(cv.to_set() =~= catalog_candidates(hs, cs));
    let mut ranked: Vec<RankedSignature> = Vec::new();
    let mut i: usize = 0;
    while i < candidates.len()
        invariant
            cv == thing_views(candidates@),
            cv.no_duplicates(),
            i <= cv.len(),
            hs == pair_views(history.sets@),
            cs == pair_views(current.sets@),
            nv == names_view(names@),
            forall|a: int, b: int| 0 <= a < b < ranked@.len() ==> catalog_before(
                #[trigger] ranked@[a].key(),
                #[trigger] ranked@[b].key(),
            ),
            forall|a: int| 0 <= a < ranked@.len() ==> (#[trigger] ranked@[a]).key() == catalog_key(
                hs,
                cs,
                nv,
                ranked@[a].roles@,
            ),
            ranked_signatures(ranked@).to_set() == cv.take(i as int).to_set(),
            ranked@.len() == i,
        decreases cv.len() - i,
    {
        let roles = copy_things(&candidates[i]);
        assert(roles@ == cv[i as int]);
        let names_of_roles = names_for(names, &roles);
        let entry = RankedSignature {
            current: count_sets(current, &roles),
            history: count_sets(history, &roles),
            names: names_of_roles,
            roles,
        };
        assert(entry.key() == catalog_key(hs, cs, nv, cv[i as int]));
        let ghost old_ranked = ranked@;
        proof {
            assert(!ranked_signatures(old_ranked).to_set().contains(cv[i as int])) by {
                if ranked_signatures(old_ranked).to_set().contains(cv[i as int]) {
                    let m = choose|m: int| 0 <= m < i && #[trigger] cv.take(i as int)[m] == cv[i as int];
                    assert(cv[m] == cv[i as int]);
                }
            }
        }
        let mut p: usize = 0;
        while p < ranked.len() && ranked_signature_before(&ranked[p], &entry)
            invariant
                p <= ranked@.len(),
                ranked@ == old_ranked,
                forall|m: int| 0 <= m < p ==> catalog_before(#[trigger] ranked@[m].key(), entry.key()),
            decreases ranked@.len() - p,
        {
            p = p + 1;
        }
        proof {
            if p < ranked@.len() {
                assert(ranked_signatures(old_ranked)[p as int] == old_ranked[p as int].roles@);
                assert(ranked_signatures(old_ranked).to_set().contains(old_ranked[p as int].roles@));
                lemma_catalog_order(old_ranked[p as int].key(), entry.key(), entry.key());
            }
            assert forall|m: int| p <= m < old_ranked.len() implies catalog_before(entry.key(), #[trigger] old_ranked[m].key()) by {
                if m > p {
                    lemma_catalog_order(entry.key(), old_ranked[p as int].key(), old_ranked[m].key());
                }
            }
        }
        let ghost entry_roles = entry.roles@;
        ranked.insert(p, entry);
        proof {
            assert(ranked@ == old_ranked.insert(p as int, entry));
            assert forall|a: int, b: int| 0 <= a < b < ranked@.len() implies catalog_before(
                #[trigger] ranked@[a].key(),
                #[trigger] ranked@[b].key(),
            ) by {
                if a < p && b > p {
                    lemma_catalog_order(old_ranked[a].key(), entry.key(), old_ranked[b - 1].key());
                }
            }
            assert(ranked_signatures(ranked@) =~= ranked_signatures(old_ranked).insert(p as int, entry_roles));
            assert(cv.take(i + 1) =~= cv.take(i as int).push(cv[i as int]));
            assert(ranked_signatures(ranked@).to_set() =~= cv.take(i + 1).to_set()) by {
                assert forall|x: Seq<Thing>| ranked_signatures(ranked@).to_set().contains(x) implies cv.take(i + 1).to_set().contains(x) by {
                    let m = choose|m: int| 0 <= m < ranked_signatures(ranked@).len() && ranked_signatures(ranked@)[m] == x;
                    if m < p {
                        assert(ranked_signatures(old_ranked)[m] == x);
                        assert(ranked_signatures(old_ranked).to_set().contains(x));
                    } else if m > p {
                        assert(ranked_signatures(old_ranked)[m - 1] == x);
                        assert(ranked_signatures(old_ranked).to_set().contains(x));
                    }
                }
                assert forall|x: Seq<Thing>| cv.take(i + 1).to_set().contains(x) implies ranked_signatures(ranked@).to_set().contains(x) by {
                    if x == entry_roles {
                        assert(ranked_signatures(ranked@)[p as int] == x);
                    } else {
                        let m = choose|m: int| 0 <= m < i + 1 && #[trigger] cv.take(i + 1)[m] == x;
                        assert(cv.take(i as int)[m] == x);
                        assert(ranked_signatures(old_ranked).to_set().contains(x));
                        let q = choose|q: int| 0 <= q < old_ranked.len() && ranked_signatures(old_ranked)[q] == x;
                        if q < p {
                            assert(ranked_signatures(ranked@)[q] == x);
                        } else {
                            assert(ranked_signatures(ranked@)[q + 1] == x);
                        }
                    }
                }
            }
        }
        i = i + 1;
    }
    let ghost order = ranked_signatures(ranked@);
    proof {
        assert(cv.take(cv.len() as int) =~= cv);
        lemma_signature_before_strict(hs, cs, nv);
        assert(sorted_by(order, before)) by {
            assert forall|a: int, b: int| 0 <= a < b < order.len() implies before(#[trigger] order[a], #[trigger] order[b]) by {
                assert(catalog_before(ranked@[a].key(), ranked@[b].key()));
            }
        }
        let chosen = catalog_order(hs, cs, nv);
        assert(sorted_by(chosen, before) && chosen.to_set() == catalog_candidates(hs, cs));
        lemma_sorted_by_unique(order, chosen, before);
    }
    let total = ranked.len();
    let shown = if total <= limit {
        total
    } else {
        limit
    };
    let mut signatures: Vec<TerrainRelationshipSignature> = Vec::new();
    let mut selected: Vec<Vec<Thing>> = Vec::new();
    let mut b: usize = 0;
    while b < shown
        invariant
            hs == pair_views(history.sets@),
            cs == pair_views(current.sets@),
            nv == names_view(names@),
            total == ranked@.len(),
            shown == (if total <= limit {
                total
            } else {
                limit
            }),
            order == ranked_signatures(ranked@),
            order == catalog_order(hs, cs, nv),
            order.to_set() == catalog_candidates(hs, cs),
            forall|a: int| 0 <= a < ranked@.len() ==> (#[trigger] ranked@[a]).key() == catalog_key(
                hs,
                cs,
                nv,
                ranked@[a].roles@,
            ),
            b <= shown,
            signatures@.len() == b,
            thing_views(selected@) == order.take(b as int),
            named_through(order, nv, b as int, 0),
            forall|i: int|
                0 <= i < b ==> {
                    let sig = #[trigger] signatures@[i];
                    &&& sig.id@ == "terrain-v1-signature-"@ + joined_identities(order[i])
                    &&& sig.roles@.len() == order[i].len()
                    &&& forall|j: int|
                        0 <= j < order[i].len() ==> (#[trigger] sig.roles@[j]).id@ == decimal_text(order[i][j] as nat)
                            && name_in(nv, order[i][j]) == Some(sig.roles@[j].name@)
                },
        decreases shown - b,
    {
        let entry = &ranked[b];
        assert(order[b as int] == entry.roles@);
        assert(option_texts(entry.names@) == names_of(nv, entry.roles@));
        assert(entry.names@.len() == option_texts(entry.names@).len());
        let mut refs: Vec<TerrainRoleRef> = Vec::new();
        let mut j: usize = 0;
        while j < entry.roles.len()
            invariant
                nv == names_view(names@),
                order[b as int] == entry.roles@,
                option_texts(entry.names@) == names_of(nv, entry.roles@),
                entry.names@.len() == entry.roles@.len(),
                hs == pair_views(history.sets@),
                cs == pair_views(current.sets@),
                order == catalog_order(hs, cs, nv),
                order.to_set() == catalog_candidates(hs, cs),
                total == ranked@.len(),
                shown == (if total <= limit {
                    total
                } else {
                    limit
                }),
                b < shown,
                shown <= ranked@.len(),
                order.len() == ranked@.len(),
                j <= entry.roles@.len(),
                refs@.len() == j,
                named_through(order, nv, b as int, j as int),
                forall|q: int|
                    0 <= q < j ==> (#[trigger] refs@[q]).id@ == decimal_text(order[b as int][q] as nat) && name_in(
                        nv,
                        order[b as int][q],
                    ) == Some(refs@[q].name@),
            decreases entry.roles@.len() - j,
        {
            assert(option_texts(entry.names@)[j as int] == name_in(nv, entry.roles@[j as int]));
            let name = match &entry.names[j] {
                Some(n) => n.clone(),
                None => {
                    let e = unknown_role(entry.roles[j]);
                    proof {
                        assert(name_in(nv, order[b as int][j as int]) is None);
                        assert(unknown_role_error(e, order[b as int][j as int]));
                        assert(exists|i: int, jj: int|
                            0 <= i < shown && 0 <= jj < order[i].len() && name_in(nv, #[trigger] order[i][jj]) is None
                                && unknown_role_error(e, order[i][jj]) && named_through(order, nv, i, jj)) by {
                            assert(0 <= b < shown && 0 <= j < order[b as int].len() && name_in(nv, order[b as int][j as int]) is None
                                && unknown_role_error(e, order[b as int][j as int]) && named_through(order, nv, b as int, j as int));
                        }
                    }
                    return Err(e);
                },
            };
            refs.push(TerrainRoleRef { id: role_id(entry.roles[j]), name });
            j = j + 1;
        }
        signatures.push(TerrainRelationshipSignature { id: signature_id(entry.roles.as_slice()), roles: refs });
        let ghost before_selected = thing_views(selected@);
        selected.push(copy_things(&entry.roles));
        proof {
            assert(thing_views(selected@) =~= before_selected.push(entry.roles@));
            assert(order.take(b + 1) =~= order.take(b as int).push(order[b as int]));
            assert(named_through(order, nv, b + 1, 0)) by {
                assert forall|a: int, c: int| 0 <= a < b + 1 && 0 <= c < order[a].len() implies name_in(
                    nv,
                    #[trigger] order[a][c],
                ) is Some by {
                    if a == b {
                        assert(named_through(order, nv, b as int, entry.roles@.len() as int));
                    }
                }
            }
        }
        b = b + 1;
    }
    let default_signature_id = if shown > 0 {
        Some(signature_id(ranked[0].roles.as_slice()))
    } else {
        None
    };
    proof {
        if shown > 0 {
            assert(order[0] == ranked@[0].roles@);
        }
    }
    Ok(
        (
            TerrainRelationshipCatalog {
                complete: total <= limit,
                total_signatures: total as u64,
                default_signature_id,
                signatures,
            },
            selected,
        ),
    )
}

// ---------------------------------------------------------------------------
// Finished frames
// ---------------------------------------------------------------------------

/// The allocations of the first `n` signatures' relationships in a frame.
pub open spec fn allocation_total(fv: FrameView, sigs: Seq<Seq<Thing>>, n: nat) -> nat
    decreases n,
{
    if n == 0 || n > sigs.len() {
        0
    } else {
        allocation_total(fv, sigs, (n - 1) as nat) + allocation_keys(fv.sets, sigs[n - 1], fv.things, fv.masks, fv.sets.len() as int).len()
    }
}

/// The first limit the relationships of the first `n` signatures pass,
/// counting allocations on from `start`.
pub open spec fn relationship_failure(
    fv: FrameView,
    sigs: Seq<Seq<Thing>>,
    start: nat,
    limit: u64,
    n: nat,
) -> Option<DatabaseError>
    decreases n,
{
    if n == 0 || n > sigs.len() {
        None
    } else {
        match relationship_failure(fv, sigs, start, limit, (n - 1) as nat) {
            Some(e) => Some(e),
            None => {
                let total = start + allocation_total(fv, sigs, n);
                if relationship_posits(fv.sets, fv.set_posits, sigs[n - 1], fv.sets.len()) > u64::MAX {
                    Some(limit_error("relationship posits", u64::MAX))
                } else if total > u64::MAX {
                    Some(limit_error("allocations", u64::MAX))
                } else if total > limit {
                    Some(limit_error("allocations", limit))
                } else {
                    None
                }
            },
        }
    }
}

proof fn lemma_relationship_failure_persists(
    frame: FrameView,
    sigs: Seq<Seq<Thing>>,
    start: nat,
    limit: u64,
    a: nat,
    b: nat,
)
    requires
        a <= b <= sigs.len(),
        relationship_failure(frame, sigs, start, limit, a) is Some,
    ensures
        relationship_failure(frame, sigs, start, limit, b) == relationship_failure(frame, sigs, start, limit, a),
    decreases b - a,
{
    if a < b {
        lemma_relationship_failure_persists(frame, sigs, start, limit, a, (b - 1) as nat);
    }
}

/// The relationships of the given signatures in a frame, in their order;
/// their allocations are counted against the report's limit.
pub fn build_relationships(
    frame: &FrameWork,
    sigs: &Vec<Vec<Thing>>,
    execution: &TerrainExecution,
    allocation_count: &mut u64,
) -> (r: Result<Vec<TerrainRelationship>, DatabaseError>)
    requires
        readable_frame(*frame),
        forall|i: int| 0 <= i < sigs@.len() ==> (#[trigger] sigs@[i])@.len() <= MAX_RELATIONSHIP_ARITY,
    ensures
        ({
            let sv = thing_views(sigs@);
            let limit = execution.limits_spec().allocations;
            let failure = relationship_failure(frame_view(*frame), sv, *old(allocation_count) as nat, limit, sv.len());
            &&& r matches Ok(rels) ==> {
                &&& failure is None
                &&& rels@.len() == sv.len()
                &&& forall|i: int| 0 <= i < sv.len() ==> relationship_of(#[trigger] rels@[i], *frame, sv[i])
                &&& *final(allocation_count) == *old(allocation_count) + allocation_total(frame_view(*frame), sv, sv.len())
            }
            &&& r matches Err(e) ==> interrupted(e, *execution) || failure == Some(e)
            &&& failure is Some ==> r is Err
        }),
{
    let ghost sv = thing_views(sigs@);
    let ghost start = *allocation_count as nat;
    let ghost limit = execution.limits_spec().allocations;
    let mut rels: Vec<TerrainRelationship> = Vec::new();
    let mut i: usize = 0;
    while i < sigs.len()
        invariant
            sv == thing_views(sigs@),
            readable_frame(*frame),
            forall|i: int| 0 <= i < sigs@.len() ==> (#[trigger] sigs@[i])@.len() <= MAX_RELATIONSHIP_ARITY,
            start == *old(allocation_count) as nat,
            limit == execution.limits_spec().allocations,
            i <= sv.len(),
            relationship_failure(frame_view(*frame), sv, start, limit, i as nat) is None,
            *allocation_count == start + allocation_total(frame_view(*frame), sv, i as nat),
            rels@.len() == i,
            forall|k: int| 0 <= k < i ==> relationship_of(#[trigger] rels@[k], *frame, sv[k]),
        decreases sv.len() - i,
    {
        if let Err(e) = execution.checkpoint(i) {
            return Err(e);
        }
        assert(sv[i as int] == sigs@[i as int]@);
        match frame_relationship(frame, &sigs[i], execution, allocation_count) {
            Ok(rel) => {
                rels.push(rel);
            },
            Err(e) => {
                proof {
                    if !interrupted(e, *execution) {
                        lemma_relationship_failure_persists(frame_view(*frame), sv, start, limit, (i + 1) as nat, sv.len());
                    }
                }
                return Err(e);
            },
        }
        i = i + 1;
    }
    Ok(rels)
}

/// `f` reports a frame with contents `fv` and statistics `stats`, over
/// the projected roles `selected` and the cataloged signatures `sigs`.
pub open spec fn frame_report(
    f: TerrainFrame,
    scope: TerrainScope,
    fv: FrameView,
    stats: TerrainFrameStats,
    selected: Seq<Thing>,
    sigs: Seq<Seq<Thing>>,
) -> bool {
    let s = fv.sets;
    let masks = fv.masks;
    let bits = 1u16 << selected.len() as u16;
    &&& f.scope == scope
    &&& f.stats == stats
    &&& f.role_supports@.len() == selected.len()
    &&& forall|b: int|
        0 <= b < selected.len() ==> (#[trigger] f.role_supports@[b]).role_id@ == decimal_text(selected[b] as nat)
            && f.role_supports@[b].distinct_things == support_of(s, selected[b], s.len())
    &&& forall|a: int, b: int| 0 <= a < b < f.profiles@.len() ==> #[trigger] f.profiles@[a].mask < #[trigger] f.profiles@[b].mask
    &&& forall|m: u16| (m < bits && population(masks, m, masks.len()) > 0) <==> #[trigger] profile_masks_of(f.profiles@).contains(m)
    &&& forall|k: int| 0 <= k < f.profiles@.len() ==> profile_fields(#[trigger] f.profiles@[k], masks, selected)
    &&& forall|a: int, b: int| 0 <= a < b < f.isopleths@.len() ==> !isopleth_before(
        (#[trigger] f.isopleths@[b].mask, f.isopleths@[b].support),
        (#[trigger] f.isopleths@[a].mask, f.isopleths@[a].support),
    )
    &&& forall|m: u16| (0 < m < bits && population(masks, m, masks.len()) > 0) <==> #[trigger] isopleth_masks_of(f.isopleths@).contains(m)
    &&& forall|k: int| 0 <= k < f.isopleths@.len() ==> isopleth_fields(#[trigger] f.isopleths@[k], masks, selected)
    &&& f.relationships@.len() == sigs.len()
    &&& forall|i: int| 0 <= i < sigs.len() ==> relationship_in(#[trigger] f.relationships@[i], fv, sigs[i])
}

/// A finished frame: its statistics, the support of each projected role,
/// its profiles and isopleths, and the relationships of the selected
/// signatures.
pub fn finish_frame(
    scope: TerrainScope,
    frame: &FrameWork,
    selected: &Vec<Thing>,
    sigs: &Vec<Vec<Thing>>,
    execution: &TerrainExecution,
    allocation_count: &mut u64,
) -> (r: Result<TerrainFrame, DatabaseError>)
    requires
        readable_frame(*frame),
        selected@.len() <= MAX_PROJECTED_ROLE_LIMIT,
        forall|k: int| 0 <= k < frame.profile_masks@.len() ==> #[trigger] frame.profile_masks@[k] < (1u16 << selected@.len() as u16),
        forall|i: int| 0 <= i < sigs@.len() ==> (#[trigger] sigs@[i])@.len() <= MAX_RELATIONSHIP_ARITY,
    ensures
        ({
            let sv = thing_views(sigs@);
            let limit = execution.limits_spec().allocations;
            let failure = relationship_failure(frame_view(*frame), sv, *old(allocation_count) as nat, limit, sv.len());
            &&& r matches Ok(f) ==> {
                &&& failure is None
                &&& frame_report(f, scope, frame_view(*frame), frame.stats, selected@, sv)
                &&& *final(allocation_count) == *old(allocation_count) + allocation_total(frame_view(*frame), sv, sv.len())
            }
            &&& r matches Err(e) ==> interrupted(e, *execution) || failure == Some(e)
            &&& failure is Some ==> r is Err
        }),
{
    let ghost s = pair_views(frame.sets@);
    let mut role_supports: Vec<TerrainRoleSupport> = Vec::new();
    let mut b: usize = 0;
    while b < selected.len()
        invariant
            s == pair_views(frame.sets@),
            b <= selected@.len(),
            role_supports@.len() == b,
            forall|x: int|
                0 <= x < b ==> (#[trigger] role_supports@[x]).role_id@ == decimal_text(selected@[x] as nat)
                    && role_supports@[x].distinct_things == support_of(s, selected@[x], s.len()),
        decreases selected@.len() - b,
    {
        role_supports.push(TerrainRoleSupport { role_id: role_id(selected[b]), distinct_things: support(frame, selected[b]) });
        b = b + 1;
    }
    let (profiles, isopleths) = frame_profiles(frame, selected);
    let relationships = match build_relationships(frame, sigs, execution, allocation_count) {
        Ok(rels) => rels,
        Err(e) => {
            return Err(e);
        },
    };
    Ok(
        TerrainFrame {
            scope,
            stats: TerrainFrameStats {
                endpoint_things: frame.stats.endpoint_things,
                roles: frame.stats.roles,
                appearance_sets: frame.stats.appearance_sets,
                posits: frame.stats.posits,
                incidences: frame.stats.incidences,
            },
            role_supports,
            profiles,
            isopleths,
            relationships,
        },
    )
}

// ---------------------------------------------------------------------------
// Expected frames
// ---------------------------------------------------------------------------

/// The identities of a set in increasing order.
pub open spec fn sorted_ids(ids: Set<Thing>) -> Seq<Thing> {
    choose|q: Seq<Thing>| increasing(q) && q.to_set() == ids
}

/// The frame the records `rs` make, with profiles over `selected`.
pub open spec fn expected_frame(rs: Seq<CapturedView>, selected: Seq<Thing>) -> FrameView {
    let s = set_sequence(rs);
    let things = sorted_ids(things_upto(s, s.len() as int));
    FrameView {
        sets: s,
        set_posits: Seq::new(s.len(), |k: int| count_with(rs, s[k], rs.len()) as u64),
        things,
        masks: Seq::new(things.len(), |k: int| mask_bits(s, selected, things[k], selected.len())),
    }
}

/// The statistics of the frame the records `rs` make.
pub open spec fn frame_stats(rs: Seq<CapturedView>) -> TerrainFrameStats {
    let s = set_sequence(rs);
    TerrainFrameStats {
        endpoint_things: things_upto(s, s.len() as int).len() as u64,
        roles: roles_upto(s, s.len() as int).len() as u64,
        appearance_sets: s.len() as u64,
        posits: rs.len() as u64,
        incidences: incidence_count(rs, rs.len()) as u64,
    }
}

proof fn lemma_increasing_unique(a: Seq<Thing>, b: Seq<Thing>)
    requires
        increasing(a),
        increasing(b),
        a.to_set() == b.to_set(),
    ensures
        a == b,
{
    let before = |x: Thing, y: Thing| x < y;
    assert(sorted_by(a, before)) by {
        assert forall|i: int, j: int| 0 <= i < j < a.len() implies before(#[trigger] a[i], #[trigger] a[j]) by {
            assert(a[i] < a[j]);
        }
    }
    assert(sorted_by(b, before)) by {
        assert forall|i: int, j: int| 0 <= i < j < b.len() implies before(#[trigger] b[i], #[trigger] b[j]) by {
            assert(b[i] < b[j]);
        }
    }
    lemma_sorted_by_unique(a, b, before);
}

/// A frame's work with its profiles assigned holds the expected frame of
/// its records.
proof fn lemma_expected_frame(w: FrameWork, rs: Seq<CapturedView>, selected: Seq<Thing>)
    requires
        frame_work_of(w, rs),
        w.profile_masks@.len() == w.endpoint_things@.len(),
        forall|k: int|
            0 <= k < w.profile_masks@.len() ==> #[trigger] w.profile_masks@[k] == mask_bits(
                pair_views(w.sets@),
                selected,
                w.endpoint_things@[k],
                selected.len(),
            ),
        rs.len() <= MAX_POSITS_SCANNED,
    ensures
        frame_view(w) == expected_frame(rs, selected),
        w.stats == frame_stats(rs),
{
    let s = set_sequence(rs);
    let e = expected_frame(rs, selected);
    let target = things_upto(s, s.len() as int);
    assert(increasing(e.things) && e.things.to_set() == target) by {
        assert(increasing(w.endpoint_things@) && w.endpoint_things@.to_set() == target);
    }
    lemma_increasing_unique(w.endpoint_things@, e.things);
    assert(w.set_posits@ =~= e.set_posits) by {
        assert forall|k: int| 0 <= k < s.len() implies w.set_posits@[k] == e.set_posits[k] by {
            assert(w.set_posits@[k] == count_with(rs, s[k], rs.len()));
            lemma_count_with(rs, s[k], rs.len());
        }
    }
    assert(w.profile_masks@ =~= e.masks);
    lemma_increasing_len(w.endpoint_things@);
}

// ---------------------------------------------------------------------------
// Aggregation
// ---------------------------------------------------------------------------

/// What a report reads from a database: its totals, its role catalog and
/// its posits in identity order.
pub struct CapturedDatabase {
    pub totals: TerrainDatabaseTotals,
    pub role_names: Vec<(Thing, String)>,
    pub posits: Vec<CapturedPosit>,
}

/// The current posits are history posits: the snapshot at a cutoff keeps
/// no more records than the first `n`, and each is one of them.
pub proof fn current_posits_are_history_posits(rs: Seq<CapturedView>, cutoff: Time, n: nat)
    requires
        n <= rs.len(),
    ensures
        current_upto(rs, cutoff, n).len() <= n,
        forall|j: int|
            0 <= j < current_upto(rs, cutoff, n).len() ==> exists|i: int|
                0 <= i < n && rs[i] == #[trigger] current_upto(rs, cutoff, n)[j],
    decreases n,
{
    if n > 0 {
        current_posits_are_history_posits(rs, cutoff, (n - 1) as nat);
        let prev = current_upto(rs, cutoff, (n - 1) as nat);
        let now = current_upto(rs, cutoff, n);
        assert forall|j: int| 0 <= j < now.len() implies exists|i: int| 0 <= i < n && rs[i] == #[trigger] now[j] by {
            if j < prev.len() {
                assert(now[j] == prev[j]);
                let i = choose|i: int| 0 <= i < n - 1 && rs[i] == #[trigger] prev[j];
                assert(0 <= i < n);
            } else {
                assert(now[j] == rs[n - 1]);
            }
        }
    }
}

proof fn lemma_signature_width(hs: Seq<Seq<(Thing, Thing)>>, cs: Seq<Seq<(Thing, Thing)>>, sig: Seq<Thing>)
    requires
        forall|k: int| 0 <= k < hs.len() ==> (#[trigger] hs[k]).len() <= MAX_RELATIONSHIP_ARITY,
        forall|k: int| 0 <= k < cs.len() ==> (#[trigger] cs[k]).len() <= MAX_RELATIONSHIP_ARITY,
        catalog_candidates(hs, cs).contains(sig),
    ensures
        sig.len() <= MAX_RELATIONSHIP_ARITY,
{
    if frame_signatures(hs).contains(sig) {
        let k = choose|k: int| 0 <= k < hs.len() && in_relationship(#[trigger] hs[k], sig);
        assert(roles_of(hs[k]).len() == hs[k].len());
    } else {
        let k = choose|k: int| 0 <= k < cs.len() && in_relationship(#[trigger] cs[k], sig);
        assert(roles_of(cs[k]).len() == cs[k].len());
    }
}

/// The roles a report projects.
pub open spec fn report_selected(
    hs: Seq<Seq<(Thing, Thing)>>,
    cs: Seq<Seq<(Thing, Thing)>>,
    nv: Seq<(Thing, Seq<char>)>,
    limit: usize,
) -> Seq<Thing> {
    let order = projection_order(hs, cs, nv);
    order.take(shown_count(order.len(), limit))
}

/// The signatures a report catalogs.
pub open spec fn report_signatures(
    hs: Seq<Seq<(Thing, Thing)>>,
    cs: Seq<Seq<(Thing, Thing)>>,
    nv: Seq<(Thing, Seq<char>)>,
    limit: usize,
) -> Seq<Seq<Thing>> {
    let order = catalog_order(hs, cs, nv);
    order.take(shown_count(order.len(), limit))
}

/// `rep` is the report of the captured posits `rv`, with role catalog `nv`
/// and database totals `totals`, at `cutoff`.
pub open spec fn report_of(
    rep: TerrainReport,
    rv: Seq<CapturedView>,
    nv: Seq<(Thing, Seq<char>)>,
    totals: TerrainDatabaseTotals,
    cutoff: Time,
    role_limit: usize,
    signature_limit: usize,
) -> bool {
    let cv = current_of(rv, cutoff);
    let hs = set_sequence(rv);
    let cs = set_sequence(cv);
    let selected = report_selected(hs, cs, nv, role_limit);
    let sigs = report_signatures(hs, cs, nv, signature_limit);
    &&& rep.terrain_version == TERRAIN_VERSION
    &&& rep.resolved_as_of@ == time_token(cutoff)
    &&& rep.database == totals
    &&& projection_matches(rep.projection, hs, cs, nv, role_limit)
    &&& catalog_matches(rep.relationship_catalog, hs, cs, nv, signature_limit)
    &&& frame_report(rep.frames.history, TerrainScope::History, expected_frame(rv, selected), frame_stats(rv), selected, sigs)
    &&& frame_report(rep.frames.current, TerrainScope::Current, expected_frame(cv, selected), frame_stats(cv), selected, sigs)
}

/// Some stage of building the report passes a limit or meets a role
/// missing from the catalog.
pub open spec fn aggregate_fails(
    rv: Seq<CapturedView>,
    nv: Seq<(Thing, Seq<char>)>,
    cutoff: Time,
    limits: TerrainLimits,
    role_limit: usize,
    signature_limit: usize,
) -> bool {
    let cv = current_of(rv, cutoff);
    let hs = set_sequence(rv);
    let cs = set_sequence(cv);
    let selected = report_selected(hs, cs, nv, role_limit);
    let sigs = report_signatures(hs, cs, nv, signature_limit);
    let hf = expected_frame(rv, selected);
    let cf = expected_frame(cv, selected);
    ||| hs.len() > limits.active_appearance_sets
    ||| current_comparisons(rv, cutoff) > limits.temporal_comparisons
    ||| frame_error(rv, limits) is Some
    ||| frame_error(cv, limits) is Some
    ||| projection_unnamed(hs, cs, nv, role_limit)
    ||| catalog_unnamed(hs, cs, nv, signature_limit)
    ||| relationship_failure(hf, sigs, 0, limits.allocations, sigs.len()) is Some
    ||| relationship_failure(cf, sigs, allocation_total(hf, sigs, sigs.len()), limits.allocations, sigs.len()) is Some
}

/// `e` is the error of the first stage of building the report that fails:
/// too many appearance sets, too many temporal comparisons, a limit of the
/// history frame, then of the current frame, a projected role without a
/// name, a cataloged role without a name, then the allocations of the
/// history frame and of the current frame.
pub open spec fn aggregate_error(
    e: DatabaseError,
    rv: Seq<CapturedView>,
    nv: Seq<(Thing, Seq<char>)>,
    cutoff: Time,
    limits: TerrainLimits,
    role_limit: usize,
    signature_limit: usize,
) -> bool {
    let cv = current_of(rv, cutoff);
    let hs = set_sequence(rv);
    let cs = set_sequence(cv);
    let selected = report_selected(hs, cs, nv, role_limit);
    let sigs = report_signatures(hs, cs, nv, signature_limit);
    let hf = expected_frame(rv, selected);
    let cf = expected_frame(cv, selected);
    let history_failure = relationship_failure(hf, sigs, 0, limits.allocations, sigs.len());
    let current_failure = relationship_failure(
        cf,
        sigs,
        allocation_total(hf, sigs, sigs.len()),
        limits.allocations,
        sigs.len(),
    );
    if hs.len() > limits.active_appearance_sets {
        e == limit_error("active appearance sets", limits.active_appearance_sets)
    } else if current_comparisons(rv, cutoff) > limits.temporal_comparisons {
        e == limit_error("temporal comparisons", limits.temporal_comparisons)
    } else if frame_error(rv, limits) is Some {
        frame_error(rv, limits) == Some(e)
    } else if frame_error(cv, limits) is Some {
        frame_error(cv, limits) == Some(e)
    } else if projection_unnamed(hs, cs, nv, role_limit) {
        projection_error(e, hs, cs, nv, role_limit)
    } else if catalog_unnamed(hs, cs, nv, signature_limit) {
        catalog_error(e, hs, cs, nv, signature_limit)
    } else if history_failure is Some {
        history_failure == Some(e)
    } else {
        current_failure == Some(e)
    }
}

/// Builds the report of captured posits at `cutoff`: the posits current at
/// the cutoff, the history and current frames, the projected attribute
/// roles, the relationship catalog, and each frame's profiles, isopleths
/// and relationships.
#[verifier::rlimit(50)]
#[verifier::spinoff_prover]
pub fn aggregate(
    captured: CapturedDatabase,
    cutoff: Time,
    projected_role_limit: usize,
    max_relationship_signatures: usize,
    execution: &mut TerrainExecution,
) -> (r: Result<TerrainReport, DatabaseError>)
    requires
        captured.posits@.len() <= MAX_POSITS_SCANNED,
        forall|i: int| 0 <= i < captured.posits@.len() ==> pairs_ordered(#[trigger] captured.posits@[i].pairs@),
        old(execution).limits_spec().relationship_arity <= MAX_RELATIONSHIP_ARITY,
        old(execution).limits_spec().temporal_comparisons <= MAX_TEMPORAL_COMPARISONS,
        old(execution).comparisons() == 0,
        projected_role_limit <= MAX_PROJECTED_ROLE_LIMIT,
        max_relationship_signatures <= MAX_RELATIONSHIP_SIGNATURES,
    ensures
        ({
            let rv = captured_views(captured.posits@);
            let nv = names_view(captured.role_names@);
            let limits = old(execution).limits_spec();
            &&& r matches Ok(rep) ==> !aggregate_fails(
                rv,
                nv,
                cutoff,
                limits,
                projected_role_limit,
                max_relationship_signatures,
            ) && report_of(rep, rv, nv, captured.totals, cutoff, projected_role_limit, max_relationship_signatures)
            &&& r matches Err(e) ==> interrupted(e, *old(execution)) || aggregate_error(
                e,
                rv,
                nv,
                cutoff,
                limits,
                projected_role_limit,
                max_relationship_signatures,
            )
            &&& aggregate_fails(rv, nv, cutoff, limits, projected_role_limit, max_relationship_signatures) ==> r is Err
        }),
{
    let ghost rv = captured_views(captured.posits@);
    let ghost nv = names_view(captured.role_names@);
    let ghost limits = execution.limits_spec();
    let ghost cv = current_of(rv, cutoff);
    let records = captured.posits;
    let names = captured.role_names;
    let (groups, _) = active_sets(&records);
    if groups.len() as u64 > execution.limits().active_appearance_sets {
        return Err(crate::error::resource_limit("active appearance sets", execution.limits().active_appearance_sets));
    }
    let current = match current_records(&records, &cutoff, execution) {
        Ok(v) => v,
        Err(e) => {
            return Err(e);
        },
    };
    proof {
        current_posits_are_history_posits(rv, cutoff, rv.len());
        assert forall|i: int| 0 <= i < current@.len() implies pairs_ordered(#[trigger] current@[i].pairs@) by {
            assert(captured_views(current@)[i] == current@[i]@);
            let j = choose|j: int| 0 <= j < rv.len() && rv[j] == #[trigger] cv[i];
            assert(rv[j] == records@[j]@);
        }
    }
    let mut history_work = match build_frame_work(&records, execution) {
        Ok(w) => w,
        Err(e) => {
            return Err(e);
        },
    };
    let mut current_work = match build_frame_work(&current, execution) {
        Ok(w) => w,
        Err(e) => {
            return Err(e);
        },
    };
    let ghost hs = pair_views(history_work.sets@);
    let ghost cs = pair_views(current_work.sets@);
    let (projection, selected) = match build_projection(&history_work, &current_work, &names, projected_role_limit) {
        Ok(found) => found,
        Err(e) => {
            return Err(e);
        },
    };
    if let Err(e) = assign_profiles(&mut history_work, &selected, execution) {
        return Err(e);
    }
    if let Err(e) = assign_profiles(&mut current_work, &selected, execution) {
        return Err(e);
    }
    assert(pair_views(history_work.sets@) == hs);
    assert(pair_views(current_work.sets@) == cs);
    proof {
        lemma_expected_frame(history_work, rv, selected@);
        lemma_expected_frame(current_work, cv, selected@);
    }
    let (catalog, sigs) = match build_catalog(&history_work, &current_work, &names, max_relationship_signatures) {
        Ok(found) => found,
        Err(e) => {
            return Err(e);
        },
    };
    proof {
        let order = catalog_order(hs, cs, nv);
        assert(names_view(names@) == nv);
        assert(pair_views(history_work.sets@) == hs);
        assert(thing_views(sigs@) == order.take(shown_count(order.len(), max_relationship_signatures)));
        assert(order.to_set() == catalog_candidates(hs, cs));
        assert forall|i: int| 0 <= i < sigs@.len() implies (#[trigger] sigs@[i])@.len() <= MAX_RELATIONSHIP_ARITY by {
            assert(thing_views(sigs@)[i] == sigs@[i]@);
            assert(order[i] == sigs@[i]@);
            assert(order.to_set().contains(order[i]));
            lemma_signature_width(hs, cs, sigs@[i]@);
        }
    }
    let mut allocation_count: u64 = 0;
    let history_frame = match finish_frame(
        TerrainScope::History,
        &history_work,
        &selected,
        &sigs,
        execution,
        &mut allocation_count,
    ) {
        Ok(f) => f,
        Err(e) => {
            return Err(e);
        },
    };
    let current_frame = match finish_frame(
        TerrainScope::Current,
        &current_work,
        &selected,
        &sigs,
        execution,
        &mut allocation_count,
    ) {
        Ok(f) => f,
        Err(e) => {
            return Err(e);
        },
    };
    if let Err(e) = execution.check() {
        return Err(e);
    }
    Ok(
        TerrainReport {
            terrain_version: TERRAIN_VERSION,
            resolved_as_of: terrain_time_token(&cutoff),
            database: captured.totals,
            projection,
            relationship_catalog: catalog,
            frames: TerrainFrames { history: history_frame, current: current_frame },
        },
    )
}

// ---------------------------------------------------------------------------
// Laws of a frame
// ---------------------------------------------------------------------------

/// The endpoint things among the first `n` whose profile is below `bound`,
/// counted profile by profile.
pub open spec fn population_sum(masks: Seq<u16>, n: nat, bound: nat) -> nat
    decreases bound,
{
    if bound == 0 {
        0
    } else {
        population_sum(masks, n, (bound - 1) as nat) + population(masks, (bound - 1) as u16, n)
    }
}

proof fn lemma_population_step(masks: Seq<u16>, n: nat, bound: nat)
    requires
        n < masks.len(),
        bound <= 65536,
    ensures
        population_sum(masks, n + 1, bound) == population_sum(masks, n, bound) + if masks[n as int] < bound {
            1nat
        } else {
            0nat
        },
    decreases bound,
{
    if bound > 0 {
        lemma_population_step(masks, n, (bound - 1) as nat);
        assert(((bound - 1) as u16) as nat == bound - 1);
    }
}

/// Every endpoint thing has exactly one profile: where every mask is below
/// `bound`, the populations of the profiles below it add up to the
/// endpoint things.
pub proof fn profile_populations_add_up(masks: Seq<u16>, bound: nat)
    requires
        bound <= 65536,
        forall|k: int| 0 <= k < masks.len() ==> masks[k] < bound,
    ensures
        population_sum(masks, masks.len(), bound) == masks.len(),
{
    lemma_population_prefix(masks, masks.len(), bound);
}

proof fn lemma_population_prefix(masks: Seq<u16>, n: nat, bound: nat)
    requires
        n <= masks.len(),
        bound <= 65536,
        forall|k: int| 0 <= k < masks.len() ==> masks[k] < bound,
    ensures
        population_sum(masks, n, bound) == n,
    decreases n,
{
    if n == 0 {
        lemma_population_zero(masks, bound);
    } else {
        lemma_population_prefix(masks, (n - 1) as nat, bound);
        lemma_population_step(masks, (n - 1) as nat, bound);
    }
}

proof fn lemma_population_zero(masks: Seq<u16>, bound: nat)
    ensures
        population_sum(masks, 0, bound) == 0,
    decreases bound,
{
    if bound > 0 {
        lemma_population_zero(masks, (bound - 1) as nat);
    }
}

/// The participations in the `i`-th role of the relationship's first `n`
/// sets, counted profile by profile for the profiles below `bound`.
pub open spec fn participation_sum(
    s: Seq<Seq<(Thing, Thing)>>,
    sig: Seq<Thing>,
    things: Seq<Thing>,
    masks: Seq<u16>,
    i: int,
    n: nat,
    bound: nat,
) -> nat
    decreases bound,
{
    if bound == 0 {
        0
    } else {
        participation_sum(s, sig, things, masks, i, n, (bound - 1) as nat) + allocation_participations(
            s,
            sig,
            things,
            masks,
            i,
            (bound - 1) as u16,
            n,
        )
    }
}

proof fn lemma_participation_step(
    s: Seq<Seq<(Thing, Thing)>>,
    sig: Seq<Thing>,
    things: Seq<Thing>,
    masks: Seq<u16>,
    i: int,
    n: nat,
    bound: nat,
)
    requires
        n < s.len(),
        bound <= 65536,
    ensures
        participation_sum(s, sig, things, masks, i, n + 1, bound) == participation_sum(s, sig, things, masks, i, n, bound)
            + if in_relationship(s[n as int], sig) && mask_of(things, masks, s[n as int][i].1) < bound {
            1nat
        } else {
            0nat
        },
    decreases bound,
{
    if bound > 0 {
        lemma_participation_step(s, sig, things, masks, i, n, (bound - 1) as nat);
        assert(((bound - 1) as u16) as nat == bound - 1);
    }
}

proof fn lemma_participation_prefix(
    s: Seq<Seq<(Thing, Thing)>>,
    sig: Seq<Thing>,
    things: Seq<Thing>,
    masks: Seq<u16>,
    i: int,
    n: nat,
)
    requires
        n <= s.len(),
    ensures
        participation_sum(s, sig, things, masks, i, n, 65536) == relationship_sets(s, sig, n),
    decreases n,
{
    if n == 0 {
        lemma_participation_zero(s, sig, things, masks, i, 65536);
    } else {
        lemma_participation_prefix(s, sig, things, masks, i, (n - 1) as nat);
        lemma_participation_step(s, sig, things, masks, i, (n - 1) as nat, 65536);
    }
}

proof fn lemma_participation_zero(
    s: Seq<Seq<(Thing, Thing)>>,
    sig: Seq<Thing>,
    things: Seq<Thing>,
    masks: Seq<u16>,
    i: int,
    bound: nat,
)
    ensures
        participation_sum(s, sig, things, masks, i, 0, bound) == 0,
    decreases bound,
{
    if bound > 0 {
        lemma_participation_zero(s, sig, things, masks, i, (bound - 1) as nat);
    }
}

/// Allocations reconcile with their role's participations: over all
/// profiles, the participations allocated to a role of a relationship add
/// up to the role's participations, one per set of the relationship.
pub proof fn allocated_participations_reconcile(
    s: Seq<Seq<(Thing, Thing)>>,
    sig: Seq<Thing>,
    things: Seq<Thing>,
    masks: Seq<u16>,
    i: int,
)
    ensures
        participation_sum(s, sig, things, masks, i, s.len(), 65536) == relationship_sets(s, sig, s.len()),
{
    lemma_participation_prefix(s, sig, things, masks, i, s.len());
}

/// The things in the `i`-th role of the relationship's first `n` sets
/// whose profile is below `bound`.
pub open spec fn role_things_below(
    s: Seq<Seq<(Thing, Thing)>>,
    sig: Seq<Thing>,
    things: Seq<Thing>,
    masks: Seq<u16>,
    i: int,
    n: int,
    bound: nat,
) -> Set<Thing> {
    role_things(s, sig, i, n).filter(|t: Thing| mask_of(things, masks, t) < bound)
}

/// The distinct things allocated to the `i`-th role, counted profile by
/// profile for the profiles below `bound`.
pub open spec fn allocated_things_sum(
    s: Seq<Seq<(Thing, Thing)>>,
    sig: Seq<Thing>,
    things: Seq<Thing>,
    masks: Seq<u16>,
    i: int,
    n: int,
    bound: nat,
) -> nat
    decreases bound,
{
    if bound == 0 {
        0
    } else {
        allocated_things_sum(s, sig, things, masks, i, n, (bound - 1) as nat) + allocation_things(
            s,
            sig,
            things,
            masks,
            i,
            (bound - 1) as u16,
            n,
        ).len()
    }
}

proof fn lemma_role_things_finite(s: Seq<Seq<(Thing, Thing)>>, sig: Seq<Thing>, i: int, n: int)
    requires
        0 <= n <= s.len(),
    ensures
        role_things(s, sig, i, n).finite(),
    decreases n,
{
    if n == 0 {
        assert(role_things(s, sig, i, 0) =~= Set::<Thing>::empty());
    } else {
        lemma_role_things_finite(s, sig, i, n - 1);
        lemma_relationship_step(s, sig, Seq::empty(), Seq::empty(), n - 1, i, 0);
    }
}

proof fn lemma_allocated_things_below(
    s: Seq<Seq<(Thing, Thing)>>,
    sig: Seq<Thing>,
    things: Seq<Thing>,
    masks: Seq<u16>,
    i: int,
    n: int,
    bound: nat,
)
    requires
        0 <= n <= s.len(),
        bound <= 65536,
    ensures
        role_things_below(s, sig, things, masks, i, n, bound).finite(),
        allocated_things_sum(s, sig, things, masks, i, n, bound) == role_things_below(s, sig, things, masks, i, n, bound).len(),
    decreases bound,
{
    lemma_role_things_finite(s, sig, i, n);
    let all = role_things(s, sig, i, n);
    let below = role_things_below(s, sig, things, masks, i, n, bound);
    vstd::set_lib::lemma_len_subset(below, all);
    if bound == 0 {
        assert(below =~= Set::<Thing>::empty());
    } else {
        let m = (bound - 1) as u16;
        assert(m as nat == bound - 1);
        lemma_allocated_things_below(s, sig, things, masks, i, n, (bound - 1) as nat);
        let lower = role_things_below(s, sig, things, masks, i, n, (bound - 1) as nat);
        let here = allocation_things(s, sig, things, masks, i, m, n);
        assert(here.subset_of(all)) by {
            assert forall|t: Thing| here.contains(t) implies all.contains(t) by {
                let k = choose|k: int|
                    0 <= k < n && in_relationship(#[trigger] s[k], sig) && s[k][i].1 == t && mask_of(things, masks, t) == m;
            }
        }
        vstd::set_lib::lemma_len_subset(here, all);
        assert(lower.disjoint(here));
        assert(below =~= lower + here) by {
            assert forall|t: Thing| below.contains(t) implies (lower + here).contains(t) by {
                if mask_of(things, masks, t) == m {
                    let k = choose|k: int| 0 <= k < n && in_relationship(#[trigger] s[k], sig) && s[k][i].1 == t;
                    assert(here.contains(t));
                }
            }
            assert forall|t: Thing| (lower + here).contains(t) implies below.contains(t) by {
                if here.contains(t) {
                    let k = choose|k: int|
                        0 <= k < n && in_relationship(#[trigger] s[k], sig) && s[k][i].1 == t && mask_of(things, masks, t) == m;
                    assert(all.contains(t));
                }
            }
        }
        vstd::set_lib::lemma_set_disjoint_lens(lower, here);
    }
}

/// Allocations reconcile with their role's distinct things: each thing of
/// a role of a relationship has one profile, so over all profiles the
/// distinct things allocated to the role add up to the role's distinct
/// things.
pub proof fn allocated_things_reconcile(
    s: Seq<Seq<(Thing, Thing)>>,
    sig: Seq<Thing>,
    things: Seq<Thing>,
    masks: Seq<u16>,
    i: int,
)
    ensures
        role_things(s, sig, i, s.len() as int).finite(),
        allocated_things_sum(s, sig, things, masks, i, s.len() as int, 65536) == role_things(
            s,
            sig,
            i,
            s.len() as int,
        ).len(),
{
    lemma_allocated_things_below(s, sig, things, masks, i, s.len() as int, 65536);
    lemma_role_things_finite(s, sig, i, s.len() as int);
    assert(role_things_below(s, sig, things, masks, i, s.len() as int, 65536) =~= role_things(s, sig, i, s.len() as int));
}

} // verus!
