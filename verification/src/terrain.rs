//! Bounded structural Terrain reports: their limits, their report shapes,
//! the fail-closed counters used while building them, and the stable
//! identifiers of their parts.

use crate::construct::{
    appearance_keys, ordered_by_role, sorts_before, text_order_is_strict, Database, Posit, Role, Thing,
};
use crate::datatype::{time_text, Time};
use crate::frames::{
    active_sets, aggregate, aggregate_error, aggregate_fails, captured_views, names_view, pairs_ordered,
    record_sets, report_of, set_sequence, text_order_is_total, CapturedDatabase, CapturedPosit, CapturedView,
};
use crate::error::{resource_limit, DatabaseError};
use crate::text::{decimal, decimal_text, hex_text, push_decimal, push_hex};
use crate::traqula::CancellationToken;
use std::time::Duration;
use std::time::Instant;
use vstd::prelude::*;
use vstd::string::StringExecFns;

verus! {

pub const TERRAIN_VERSION: u16 = 1;

pub const DEFAULT_PROJECTED_ROLE_LIMIT: usize = 8;

pub const MAX_PROJECTED_ROLE_LIMIT: usize = 8;

pub const DEFAULT_MAX_RELATIONSHIP_SIGNATURES: usize = 16;

pub const MAX_RELATIONSHIP_SIGNATURES: usize = 128;

pub const MAX_POSITS_SCANNED: u64 = 1000000;

pub const MAX_ACTIVE_APPEARANCE_SETS: u64 = 250000;

pub const MAX_ENDPOINT_THINGS: u64 = 1000000;

pub const MAX_TEMPORAL_COMPARISONS: u64 = 5000000;

pub const MAX_RELATIONSHIP_ARITY: u64 = 256;

pub const MAX_ALLOCATIONS: u64 = 4096;

#[verifier::external_type_specification]
#[verifier::external_body]
pub struct ExInstant(Instant);

/// Hard bounds on the work of one report.
#[derive(Debug, Clone, PartialEq, Eq, Structural)]
pub struct TerrainLimits {
    pub posits_scanned: u64,
    pub active_appearance_sets: u64,
    pub endpoint_things: u64,
    pub temporal_comparisons: u64,
    pub relationship_arity: u64,
    pub allocations: u64,
}

impl Default for TerrainLimits {
    fn default() -> (l: Self)
        ensures
            l == (TerrainLimits {
                posits_scanned: MAX_POSITS_SCANNED,
                active_appearance_sets: MAX_ACTIVE_APPEARANCE_SETS,
                endpoint_things: MAX_ENDPOINT_THINGS,
                temporal_comparisons: MAX_TEMPORAL_COMPARISONS,
                relationship_arity: MAX_RELATIONSHIP_ARITY,
                allocations: MAX_ALLOCATIONS,
            }),
    {
        TerrainLimits {
            posits_scanned: MAX_POSITS_SCANNED,
            active_appearance_sets: MAX_ACTIVE_APPEARANCE_SETS,
            endpoint_things: MAX_ENDPOINT_THINGS,
            temporal_comparisons: MAX_TEMPORAL_COMPARISONS,
            relationship_arity: MAX_RELATIONSHIP_ARITY,
            allocations: MAX_ALLOCATIONS,
        }
    }
}

/// How one report is built.
#[derive(Debug, Clone)]
pub struct TerrainOptions {
    pub as_of: Option<Time>,
    pub timeout: Option<Duration>,
    pub cancellation: Option<CancellationToken>,
    pub projected_role_limit: usize,
    pub max_relationship_signatures: usize,
    pub limits: TerrainLimits,
}

impl Default for TerrainOptions {
    fn default() -> (o: Self)
        ensures
            o.as_of is None,
            o.timeout is None,
            o.cancellation is None,
            o.projected_role_limit == DEFAULT_PROJECTED_ROLE_LIMIT,
            o.max_relationship_signatures == DEFAULT_MAX_RELATIONSHIP_SIGNATURES,
            o.limits == (TerrainLimits {
                posits_scanned: MAX_POSITS_SCANNED,
                active_appearance_sets: MAX_ACTIVE_APPEARANCE_SETS,
                endpoint_things: MAX_ENDPOINT_THINGS,
                temporal_comparisons: MAX_TEMPORAL_COMPARISONS,
                relationship_arity: MAX_RELATIONSHIP_ARITY,
                allocations: MAX_ALLOCATIONS,
            }),
    {
        TerrainOptions {
            as_of: None,
            timeout: None,
            cancellation: None,
            projected_role_limit: DEFAULT_PROJECTED_ROLE_LIMIT,
            max_relationship_signatures: DEFAULT_MAX_RELATIONSHIP_SIGNATURES,
            limits: TerrainLimits::default(),
        }
    }
}

#[derive(Debug, Clone)]
pub struct TerrainReport {
    pub terrain_version: u16,
    pub resolved_as_of: String,
    pub database: TerrainDatabaseTotals,
    pub projection: TerrainProjection,
    pub relationship_catalog: TerrainRelationshipCatalog,
    pub frames: TerrainFrames,
}

#[derive(Debug, Clone)]
pub struct TerrainFrames {
    pub history: TerrainFrame,
    pub current: TerrainFrame,
}

#[derive(Debug, Clone, PartialEq, Eq, Structural)]
pub struct TerrainDatabaseTotals {
    pub referenced_things: u64,
    pub roles: u64,
    pub appearances: u64,
    pub appearance_sets: u64,
    pub posits: u64,
}

#[derive(Debug, Clone)]
pub struct TerrainProjection {
    pub complete: bool,
    pub total_attribute_roles: u64,
    pub roles: Vec<TerrainProjectedRole>,
}

#[derive(Debug, Clone)]
pub struct TerrainProjectedRole {
    pub id: String,
    pub name: String,
    pub bit: u8,
    pub history_support: u64,
    pub current_support: u64,
}

#[derive(Debug, Clone)]
pub struct TerrainRelationshipCatalog {
    pub complete: bool,
    pub total_signatures: u64,
    pub default_signature_id: Option<String>,
    pub signatures: Vec<TerrainRelationshipSignature>,
}

#[derive(Debug, Clone)]
pub struct TerrainRelationshipSignature {
    pub id: String,
    pub roles: Vec<TerrainRoleRef>,
}

#[derive(Debug, Clone)]
pub struct TerrainRoleRef {
    pub id: String,
    pub name: String,
}

#[derive(Debug, Clone)]
pub struct TerrainFrame {
    pub scope: TerrainScope,
    pub stats: TerrainFrameStats,
    pub role_supports: Vec<TerrainRoleSupport>,
    pub profiles: Vec<TerrainProfile>,
    pub isopleths: Vec<TerrainIsopleth>,
    pub relationships: Vec<TerrainRelationship>,
}

#[derive(Debug, Clone, Copy, PartialEq, Eq, Structural)]
pub enum TerrainScope {
    History,
    Current,
}

#[derive(Debug, Clone, PartialEq, Eq, Structural)]
pub struct TerrainFrameStats {
    pub endpoint_things: u64,
    pub roles: u64,
    pub appearance_sets: u64,
    pub posits: u64,
    pub incidences: u64,
}

#[derive(Debug, Clone)]
pub struct TerrainRoleSupport {
    pub role_id: String,
    pub distinct_things: u64,
}

#[derive(Debug, Clone)]
pub struct TerrainProfile {
    pub id: String,
    pub mask: u16,
    pub present_role_ids: Vec<String>,
    pub absent_role_ids: Vec<String>,
    pub things: u64,
    pub isopleth_id: Option<String>,
}

#[derive(Debug, Clone)]
pub struct TerrainIsopleth {
    pub id: String,
    pub mask: u16,
    pub included_role_ids: Vec<String>,
    pub support: u64,
}

#[derive(Debug, Clone)]
pub struct TerrainRelationship {
    pub signature_id: String,
    pub appearance_sets: u64,
    pub posits: u64,
    pub role_totals: Vec<TerrainRoleTotal>,
    pub allocations: Vec<TerrainAllocation>,
}

#[derive(Debug, Clone)]
pub struct TerrainRoleTotal {
    pub role_id: String,
    pub distinct_things: u64,
    pub participations: u64,
}

#[derive(Debug, Clone)]
pub struct TerrainAllocation {
    pub id: String,
    pub role_id: String,
    pub profile_id: String,
    pub profile_mask: u16,
    pub isopleth_id: Option<String>,
    pub distinct_things: u64,
    pub participations: u64,
}

// ---------------------------------------------------------------------------
// Fail-closed arithmetic
// ---------------------------------------------------------------------------

/// The error for a limit that was passed.
pub open spec fn limit_error(resource: &'static str, limit: u64) -> DatabaseError {
    DatabaseError::ResourceLimit { resource, limit }
}

/// Refuses a configured limit above its hard maximum.
pub fn validate_limit(resource: &'static str, value: u64, maximum: u64) -> (r: Result<(), DatabaseError>)
    ensures
        r is Ok <==> value <= maximum,
        r is Err ==> r == Err::<(), DatabaseError>(limit_error(resource, maximum)),
{
    if value > maximum {
        Err(resource_limit(resource, maximum))
    } else {
        Ok(())
    }
}

/// A sum, or the resource's error where it does not fit in 64 bits.
pub fn checked_add(left: u64, right: u64, resource: &'static str) -> (r: Result<u64, DatabaseError>)
    ensures
        left + right <= u64::MAX ==> r == Ok::<u64, DatabaseError>((left + right) as u64),
        left + right > u64::MAX ==> r == Err::<u64, DatabaseError>(limit_error(resource, u64::MAX)),
{
    match left.checked_add(right) {
        Some(sum) => Ok(sum),
        None => Err(resource_limit(resource, u64::MAX)),
    }
}

/// A product, or the resource's error where it does not fit in 64 bits.
pub fn checked_mul(left: u64, right: u64, resource: &'static str) -> (r: Result<u64, DatabaseError>)
    ensures
        left * right <= u64::MAX ==> r == Ok::<u64, DatabaseError>((left * right) as u64),
        left * right > u64::MAX ==> r == Err::<u64, DatabaseError>(limit_error(resource, u64::MAX)),
{
    match left.checked_mul(right) {
        Some(product) => Ok(product),
        None => Err(resource_limit(resource, u64::MAX)),
    }
}

/// A count as a 64-bit number.
pub fn usize_count(value: usize, resource: &'static str) -> (r: Result<u64, DatabaseError>)
    ensures
        r == Ok::<u64, DatabaseError>(value as u64),
{
    Ok(value as u64)
}

/// Refuses a count above its limit.
pub fn check_count_limit(count: u64, limit: u64, resource: &'static str) -> (r: Result<(), DatabaseError>)
    ensures
        r is Ok <==> count <= limit,
        r is Err ==> r == Err::<(), DatabaseError>(limit_error(resource, limit)),
{
    if count > limit {
        Err(resource_limit(resource, limit))
    } else {
        Ok(())
    }
}

// ---------------------------------------------------------------------------
// Identifiers
// ---------------------------------------------------------------------------

/// Hexadecimal of at least three digits, as many as a 16-bit mask needs.
pub open spec fn mask_hex(mask: u16) -> Seq<char> {
    if mask >= 4096 {
        hex_text(mask as nat, 4)
    } else {
        hex_text(mask as nat, 3)
    }
}

/// Role identities joined by hyphens.
pub open spec fn joined_identities(signature: Seq<Thing>) -> Seq<char>
    decreases signature.len(),
{
    if signature.len() == 0 {
        Seq::empty()
    } else if signature.len() == 1 {
        decimal_text(signature[0] as nat)
    } else {
        joined_identities(signature.drop_last()) + "-"@ + decimal_text(signature.last() as nat)
    }
}

fn push_mask(target: &mut String, mask: u16)
    ensures
        final(target)@ == old(target)@ + mask_hex(mask),
{
    if mask >= 4096 {
        push_hex(target, mask as u64, 4);
    } else {
        push_hex(target, mask as u64, 3);
    }
}

fn push_joined(target: &mut String, signature: &[Thing])
    ensures
        final(target)@ == old(target)@ + joined_identities(signature@),
{
    proof {
        reveal_strlit("-");
    }
    let ghost start = target@;
    let mut i: usize = 0;
    while i < signature.len()
        invariant
            i <= signature@.len(),
            target@ == start + joined_identities(signature@.subrange(0, i as int)),
        decreases signature@.len() - i,
    {
        let ghost before = signature@.subrange(0, i as int);
        let ghost after = signature@.subrange(0, i + 1);
        assert(after.drop_last() =~= before);
        if i > 0 {
            target.append("-");
        }
        push_decimal(target, signature[i]);
        proof {
            if i == 0 {
                assert(before =~= Seq::<Thing>::empty());
            }
        }
        i = i + 1;
    }
    assert(signature@.subrange(0, signature@.len() as int) =~= signature@);
}

/// The identifier of a role: its identity in decimal.
pub fn role_id(role: Thing) -> (s: String)
    ensures
        s@ == decimal_text(role as nat),
{
    decimal(role)
}

/// The identifier of a profile.
pub fn profile_id(mask: u16) -> (s: String)
    ensures
        s@ == "terrain-v1-profile-"@ + mask_hex(mask),
{
    let mut s = String::from_str("terrain-v1-profile-");
    push_mask(&mut s, mask);
    s
}

/// The identifier of an isopleth.
pub fn isopleth_id(mask: u16) -> (s: String)
    ensures
        s@ == "terrain-v1-isopleth-"@ + mask_hex(mask),
{
    let mut s = String::from_str("terrain-v1-isopleth-");
    push_mask(&mut s, mask);
    s
}

/// The identifier of a relationship signature.
pub fn signature_id(signature: &[Thing]) -> (s: String)
    ensures
        s@ == "terrain-v1-signature-"@ + joined_identities(signature@),
{
    let mut s = String::from_str("terrain-v1-signature-");
    push_joined(&mut s, signature);
    s
}

/// The identifier of an allocation of a role to a profile in a
/// relationship.
pub fn allocation_id(signature: &[Thing], role: Thing, mask: u16) -> (s: String)
    ensures
        s@ == "terrain-v1-allocation-"@ + joined_identities(signature@) + "-"@ + decimal_text(
            role as nat,
        ) + "-"@ + mask_hex(mask),
{
    let mut s = String::from_str("terrain-v1-allocation-");
    push_joined(&mut s, signature);
    s.append("-");
    push_decimal(&mut s, role);
    s.append("-");
    push_mask(&mut s, mask);
    s
}

/// A cutoff as a Traqula token: `@BOT`, `@EOT`, or the time's text in
/// single quotes.
pub open spec fn time_token(time: Time) -> Seq<char> {
    let text = time_text(time.moment_spec());
    if text == "BOT"@ {
        "@BOT"@
    } else if text == "EOT"@ {
        "@EOT"@
    } else {
        "'"@ + text + "'"@
    }
}

/// Whether two texts are equal.
pub fn same_text(a: &str, b: &str) -> (r: bool)
    ensures
        r == (a@ == b@),
{
    let r = !sorts_before(a, b) && !sorts_before(b, a);
    proof {
        text_order_is_total(a@, b@);
        text_order_is_strict(a@, a@, a@);
    }
    r
}

/// A canonical Traqula token suitable for reusing the exact resolved cutoff.
pub fn terrain_time_token(time: &Time) -> (s: String)
    ensures
        s@ == time_token(*time),
{
    let text = time.to_string();
    if same_text(text.as_str(), "BOT") {
        String::from_str("@BOT")
    } else if same_text(text.as_str(), "EOT") {
        String::from_str("@EOT")
    } else {
        let mut s = String::from_str("'");
        s.append(text.as_str());
        s.append("'");
        s
    }
}


// ---------------------------------------------------------------------------
// Capturing a database
// ---------------------------------------------------------------------------

/// A kept posit as a report sees it.
pub open spec fn captured_of(p: Posit) -> CapturedView {
    CapturedView { posit: p.identity(), pairs: appearance_keys(p.members()), time: p.time_spec() }
}

/// Kept posits as a report sees them.
pub open spec fn captured_all(ps: Seq<Posit>) -> Seq<CapturedView> {
    ps.map_values(|p: Posit| captured_of(p))
}

/// `rv` holds the posits `ps` as a report sees them, in non-decreasing
/// identity order.
pub open spec fn captures(rv: Seq<CapturedView>, ps: Seq<Posit>) -> bool {
    &&& rv.to_multiset() == captured_all(ps).to_multiset()
    &&& forall|a: int, b: int| 0 <= a < b < rv.len() ==> (#[trigger] rv[a]).posit <= (#[trigger] rv[b]).posit
}

/// The appearances of kept posits.
pub open spec fn posit_appearances(ps: Seq<Posit>) -> Set<(Thing, Thing)> {
    Set::new(
        |x: (Thing, Thing)|
            exists|i: int, k: int|
                0 <= i < ps.len() && 0 <= k < ps[i].members().len() && #[trigger] appearance_keys(ps[i].members())[k]
                    == x,
    )
}

/// The appearance sets of kept posits.
pub open spec fn posit_sets(ps: Seq<Posit>) -> Set<Seq<(Thing, Thing)>> {
    Set::new(|p: Seq<(Thing, Thing)>| exists|i: int| 0 <= i < ps.len() && #[trigger] appearance_keys(ps[i].members()) == p)
}

/// A role catalog: identities and names.
pub open spec fn role_catalog(roles: Seq<Role>) -> Seq<(Thing, Seq<char>)> {
    roles.map_values(|r: Role| (r.identity(), r.name_text()))
}

/// The totals of a database.
pub open spec fn database_totals(db: Database) -> TerrainDatabaseTotals {
    TerrainDatabaseTotals {
        referenced_things: db.generator().retained().len() as u64,
        roles: db.roles().len() as u64,
        appearances: posit_appearances(db.posits()).len() as u64,
        appearance_sets: posit_sets(db.posits()).len() as u64,
        posits: db.posits().len() as u64,
    }
}

/// Appearance pairs in strictly increasing order, by role then thing.
pub open spec fn pairs_increasing(s: Seq<(Thing, Thing)>) -> bool {
    forall|a: int, b: int|
        0 <= a < b < s.len() ==> (#[trigger] s[a]).0 < (#[trigger] s[b]).0 || (s[a].0 == s[b].0 && s[a].1 < s[b].1)
}

/// Inserts `x` into a strictly increasing vector of pairs unless it is
/// there.
fn insert_pair(v: &mut Vec<(Thing, Thing)>, x: (Thing, Thing))
    requires
        pairs_increasing(old(v)@),
    ensures
        pairs_increasing(final(v)@),
        final(v)@.to_set() == old(v)@.to_set().insert(x),
{
    let mut p: usize = 0;
    while p < v.len() && (v[p].0 < x.0 || (v[p].0 == x.0 && v[p].1 < x.1))
        invariant
            p <= v@.len(),
            forall|k: int| 0 <= k < p ==> (#[trigger] v@[k]).0 < x.0 || (v@[k].0 == x.0 && v@[k].1 < x.1),
        decreases v@.len() - p,
    {
        p = p + 1;
    }
    if p < v.len() && v[p].0 == x.0 && v[p].1 == x.1 {
        proof {
            assert(v@[p as int] == x);
            assert(v@.to_set() =~= v@.to_set().insert(x)) by {
                assert(v@.contains(x));
            }
        }
        return;
    }
    let ghost before = v@;
    proof {
        assert forall|j: int| p <= j < before.len() implies x.0 < (#[trigger] before[j]).0 || (x.0 == before[j].0 && x.1
            < before[j].1) by {
            if j > p {
                assert(before[p as int].0 < before[j].0 || (before[p as int].0 == before[j].0 && before[p as int].1
                    < before[j].1));
            }
        }
    }
    v.insert(p, x);
    proof {
        assert(v@ == before.insert(p as int, x));
        assert(v@.to_set() =~= before.to_set().insert(x)) by {
            assert forall|y: (Thing, Thing)| v@.contains(y) <==> before.to_set().insert(x).contains(y) by {
                if v@.contains(y) {
                    let k = choose|k: int| 0 <= k < v@.len() && v@[k] == y;
                    if k < p {
                        assert(before[k] == y);
                    } else if k > p {
                        assert(before[k - 1] == y);
                    }
                }
                if before.contains(y) {
                    let k = choose|k: int| 0 <= k < before.len() && before[k] == y;
                    if k < p {
                        assert(v@[k] == y);
                    } else {
                        assert(v@[k + 1] == y);
                    }
                }
                if y == x {
                    assert(v@[p as int] == x);
                }
            }
        }
    }
}

proof fn lemma_pairs_len(s: Seq<(Thing, Thing)>)
    requires
        pairs_increasing(s),
    ensures
        s.to_set().len() == s.len(),
{
    assert(s.no_duplicates()) by {
        assert forall|a: int, b: int| 0 <= a < s.len() && 0 <= b < s.len() && a != b implies s[a] != s[b] by {
            if a < b {
                assert(s[a].0 < s[b].0 || (s[a].0 == s[b].0 && s[a].1 < s[b].1));
            } else {
                assert(s[b].0 < s[a].0 || (s[b].0 == s[a].0 && s[b].1 < s[a].1));
            }
        }
    }
    s.unique_seq_to_set();
}

/// A kept posit as a report sees it.
fn capture_posit(p: &Posit) -> (c: CapturedPosit)
    ensures
        c@ == captured_of(*p),
        pairs_ordered(c.pairs@),
{
    let set = p.appearance_set();
    let appearances = set.appearances();
    let mut pairs: Vec<(Thing, Thing)> = Vec::new();
    let mut k: usize = 0;
    while k < appearances.len()
        invariant
            appearances@ == p.members(),
            ordered_by_role(appearances@),
            k <= appearances@.len(),
            pairs@ == appearance_keys(appearances@).take(k as int),
        decreases appearances@.len() - k,
    {
        let role = appearances[k].role().role();
        let thing = appearances[k].thing();
        pairs.push((role, thing));
        assert(appearance_keys(appearances@).take(k + 1) =~= appearance_keys(appearances@).take(k as int).push(
            (role, thing),
        ));
        k = k + 1;
    }
    assert(appearance_keys(appearances@).take(appearances@.len() as int) =~= appearance_keys(appearances@));
    proof {
        assert forall|a: int, b: int| 0 <= a < b < pairs@.len() implies (#[trigger] pairs@[a]).0 < (#[trigger] pairs@[b]).0 by {
            assert(appearances@[a].role_spec().identity() < appearances@[b].role_spec().identity());
        }
    }
    CapturedPosit { posit: p.posit(), pairs, time: *p.time() }
}

/// Some of the first `n` items is captured as `v`.
pub open spec fn from_items(items: Seq<CapturedPosit>, v: CapturedView, n: int) -> bool {
    exists|j: int| 0 <= j < n && #[trigger] items[j]@ == v
}

/// Sorts captured posits by identity, keeping the order of equal ones.
fn sort_by_posit(items: Vec<CapturedPosit>) -> (sorted: Vec<CapturedPosit>)
    ensures
        captured_views(sorted@).to_multiset() == captured_views(items@).to_multiset(),
        forall|a: int, b: int| 0 <= a < b < sorted@.len() ==> (#[trigger] sorted@[a]).posit <= (#[trigger] sorted@[b]).posit,
        forall|i: int| 0 <= i < sorted@.len() ==> from_items(items@, #[trigger] sorted@[i]@, items@.len() as int),
{
    broadcast use vstd::seq_lib::to_multiset_build, vstd::seq_lib::to_multiset_insert;

    let ghost iv = captured_views(items@);
    let mut out: Vec<CapturedPosit> = Vec::new();
    let mut i: usize = 0;
    assert(iv.take(0) =~= Seq::<CapturedView>::empty());
    assert(captured_views(out@) =~= Seq::<CapturedView>::empty());
    while i < items.len()
        invariant
            iv == captured_views(items@),
            i <= items@.len(),
            captured_views(out@).to_multiset() == iv.take(i as int).to_multiset(),
            forall|a: int, b: int| 0 <= a < b < out@.len() ==> (#[trigger] out@[a]).posit <= (#[trigger] out@[b]).posit,
            forall|x: int| 0 <= x < out@.len() ==> from_items(items@, #[trigger] out@[x]@, i as int),
        decreases items@.len() - i,
    {
        let x = items[i].clone();
        let ghost ov = captured_views(out@);
        let ghost before = out@;
        let mut p: usize = 0;
        while p < out.len() && out[p].posit <= x.posit
            invariant
                p <= out@.len(),
                out@ == before,
                forall|k: int| 0 <= k < p ==> (#[trigger] out@[k]).posit <= x.posit,
            decreases out@.len() - p,
        {
            p = p + 1;
        }
        out.insert(p, x);
        proof {
            let nv = captured_views(out@);
            assert(out@ == before.insert(p as int, x));
            assert(nv =~= ov.insert(p as int, x@));
            assert(iv.take(i + 1) =~= iv.take(i as int).push(x@));
            assert(iv[i as int] == items@[i as int]@);
            vstd::seq_lib::to_multiset_insert(ov, p as int, x@);
            vstd::seq_lib::to_multiset_build(iv.take(i as int), x@);
            assert forall|a: int, b: int| 0 <= a < b < out@.len() implies (#[trigger] out@[a]).posit <= (#[trigger] out@[b]).posit by {
                if a < p && b > p {
                    assert(before[a].posit <= before[b - 1].posit);
                } else if a == p && b > p {
                    if p < before.len() {
                        assert(before[p as int].posit <= before[b - 1].posit);
                    }
                }
            }
            assert forall|y: int| 0 <= y < out@.len() implies from_items(items@, #[trigger] out@[y]@, i + 1) by {
                if y < p {
                    assert(out@[y] == before[y]);
                    assert(from_items(items@, before[y]@, i as int));
                } else if y > p {
                    assert(out@[y] == before[y - 1]);
                    assert(from_items(items@, before[y - 1]@, i as int));
                } else {
                    assert(items@[i as int]@ == out@[y]@);
                }
            }
        }
        i = i + 1;
    }
    assert(iv.take(items@.len() as int) =~= iv);
    out
}


proof fn lemma_sets_len(s: Seq<Seq<(Thing, Thing)>>)
    requires
        crate::frames::sets_sorted(s),
    ensures
        s.to_set().len() == s.len(),
{
    assert(s.no_duplicates()) by {
        assert forall|a: int, b: int| 0 <= a < s.len() && 0 <= b < s.len() && a != b implies s[a] != s[b] by {
            crate::construct::appearance_order_is_strict(s[a], s[a], s[a]);
            if a < b {
                assert(crate::construct::appearance_keys_before(s[a], s[b]));
            } else {
                assert(crate::construct::appearance_keys_before(s[b], s[a]));
            }
        }
    }
    s.unique_seq_to_set();
}

impl Database {
    /// What a report reads from the database: its totals, its role catalog
    /// and its posits in identity order; refused where the database holds
    /// more posits than the report may scan.
    pub fn capture_terrain(&self, execution: &TerrainExecution) -> (r: Result<CapturedDatabase, DatabaseError>)
        ensures
            r matches Ok(c) ==> {
                &&& c.totals == database_totals(*self)
                &&& captures(captured_views(c.posits@), self.posits())
                &&& forall|i: int| 0 <= i < c.posits@.len() ==> pairs_ordered(#[trigger] c.posits@[i].pairs@)
                &&& names_view(c.role_names@) == role_catalog(self.roles())
                &&& c.posits@.len() <= execution.limits_spec().posits_scanned
            },
            r matches Err(e) ==> interrupted(e, *execution) || (e == limit_error(
                "posits scanned",
                execution.limits_spec().posits_scanned,
            ) && self.posits().len() > execution.limits_spec().posits_scanned),
            self.posits().len() > execution.limits_spec().posits_scanned ==> r is Err,
    {
        let referenced_things = self.thing_generator().len() as u64;
        if let Err(e) = execution.check() {
            return Err(e);
        }
        let roles = self.role_keeper().snapshot();
        let role_count = roles.len() as u64;
        if let Err(e) = execution.check() {
            return Err(e);
        }
        let keeper = self.posit_keeper();
        let posit_count = keeper.len();
        if posit_count as u64 > execution.limits().posits_scanned {
            return Err(resource_limit("posits scanned", execution.limits().posits_scanned));
        }
        if let Err(e) = execution.check() {
            return Err(e);
        }
        let ghost ps = self.posits();
        let ghost expected = captured_all(ps);
        let mut captured: Vec<CapturedPosit> = Vec::new();
        let mut pairs: Vec<(Thing, Thing)> = Vec::new();
        let mut i: usize = 0;
        assert(pairs@.to_set() =~= Set::new(
            |x: (Thing, Thing)|
                exists|j: int, k: int|
                    0 <= j < 0 && 0 <= k < ps[j].members().len() && #[trigger] appearance_keys(ps[j].members())[k] == x,
        ));
        while i < posit_count
            invariant
                ps == self.posits(),
                ps == keeper.posits(),
                expected == captured_all(ps),
                posit_count == ps.len(),
                i <= posit_count,
                captured_views(captured@) == expected.take(i as int),
                forall|j: int| 0 <= j < captured@.len() ==> pairs_ordered(#[trigger] captured@[j].pairs@),
                pairs_increasing(pairs@),
                pairs@.to_set() == Set::new(
                    |x: (Thing, Thing)|
                        exists|j: int, k: int|
                            0 <= j < i && 0 <= k < ps[j].members().len() && #[trigger] appearance_keys(ps[j].members())[k]
                                == x,
                ),
            decreases posit_count - i,
        {
            if let Err(e) = execution.checkpoint(i) {
                return Err(e);
            }
            let posit = keeper.get(i);
            let record = capture_posit(posit);
            let ghost before_pairs = pairs@.to_set();
            let mut k: usize = 0;
            while k < record.pairs.len()
                invariant
                    record@ == captured_of(ps[i as int]),
                    pairs_ordered(record.pairs@),
                    i < ps.len(),
                    k <= record.pairs@.len(),
                    pairs_increasing(pairs@),
                    pairs@.to_set() == before_pairs.union(Set::new(|x: (Thing, Thing)| exists|q: int| 0 <= q < k && #[trigger] record.pairs@[q] == x)),
                decreases record.pairs@.len() - k,
            {
                let ghost was = pairs@.to_set();
                insert_pair(&mut pairs, record.pairs[k]);
                proof {
                    assert(pairs@.to_set() =~= before_pairs.union(Set::new(|x: (Thing, Thing)| exists|q: int| 0 <= q < k + 1 && #[trigger] record.pairs@[q] == x))) by {
                        assert forall|x: (Thing, Thing)| pairs@.to_set().contains(x) implies before_pairs.union(Set::new(|x: (Thing, Thing)| exists|q: int| 0 <= q < k + 1 && #[trigger] record.pairs@[q] == x)).contains(x) by {
                            if x != record.pairs@[k as int] && !before_pairs.contains(x) {
                                assert(was.contains(x));
                                let q = choose|q: int| 0 <= q < k && #[trigger] record.pairs@[q] == x;
                                assert(0 <= q < k + 1);
                            }
                        }
                        assert forall|x: (Thing, Thing)| before_pairs.union(Set::new(|x: (Thing, Thing)| exists|q: int| 0 <= q < k + 1 && #[trigger] record.pairs@[q] == x)).contains(x) implies pairs@.to_set().contains(x) by {
                            if !before_pairs.contains(x) && x != record.pairs@[k as int] {
                                let q = choose|q: int| 0 <= q < k + 1 && #[trigger] record.pairs@[q] == x;
                                assert(q < k);
                                assert(was.contains(x));
                            }
                        }
                    }
                }
                k = k + 1;
            }
            proof {
                let target = Set::new(
                    |x: (Thing, Thing)|
                        exists|j: int, q: int|
                            0 <= j < i + 1 && 0 <= q < ps[j].members().len() && #[trigger] appearance_keys(ps[j].members())[q]
                                == x,
                );
                assert(record.pairs@ == appearance_keys(ps[i as int].members()));
                assert(pairs@.to_set() =~= target) by {
                    assert forall|x: (Thing, Thing)| pairs@.to_set().contains(x) implies target.contains(x) by {
                        if before_pairs.contains(x) {
                            let (j, q) = choose|j: int, q: int|
                                0 <= j < i && 0 <= q < ps[j].members().len() && #[trigger] appearance_keys(ps[j].members())[q] == x;
                            assert(0 <= j < i + 1);
                        } else {
                            let q = choose|q: int| 0 <= q < record.pairs@.len() && #[trigger] record.pairs@[q] == x;
                            assert(appearance_keys(ps[i as int].members())[q] == x);
                        }
                    }
                    assert forall|x: (Thing, Thing)| target.contains(x) implies pairs@.to_set().contains(x) by {
                        let (j, q) = choose|j: int, q: int|
                            0 <= j < i + 1 && 0 <= q < ps[j].members().len() && #[trigger] appearance_keys(ps[j].members())[q] == x;
                        if j < i {
                            assert(before_pairs.contains(x));
                        } else {
                            assert(record.pairs@[q] == x);
                        }
                    }
                }
            }
            let ghost before_captured = captured_views(captured@);
            let ghost before_records = captured@;
            assert(pairs_ordered(record.pairs@));
            captured.push(record);
            assert forall|j: int| 0 <= j < captured@.len() implies pairs_ordered(#[trigger] captured@[j].pairs@) by {
                if j < before_records.len() {
                    assert(captured@[j] == before_records[j]);
                    assert(pairs_ordered(before_records[j].pairs@));
                } else {
                    assert(captured@[j] == record);
                }
            }
            assert(captured_views(captured@) =~= before_captured.push(expected[i as int]));
            assert(expected.take(i + 1) =~= expected.take(i as int).push(expected[i as int]));
            i = i + 1;
        }
        assert(expected.take(posit_count as int) =~= expected);
        let ghost rv = captured_views(captured@);
        let (sets, _) = active_sets(&captured);
        proof {
            lemma_pairs_len(pairs@);
            lemma_sets_len(crate::frames::pair_views(sets@));
            assert(pairs@.to_set() =~= posit_appearances(ps)) by {
                let target = Set::new(
                    |x: (Thing, Thing)|
                        exists|j: int, k: int|
                            0 <= j < posit_count && 0 <= k < ps[j].members().len() && #[trigger] appearance_keys(ps[j].members())[k]
                                == x,
                );
                assert(target =~= posit_appearances(ps));
            }
            assert(record_sets(rv) =~= posit_sets(ps)) by {
                assert forall|p: Seq<(Thing, Thing)>| record_sets(rv).contains(p) implies posit_sets(ps).contains(p) by {
                    let j = choose|j: int| 0 <= j < rv.len() && (#[trigger] rv[j]).pairs == p;
                    assert(rv[j] == expected[j]);
                    assert(appearance_keys(ps[j].members()) == p);
                }
                assert forall|p: Seq<(Thing, Thing)>| posit_sets(ps).contains(p) implies record_sets(rv).contains(p) by {
                    let j = choose|j: int| 0 <= j < ps.len() && #[trigger] appearance_keys(ps[j].members()) == p;
                    assert(rv[j] == expected[j]);
                    assert(rv[j].pairs == p);
                }
            }
        }
        let appearance_count = pairs.len() as u64;
        let set_count = sets.len() as u64;
        let sorted = sort_by_posit(captured);
        proof {
            assert forall|j: int| 0 <= j < sorted@.len() implies pairs_ordered(#[trigger] sorted@[j].pairs@) by {
                assert(from_items(captured@, sorted@[j]@, captured@.len() as int));
                let q = choose|q: int| 0 <= q < captured@.len() && #[trigger] captured@[q]@ == sorted@[j]@;
            }
            vstd::seq_lib::to_multiset_len(captured_views(sorted@));
            vstd::seq_lib::to_multiset_len(captured_views(captured@));
            assert(sorted@.len() == captured@.len());
        }
        if let Err(e) = execution.check() {
            return Err(e);
        }
        let mut role_names: Vec<(Thing, String)> = Vec::new();
        let mut q: usize = 0;
        while q < roles.len()
            invariant
                q <= roles@.len(),
                roles@ == self.roles(),
                names_view(role_names@) == role_catalog(roles@).take(q as int),
            decreases roles@.len() - q,
        {
            let ghost before = names_view(role_names@);
            role_names.push((roles[q].role(), String::from_str(roles[q].name())));
            assert(names_view(role_names@) =~= before.push((roles@[q as int].identity(), roles@[q as int].name_text())));
            assert(role_catalog(roles@).take(q + 1) =~= role_catalog(roles@).take(q as int).push(
                (roles@[q as int].identity(), roles@[q as int].name_text()),
            ));
            q = q + 1;
        }
        assert(role_catalog(roles@).take(roles@.len() as int) =~= role_catalog(roles@));
        Ok(
            CapturedDatabase {
                totals: TerrainDatabaseTotals {
                    referenced_things,
                    roles: role_count,
                    appearances: appearance_count,
                    appearance_sets: set_count,
                    posits: posit_count as u64,
                },
                role_names,
                posits: sorted,
            },
        )
    }
}


// ---------------------------------------------------------------------------
// Reports
// ---------------------------------------------------------------------------

/// The options a plain report is built with.
pub open spec fn default_terrain_options() -> TerrainOptions {
    TerrainOptions {
        as_of: None,
        timeout: None,
        cancellation: None,
        projected_role_limit: DEFAULT_PROJECTED_ROLE_LIMIT,
        max_relationship_signatures: DEFAULT_MAX_RELATIONSHIP_SIGNATURES,
        limits: TerrainLimits {
            posits_scanned: MAX_POSITS_SCANNED,
            active_appearance_sets: MAX_ACTIVE_APPEARANCE_SETS,
            endpoint_things: MAX_ENDPOINT_THINGS,
            temporal_comparisons: MAX_TEMPORAL_COMPARISONS,
            relationship_arity: MAX_RELATIONSHIP_ARITY,
            allocations: MAX_ALLOCATIONS,
        },
    }
}

/// `cutoff` is the cutoff `options` ask for: their `as_of` where they give
/// one; otherwise the time the report was built, which no clause states.
pub open spec fn cutoff_of(options: TerrainOptions, cutoff: Time) -> bool {
    options.as_of matches Some(t) ==> cutoff == t
}

/// What a report of `db` with `options` gives: the refused options; or the
/// report of the database's posits at the cutoff; or the first limit the
/// report passes, a role missing from the catalog, a cancellation or a
/// timeout.
pub open spec fn terrain_outcome(db: Database, options: TerrainOptions, r: Result<TerrainReport, DatabaseError>) -> bool {
    let ps = db.posits();
    let nv = role_catalog(db.roles());
    let l = options.limits;
    let rl = options.projected_role_limit;
    let sl = options.max_relationship_signatures;
    match limits_error(options) {
        Some(e) => r == Err::<TerrainReport, DatabaseError>(e),
        None => {
            &&& r matches Ok(rep) ==> ps.len() <= l.posits_scanned && exists|rv: Seq<CapturedView>, cutoff: Time|
                captures(rv, ps) && cutoff_of(options, cutoff) && !aggregate_fails(rv, nv, cutoff, l, rl, sl) && report_of(
                    rep,
                    rv,
                    nv,
                    database_totals(db),
                    cutoff,
                    rl,
                    sl,
                )
            &&& r matches Err(e) ==> {
                ||| (e is Cancelled && options.cancellation is Some)
                ||| (e is Timeout && options.timeout is Some)
                ||| (options.timeout is Some && e is Execution)
                ||| (options.as_of is None && clock_failure(e))
                ||| (e == limit_error("posits scanned", l.posits_scanned) && ps.len() > l.posits_scanned)
                ||| (ps.len() <= l.posits_scanned && exists|rv: Seq<CapturedView>, cutoff: Time|
                    captures(rv, ps) && cutoff_of(options, cutoff) && aggregate_error(e, rv, nv, cutoff, l, rl, sl))
            }
            &&& ps.len() > l.posits_scanned ==> r is Err
            &&& (options.timeout is None && options.cancellation is None && ps.len() <= l.posits_scanned && (
            forall|rv: Seq<CapturedView>, cutoff: Time|
                #![trigger captures(rv, ps), cutoff_of(options, cutoff)]
                captures(rv, ps) && cutoff_of(options, cutoff) ==> !aggregate_fails(rv, nv, cutoff, l, rl, sl)))
                ==> (r is Ok || (options.as_of is None && (r matches Err(e) && clock_failure(e))))
        },
    }
}

/// The error of a report whose cutoff is the current time when the system
/// clock cannot be read as a date-time.
pub open spec fn clock_failure(e: DatabaseError) -> bool {
    e matches DatabaseError::Execution(m) && m@ == "system clock reads before the Unix epoch"@
}

impl Database {
    /// The Terrain report of the database with the default options: at the
    /// current time, projecting up to eight attribute roles and cataloging
    /// up to sixteen relationship signatures, within the hard limits.
    pub fn terrain(&self) -> (r: Result<TerrainReport, DatabaseError>)
        ensures
            terrain_outcome(*self, default_terrain_options(), r),
    {
        let options = TerrainOptions::default();
        assert(options == default_terrain_options());
        self.terrain_with_options(options)
    }

    /// The Terrain report of the database: the history and current frames
    /// of its posits at the cutoff, with their profiles, isopleths and
    /// relationships, within the limits of `options`.
    pub fn terrain_with_options(&self, options: TerrainOptions) -> (r: Result<TerrainReport, DatabaseError>)
        ensures
            terrain_outcome(*self, options, r),
    {
        let mut execution = match TerrainExecution::new(&options) {
            Ok(execution) => execution,
            Err(e) => {
                return Err(e);
            },
        };
        let cutoff = match &options.as_of {
            Some(t) => *t,
            None => match Time::new() {
                Some(now) => now,
                None => {
                    return Err(DatabaseError::Execution(String::from_str("system clock reads before the Unix epoch")));
                },
            },
        };
        if let Err(e) = execution.check() {
            return Err(e);
        }
        let captured = match self.capture_terrain(&execution) {
            Ok(c) => c,
            Err(e) => {
                return Err(e);
            },
        };
        if let Err(e) = execution.check() {
            return Err(e);
        }
        let ghost rv = captured_views(captured.posits@);
        let result = aggregate(
            captured,
            cutoff,
            options.projected_role_limit,
            options.max_relationship_signatures,
            &mut execution,
        );
        proof {
            assert(captures(rv, self.posits()));
            assert(cutoff_of(options, cutoff));
        }
        result
    }
}

// ---------------------------------------------------------------------------
// Execution bookkeeping
// ---------------------------------------------------------------------------

/// `e` is an interruption that `execution` admits: a cancellation through
/// the caller's token, or a timeout against its deadline.
pub open spec fn interrupted(e: DatabaseError, execution: TerrainExecution) -> bool {
    ||| (e is Cancelled && execution.has_token())
    ||| (e is Timeout && execution.has_deadline())
}

/// `a` and `b` can be interrupted in the same ways.
pub open spec fn same_interruptions(a: TerrainExecution, b: TerrainExecution) -> bool {
    a.has_token() == b.has_token() && a.has_deadline() == b.has_deadline()
}


/// The instant `timeout` from now, with `Instant::now` and
/// `Instant::checked_add`. Nothing is claimed: the answer depends on the
/// clock.
#[verifier::external_body]
fn deadline_after(timeout: Duration) -> (d: Option<Instant>) {
    Instant::now().checked_add(timeout)
}

/// Whether `deadline` has passed, with `Instant::now`. Nothing is claimed:
/// the answer depends on the clock.
#[verifier::external_body]
fn deadline_passed(deadline: &Instant) -> (b: bool) {
    Instant::now() >= *deadline
}

/// The first configured limit above its hard maximum, with the error it
/// gives, in the order the limits are checked.
pub open spec fn limits_error(options: TerrainOptions) -> Option<DatabaseError> {
    let l = options.limits;
    if l.posits_scanned > MAX_POSITS_SCANNED {
        Some(limit_error("posits scanned", MAX_POSITS_SCANNED))
    } else if l.active_appearance_sets > MAX_ACTIVE_APPEARANCE_SETS {
        Some(limit_error("active appearance sets", MAX_ACTIVE_APPEARANCE_SETS))
    } else if l.endpoint_things > MAX_ENDPOINT_THINGS {
        Some(limit_error("endpoint Things", MAX_ENDPOINT_THINGS))
    } else if l.temporal_comparisons > MAX_TEMPORAL_COMPARISONS {
        Some(limit_error("temporal comparisons", MAX_TEMPORAL_COMPARISONS))
    } else if l.relationship_arity > MAX_RELATIONSHIP_ARITY {
        Some(limit_error("relationship arity", MAX_RELATIONSHIP_ARITY))
    } else if l.allocations > MAX_ALLOCATIONS {
        Some(limit_error("allocations", MAX_ALLOCATIONS))
    } else if options.projected_role_limit > MAX_PROJECTED_ROLE_LIMIT {
        Some(limit_error("projected attribute Roles", MAX_PROJECTED_ROLE_LIMIT as u64))
    } else if options.max_relationship_signatures > MAX_RELATIONSHIP_SIGNATURES {
        Some(limit_error("relationship signatures", MAX_RELATIONSHIP_SIGNATURES as u64))
    } else {
        None
    }
}

/// The running state of one report: its deadline, its cancellation token,
/// its limits and the temporal comparisons made so far.
pub struct TerrainExecution {
    deadline: Option<Instant>,
    cancellation: Option<CancellationToken>,
    limits: TerrainLimits,
    temporal_comparisons: u64,
}

impl TerrainExecution {
    pub closed spec fn limits_spec(&self) -> TerrainLimits {
        self.limits
    }

    pub closed spec fn comparisons(&self) -> u64 {
        self.temporal_comparisons
    }

    /// Whether this report runs against a deadline.
    pub closed spec fn has_deadline(&self) -> bool {
        self.deadline is Some
    }

    /// Whether this report can be cancelled through a caller's token.
    pub closed spec fn has_token(&self) -> bool {
        self.cancellation is Some
    }

    /// The limits of this report.
    pub fn limits(&self) -> (l: &TerrainLimits)
        ensures
            *l == self.limits_spec(),
    {
        &self.limits
    }

    /// Validates the options and starts the clock.
    pub fn new(options: &TerrainOptions) -> (r: Result<Self, DatabaseError>)
        ensures
            limits_error(*options) matches Some(e) ==> r == Err::<Self, DatabaseError>(e),
            limits_error(*options) is None ==> match r {
                Ok(execution) => execution.limits_spec() == options.limits && execution.comparisons() == 0
                    && execution.has_deadline() == options.timeout is Some
                    && execution.has_token() == options.cancellation is Some,
                Err(e) => options.timeout is Some && e matches DatabaseError::Execution(_),
            },
            limits_error(*options) is None && options.timeout is None ==> r is Ok,
    {
        let l = &options.limits;
        validate_limit("posits scanned", l.posits_scanned, MAX_POSITS_SCANNED)?;
        validate_limit("active appearance sets", l.active_appearance_sets, MAX_ACTIVE_APPEARANCE_SETS)?;
        validate_limit("endpoint Things", l.endpoint_things, MAX_ENDPOINT_THINGS)?;
        validate_limit("temporal comparisons", l.temporal_comparisons, MAX_TEMPORAL_COMPARISONS)?;
        validate_limit("relationship arity", l.relationship_arity, MAX_RELATIONSHIP_ARITY)?;
        validate_limit("allocations", l.allocations, MAX_ALLOCATIONS)?;
        if options.projected_role_limit > MAX_PROJECTED_ROLE_LIMIT {
            return Err(resource_limit("projected attribute Roles", MAX_PROJECTED_ROLE_LIMIT as u64));
        }
        if options.max_relationship_signatures > MAX_RELATIONSHIP_SIGNATURES {
            return Err(resource_limit("relationship signatures", MAX_RELATIONSHIP_SIGNATURES as u64));
        }
        let deadline = match options.timeout {
            Some(timeout) => match deadline_after(timeout) {
                Some(d) => Some(d),
                None => {
                    return Err(DatabaseError::Execution(String::from_str("Terrain timeout is too large")));
                },
            },
            None => None,
        };
        let cancellation = match &options.cancellation {
            Some(token) => Some(token.clone()),
            None => None,
        };
        Ok(TerrainExecution {
            deadline,
            cancellation,
            limits: TerrainLimits {
                posits_scanned: l.posits_scanned,
                active_appearance_sets: l.active_appearance_sets,
                endpoint_things: l.endpoint_things,
                temporal_comparisons: l.temporal_comparisons,
                relationship_arity: l.relationship_arity,
                allocations: l.allocations,
            },
            temporal_comparisons: 0,
        })
    }

    /// Fails when cancellation was requested or the deadline passed.
    pub fn check(&self) -> (r: Result<(), DatabaseError>)
        ensures
            r matches Err(e) ==> interrupted(e, *self),
            !self.has_token() && !self.has_deadline() ==> r is Ok,
    {
        if let Some(token) = &self.cancellation {
            if token.is_cancelled() {
                return Err(DatabaseError::Cancelled);
            }
        }
        match &self.deadline {
            Some(deadline) => if deadline_passed(deadline) {
                Err(DatabaseError::Timeout)
            } else {
                Ok(())
            },
            None => Ok(()),
        }
    }

    /// Checks once every 1024 steps.
    pub fn checkpoint(&self, index: usize) -> (r: Result<(), DatabaseError>)
        ensures
            index % 1024 != 0 ==> r is Ok,
            r matches Err(e) ==> interrupted(e, *self),
            !self.has_token() && !self.has_deadline() ==> r is Ok,
    {
        if index % 1024 == 0 {
            self.check()
        } else {
            Ok(())
        }
    }

    /// Counts one temporal comparison, failing once the limit is passed.
    pub fn temporal_comparison(&mut self) -> (r: Result<(), DatabaseError>)
        ensures
            old(self).comparisons() == u64::MAX ==> r == Err::<(), DatabaseError>(
                limit_error("temporal comparisons", u64::MAX),
            ),
            old(self).comparisons() < u64::MAX && r is Ok ==> final(self).comparisons()
                == old(self).comparisons() + 1 && final(self).comparisons()
                <= old(self).limits_spec().temporal_comparisons,
            old(self).comparisons() < u64::MAX && old(self).comparisons() + 1
                > old(self).limits_spec().temporal_comparisons ==> r == Err::<(), DatabaseError>(
                limit_error("temporal comparisons", old(self).limits_spec().temporal_comparisons),
            ),
            final(self).limits_spec() == old(self).limits_spec(),
            same_interruptions(*final(self), *old(self)),
            old(self).comparisons() < u64::MAX && old(self).comparisons() + 1
                <= old(self).limits_spec().temporal_comparisons ==> (r is Ok || (r matches Err(e) && interrupted(
                e,
                *old(self),
            ))),
    {
        let next = checked_add(self.temporal_comparisons, 1, "temporal comparisons")?;
        self.temporal_comparisons = next;
        if next > self.limits.temporal_comparisons {
            return Err(resource_limit("temporal comparisons", self.limits.temporal_comparisons));
        }
        if next % 1024 == 0 {
            self.check()?;
        }
        Ok(())
    }
}

} // verus!
