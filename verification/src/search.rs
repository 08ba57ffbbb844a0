//! The candidate posits of a search pattern: those whose appearance set holds
//! every role the pattern names, at the pattern's time and with a value
//! nominally equal to the pattern's value, where it gives them.

use crate::command::{increasing_of, lemma_increasing_of, BindingMap, Bindings};
use crate::conditions::{
    filter_rows_by_value, filter_rows_by_value_pairs, pair_filter, value_filter, ValueCondition, ValueOperator,
};
use crate::construct::{appearance_keys, identity_index, role_named, Appearance, Database, Posit, Role, Thing};
use crate::datatype::{time_text, Time};
use crate::error::DatabaseError;
use crate::literal::{nominal_outcome, LiteralValue};
use crate::results::ResultSet;
use crate::text::decimal_text;
use crate::traqula::{ResultCell, ResultCellKind};
use crate::unicode::nfc_text;
use vstd::prelude::*;

verus! {

/// Every name is that of a kept role.
pub open spec fn all_named(roles: Seq<Role>, names: Seq<Seq<char>>) -> bool {
    forall|k: int| 0 <= k < names.len() ==> role_named(roles, nfc_text(#[trigger] names[k])) is Some
}

/// The identities of the roles the names name.
pub open spec fn named_identities(roles: Seq<Role>, names: Seq<Seq<char>>) -> Seq<Thing> {
    names.map_values(|n: Seq<char>| role_named(roles, nfc_text(n))->0.identity())
}

/// A role of identity `role` appears in the posit.
pub open spec fn has_role(p: Posit, role: Thing) -> bool {
    exists|k: int| 0 <= k < p.members().len() && #[trigger] appearance_keys(p.members())[k].0 == role
}

/// The posit holds every one of the roles, and is at the time where one is
/// given.
pub open spec fn pattern_admits(p: Posit, roles: Seq<Thing>, time: Option<Time>) -> bool {
    &&& forall|j: int| 0 <= j < roles.len() ==> has_role(p, #[trigger] roles[j])
    &&& time matches Some(t) ==> p.time_spec() == t
}

/// What nominal equality answers for the posit's value and `value`.
pub open spec fn value_outcome(p: Posit, value: LiteralValue) -> Option<bool> {
    nominal_outcome(p.value_family(), p.value_token(), value.family_spec(), value.token_spec())
}

/// The posit is a candidate: admitted by roles and time, and nominally equal
/// to the value where one is given.
pub open spec fn candidate(p: Posit, roles: Seq<Thing>, time: Option<Time>, value: Option<LiteralValue>) -> bool {
    &&& pattern_admits(p, roles, time)
    &&& value matches Some(v) ==> value_outcome(p, v) == Some(true)
}

/// A posit admitted by roles and time whose value cannot be compared with
/// `value`.
pub open spec fn incomparable_candidate(ps: Seq<Posit>, roles: Seq<Thing>, time: Option<Time>, value: Option<LiteralValue>) -> bool {
    value matches Some(v) && exists|i: int|
        0 <= i < ps.len() && pattern_admits(#[trigger] ps[i], roles, time) && value_outcome(ps[i], v) is None
}

/// The identities of the candidates among the posits.
pub open spec fn candidate_identities(
    ps: Seq<Posit>,
    roles: Seq<Thing>,
    time: Option<Time>,
    value: Option<LiteralValue>,
) -> Set<Thing>
    decreases ps.len(),
{
    if ps.len() == 0 {
        Set::empty()
    } else {
        let rest = candidate_identities(ps.drop_last(), roles, time, value);
        if candidate(ps.last(), roles, time, value) {
            rest.insert(ps.last().identity())
        } else {
            rest
        }
    }
}

/// A posit's identity is among the candidates exactly when some posit of
/// that identity holds every one of the roles, is at the time where one is
/// given, and has a value nominally equal to the value where one is given.
pub proof fn candidates_are_the_posits_the_pattern_admits(
    ps: Seq<Posit>,
    roles: Seq<Thing>,
    time: Option<Time>,
    value: Option<LiteralValue>,
    t: Thing,
)
    ensures
        candidate_identities(ps, roles, time, value).contains(t) <==> exists|i: int|
            0 <= i < ps.len() && (#[trigger] ps[i]).identity() == t && (forall|j: int|
                0 <= j < roles.len() ==> has_role(ps[i], #[trigger] roles[j])) && (time matches Some(at) ==> ps[i].time_spec()
                == at) && (value matches Some(v) ==> value_outcome(ps[i], v) == Some(true)),
    decreases ps.len(),
{
    if ps.len() > 0 {
        let rest = ps.drop_last();
        candidates_are_the_posits_the_pattern_admits(rest, roles, time, value, t);
        if exists|i: int|
            0 <= i < ps.len() && (#[trigger] ps[i]).identity() == t && (forall|j: int|
                0 <= j < roles.len() ==> has_role(ps[i], #[trigger] roles[j])) && (time matches Some(at) ==> ps[i].time_spec()
                == at) && (value matches Some(v) ==> value_outcome(ps[i], v) == Some(true)) {
            let i = choose|i: int|
                0 <= i < ps.len() && (#[trigger] ps[i]).identity() == t && (forall|j: int|
                    0 <= j < roles.len() ==> has_role(ps[i], #[trigger] roles[j])) && (time matches Some(at)
                    ==> ps[i].time_spec() == at) && (value matches Some(v) ==> value_outcome(ps[i], v) == Some(true));
            if i < ps.len() - 1 {
                assert(rest[i] == ps[i]);
            }
        }
        if candidate_identities(rest, roles, time, value).contains(t) {
            let i = choose|i: int|
                0 <= i < rest.len() && (#[trigger] rest[i]).identity() == t && (forall|j: int|
                    0 <= j < roles.len() ==> has_role(rest[i], #[trigger] roles[j])) && (time matches Some(at)
                    ==> rest[i].time_spec() == at) && (value matches Some(v) ==> value_outcome(rest[i], v) == Some(true));
            assert(ps[i] == rest[i]);
        }
    }
}

/// The candidates the slots keep are candidates, and each is a posit that
/// every slot admits.
pub proof fn constrained_candidates_are_admitted(
    ps: Seq<Posit>,
    candidates: Set<Thing>,
    terms: Seq<SearchTerm>,
    b: BindingMap,
    t: Thing,
)
    ensures
        constrained_identities(ps, candidates, terms, b).contains(t) <==> candidates.contains(t) && exists|i: int|
            0 <= i < ps.len() && (#[trigger] ps[i]).identity() == t && terms_admit(ps[i], terms, b),
    decreases ps.len(),
{
    if ps.len() > 0 {
        let rest = ps.drop_last();
        constrained_candidates_are_admitted(rest, candidates, terms, b, t);
        if exists|i: int| 0 <= i < ps.len() && (#[trigger] ps[i]).identity() == t && terms_admit(ps[i], terms, b) {
            let i = choose|i: int| 0 <= i < ps.len() && (#[trigger] ps[i]).identity() == t && terms_admit(ps[i], terms, b);
            if i < ps.len() - 1 {
                assert(rest[i] == ps[i]);
            }
        }
        if constrained_identities(rest, candidates, terms, b).contains(t) {
            let i = choose|i: int| 0 <= i < rest.len() && (#[trigger] rest[i]).identity() == t && terms_admit(rest[i], terms, b);
            assert(ps[i] == rest[i]);
        }
    }
}

/// Whether a role of identity `role` appears in the posit.
fn holds_role(posit: &Posit, role: Thing) -> (r: bool)
    ensures
        r == has_role(*posit, role),
{
    let set = posit.appearance_set();
    let members = set.appearances();
    let mut k: usize = 0;
    while k < members.len()
        invariant
            k <= members@.len(),
            members@ == posit.members(),
            forall|q: int| 0 <= q < k ==> #[trigger] appearance_keys(posit.members())[q].0 != role,
        decreases members@.len() - k,
    {
        if members[k].role().role() == role {
            assert(appearance_keys(posit.members())[k as int].0 == role);
            return true;
        }
        k = k + 1;
    }
    false
}

/// The candidate posits of a search pattern: its role names found among the
/// kept roles, then the posits that hold all of those roles, at `time` where
/// it is given, with a value nominally equal to `value` where it is given.
/// An unknown role name fails with `UnknownRole`; a value that cannot be
/// compared with that of a posit the roles and time admit fails with
/// `Execution`.
pub fn pattern_candidates(
    database: &Database,
    role_names: &Vec<String>,
    time: Option<Time>,
    value: &Option<LiteralValue>,
) -> (r: Result<ResultSet, DatabaseError>)
    ensures
        !all_named(database.roles(), role_names@.map_values(|n: String| n@)) ==> (r matches Err(e) && e is UnknownRole),
        all_named(database.roles(), role_names@.map_values(|n: String| n@)) ==> match r {
            Ok(set) => !incomparable_candidate(
                database.posits(),
                named_identities(database.roles(), role_names@.map_values(|n: String| n@)),
                time,
                *value,
            ) && set.members() == candidate_identities(
                database.posits(),
                named_identities(database.roles(), role_names@.map_values(|n: String| n@)),
                time,
                *value,
            ),
            Err(e) => e is Execution && incomparable_candidate(
                database.posits(),
                named_identities(database.roles(), role_names@.map_values(|n: String| n@)),
                time,
                *value,
            ),
        },
{
    let ghost names = role_names@.map_values(|n: String| n@);
    let ghost roles = database.roles();
    let keeper = database.role_keeper();
    let mut ids: Vec<Thing> = Vec::new();
    let mut k: usize = 0;
    while k < role_names.len()
        invariant
            k <= role_names@.len(),
            names == role_names@.map_values(|n: String| n@),
            roles == database.roles(),
            keeper.roles() == roles,
            ids@.len() == k,
            forall|j: int| 0 <= j < k ==> role_named(roles, nfc_text(#[trigger] names[j])) is Some,
            forall|j: int| 0 <= j < k ==> #[trigger] ids@[j] == named_identities(roles, names)[j],
        decreases role_names@.len() - k,
    {
        assert(names[k as int] == role_names@[k as int]@);
        let role = match keeper.get(role_names[k].as_str()) {
            Some(role) => role,
            None => {
                return Err(DatabaseError::UnknownRole(role_names[k].clone()));
            },
        };
        ids.push(role.role());
        k = k + 1;
    }
    let ghost rids = named_identities(roles, names);
    assert(ids@ =~= rids);
    assert(all_named(roles, names));
    let posits = database.posit_keeper();
    let ghost ps = database.posits();
    let n = posits.len();
    let mut out = ResultSet::new();
    let mut i: usize = 0;
    while i < n
        invariant
            ps == database.posits(),
            ps == posits.posits(),
            n == ps.len(),
            i <= n,
            ids@ == rids,
            names == role_names@.map_values(|n: String| n@),
            roles == database.roles(),
            all_named(roles, names),
            rids == named_identities(roles, names),
            out.members() == candidate_identities(ps.take(i as int), rids, time, *value),
            !incomparable_candidate(ps.take(i as int), rids, time, *value),
        decreases n - i,
    {
        let posit = posits.get(i);
        let mut admitted = match time {
            Some(t) => *posit.time() == t,
            None => true,
        };
        let mut j: usize = 0;
        while j < ids.len() && admitted
            invariant
                j <= ids@.len(),
                ids@ == rids,
                admitted ==> (time matches Some(t) ==> posit.time_spec() == t),
                admitted ==> forall|q: int| 0 <= q < j ==> has_role(*posit, #[trigger] rids[q]),
                !admitted ==> !pattern_admits(*posit, rids, time),
            decreases ids@.len() - j,
        {
            if !holds_role(posit, ids[j]) {
                admitted = false;
            }
            j = j + 1;
        }
        assert(admitted == pattern_admits(*posit, rids, time));
        let keep = if !admitted {
            false
        } else {
            match value {
                Some(v) => match posit.value().nominally_equals(v) {
                    Ok(equal) => equal,
                    Err(error) => {
                        proof {
                            assert(ps[i as int] == *posit);
                            assert(value_outcome(ps[i as int], *v) is None);
                            assert(pattern_admits(ps[i as int], rids, time));
                            assert(incomparable_candidate(ps, rids, time, *value));
                        }
                        return Err(DatabaseError::Execution(error));
                    },
                },
                None => true,
            }
        };
        proof {
            assert(keep == candidate(*posit, rids, time, *value));
        }
        if keep {
            out.insert(posit.posit());
        }
        proof {
            let next = ps.take(i + 1);
            assert(next.drop_last() =~= ps.take(i as int));
            assert(next.last() == ps[i as int]);
            assert(ps[i as int] == *posit);
            if incomparable_candidate(next, rids, time, *value) {
                let w = choose|w: int|
                    0 <= w < next.len() && pattern_admits(#[trigger] next[w], rids, time) && value_outcome(
                        next[w],
                        value->0,
                    ) is None;
                if w < i {
                    assert(ps.take(i as int)[w] == next[w]);
                }
            }
        }
        i = i + 1;
    }
    assert(ps.take(n as int) =~= ps);
    Ok(out)
}

// ---------------------------------------------------------------------------
// Identity slots and their variables
// ---------------------------------------------------------------------------

/// What an identity slot of a search pattern holds.
#[derive(Debug)]
pub enum SearchSlot {
    /// `+x`: a variable the search introduces.
    Insert(String),
    /// `x`: a variable bound before.
    Recall(String),
    /// `*`: any thing.
    Wildcard,
}

/// An identity slot in a role, the role given by name.
#[derive(Debug)]
pub struct SearchTerm {
    pub slot: SearchSlot,
    pub role: String,
}

/// A posit pattern of a search: its identity slots, the variable its posits
/// are bound to, the time and value it asks for where it gives them, and the
/// variables standing for the value and time of what it finds.
#[derive(Debug)]
pub struct SearchPattern {
    pub variable: Option<String>,
    pub terms: Vec<SearchTerm>,
    pub time: Option<Time>,
    pub value: Option<LiteralValue>,
    /// The variable standing for the value of each posit found, if any.
    pub value_variable: Option<String>,
    /// The variable standing for the time of each posit found, if any.
    pub time_variable: Option<String>,
}

/// The variable of a slot, none for `*`.
pub open spec fn slot_variable(slot: SearchSlot) -> Option<Seq<char>> {
    match slot {
        SearchSlot::Insert(v) => Some(v@),
        SearchSlot::Recall(v) => Some(v@),
        SearchSlot::Wildcard => None,
    }
}

/// The role names of the slots.
pub open spec fn term_roles(terms: Seq<SearchTerm>) -> Seq<Seq<char>> {
    terms.map_values(|t: SearchTerm| t.role@)
}

/// The variables introduced by the slots are declared, in order, where they
/// are not bound already.
pub open spec fn declared(b: BindingMap, terms: Seq<SearchTerm>) -> BindingMap
    decreases terms.len(),
{
    if terms.len() == 0 {
        b
    } else {
        let before = declared(b, terms.drop_last());
        match terms.last().slot {
            SearchSlot::Insert(v) => if before.contains_key(v@) {
                before
            } else {
                before.insert(v@, Set::<Thing>::empty())
            },
            _ => before,
        }
    }
}

/// Every recalled variable is bound.
pub open spec fn recalls_bound(terms: Seq<SearchTerm>, b: BindingMap) -> bool {
    forall|k: int| 0 <= k < terms.len() ==> (#[trigger] terms[k].slot matches SearchSlot::Recall(v) ==> b.contains_key(v@))
}

/// The thing of the first appearance whose role bears the name.
pub open spec fn thing_named(ms: Seq<Appearance>, name: Seq<char>) -> Option<Thing>
    decreases ms.len(),
{
    if ms.len() == 0 {
        None
    } else if ms[0].role_spec().name_text() == name {
        Some(ms[0].thing_spec())
    } else {
        thing_named(ms.drop_first(), name)
    }
}

/// A variable standing for things admits one of them; an unbound variable,
/// or one standing for no thing yet, admits any thing.
pub open spec fn binding_admits(b: BindingMap, v: Seq<char>, t: Thing) -> bool {
    !b.contains_key(v) || b[v].is_empty() || b[v].contains(t)
}

/// The posit has a thing in the slot's role that the slot's variable admits.
pub open spec fn term_admits(p: Posit, t: SearchTerm, b: BindingMap) -> bool {
    match slot_variable(t.slot) {
        None => true,
        Some(v) => match thing_named(p.members(), t.role@) {
            Some(x) => binding_admits(b, v, x),
            None => false,
        },
    }
}

/// Every slot admits the posit.
pub open spec fn terms_admit(p: Posit, terms: Seq<SearchTerm>, b: BindingMap) -> bool {
    forall|k: int| 0 <= k < terms.len() ==> term_admits(p, #[trigger] terms[k], b)
}

/// The identities of the candidates that every slot admits.
pub open spec fn constrained_identities(
    ps: Seq<Posit>,
    candidates: Set<Thing>,
    terms: Seq<SearchTerm>,
    b: BindingMap,
) -> Set<Thing>
    decreases ps.len(),
{
    if ps.len() == 0 {
        Set::empty()
    } else {
        let rest = constrained_identities(ps.drop_last(), candidates, terms, b);
        if candidates.contains(ps.last().identity()) && terms_admit(ps.last(), terms, b) {
            rest.insert(ps.last().identity())
        } else {
            rest
        }
    }
}

/// `b` with `v` standing also for the things of `s`.
pub open spec fn bind_set(b: BindingMap, v: Seq<char>, s: Set<Thing>) -> BindingMap {
    b.insert(v, if b.contains_key(v) { b[v].union(s) } else { s })
}

/// Declares the variables the slots introduce.
fn declare_inserts(terms: &Vec<SearchTerm>, bindings: &mut Bindings)
    ensures
        final(bindings).map() == declared(old(bindings).map(), terms@),
{
    let mut k: usize = 0;
    while k < terms.len()
        invariant
            k <= terms@.len(),
            bindings.map() == declared(old(bindings).map(), terms@.take(k as int)),
        decreases terms@.len() - k,
    {
        assert(terms@.take(k + 1).drop_last() =~= terms@.take(k as int));
        assert(terms@.take(k + 1).last() == terms@[k as int]);
        match &terms[k].slot {
            SearchSlot::Insert(v) => {
                bindings.declare(v.as_str());
            },
            _ => {},
        }
        k = k + 1;
    }
    assert(terms@.take(terms@.len() as int) =~= terms@);
}

/// Fails where a recalled variable is not bound.
fn check_recalls(terms: &Vec<SearchTerm>, bindings: &Bindings) -> (r: Result<(), DatabaseError>)
    ensures
        r is Ok <==> recalls_bound(terms@, bindings.map()),
        r matches Err(e) ==> e is Execution,
{
    let mut k: usize = 0;
    while k < terms.len()
        invariant
            k <= terms@.len(),
            forall|j: int| 0 <= j < k ==> (#[trigger] terms@[j].slot matches SearchSlot::Recall(v) ==> bindings.map().contains_key(v@)),
        decreases terms@.len() - k,
    {
        match &terms[k].slot {
            SearchSlot::Recall(v) => {
                if bindings.lookup(v.as_str()).is_none() {
                    return Err(DatabaseError::Execution(crate::text::text("a recalled variable is not bound in a prior command")));
                }
            },
            _ => {},
        }
        k = k + 1;
    }
    Ok(())
}

/// The thing of the first appearance of the posit whose role bears `name`.
fn thing_for_name(posit: &Posit, name: &str) -> (r: Option<Thing>)
    ensures
        r == thing_named(posit.members(), name@),
{
    let set = posit.appearance_set();
    let members = set.appearances();
    let n = members.len();
    let mut k: usize = 0;
    assert(members@.subrange(0, n as int) =~= members@);
    while k < n
        invariant
            k <= n,
            n == members@.len(),
            members@ == posit.members(),
            thing_named(members@, name@) == thing_named(members@.subrange(k as int, n as int), name@),
        decreases n - k,
    {
        let role = members[k].role();
        if crate::terrain::same_text(role.name(), name) {
            return Some(members[k].thing());
        }
        assert(members@.subrange(k as int, n as int).drop_first() =~= members@.subrange(k + 1, n as int));
        k = k + 1;
    }
    None
}

/// Whether the variable admits the thing.
fn admits(bindings: &Bindings, v: &str, t: Thing) -> (r: bool)
    ensures
        r == binding_admits(bindings.map(), v@, t),
{
    match bindings.lookup(v) {
        None => true,
        Some(things) => {
            if things.len() == 0 {
                assert(things@.to_set() =~= Set::<Thing>::empty());
                assert(bindings.map()[v@].is_empty());
                return true;
            }
            assert(things@.to_set().contains(things@[0]));
            let mut k: usize = 0;
            while k < things.len()
                invariant
                    k <= things@.len(),
                    things@.to_set() == bindings.map()[v@],
                    bindings.map().contains_key(v@),
                    forall|j: int| 0 <= j < k ==> things@[j] != t,
                decreases things@.len() - k,
            {
                if things[k] == t {
                    assert(things@.to_set().contains(things@[k as int]));
                    return true;
                }
                k = k + 1;
            }
            assert(!things@.to_set().contains(t));
            false
        },
    }
}

/// The candidates that every slot of the pattern admits.
fn constrain_candidates(database: &Database, candidates: &ResultSet, terms: &Vec<SearchTerm>, bindings: &Bindings) -> (r: ResultSet)
    ensures
        r.members() == constrained_identities(database.posits(), candidates.members(), terms@, bindings.map()),
{
    let posits = database.posit_keeper();
    let ghost ps = database.posits();
    let ghost b = bindings.map();
    let n = posits.len();
    let mut out = ResultSet::new();
    let mut i: usize = 0;
    while i < n
        invariant
            ps == database.posits(),
            ps == posits.posits(),
            n == ps.len(),
            i <= n,
            b == bindings.map(),
            out.members() == constrained_identities(ps.take(i as int), candidates.members(), terms@, b),
        decreases n - i,
    {
        let posit = posits.get(i);
        let mut keep = candidates.contains(posit.posit());
        let mut k: usize = 0;
        while k < terms.len() && keep
            invariant
                k <= terms@.len(),
                b == bindings.map(),
                keep ==> candidates.members().contains(posit.identity()),
                keep ==> forall|q: int| 0 <= q < k ==> term_admits(*posit, #[trigger] terms@[q], b),
                !keep ==> !(candidates.members().contains(posit.identity()) && terms_admit(*posit, terms@, b)),
            decreases terms@.len() - k,
        {
            let term = &terms[k];
            let ok = match &term.slot {
                SearchSlot::Wildcard => true,
                SearchSlot::Insert(v) | SearchSlot::Recall(v) => match thing_for_name(posit, term.role.as_str()) {
                    Some(x) => admits(bindings, v.as_str(), x),
                    None => false,
                },
            };
            assert(ok == term_admits(*posit, terms@[k as int], b));
            if !ok {
                keep = false;
            }
            k = k + 1;
        }
        if keep {
            out.insert(posit.posit());
        }
        proof {
            let next = ps.take(i + 1);
            assert(next.drop_last() =~= ps.take(i as int));
            assert(next.last() == ps[i as int]);
        }
        i = i + 1;
    }
    assert(ps.take(n as int) =~= ps);
    out
}

/// Adds the things of `set` to those `v` stands for.
fn bind_result_set(bindings: &mut Bindings, v: &str, set: &ResultSet)
    ensures
        final(bindings).map() == bind_set(old(bindings).map(), v@, set.members()),
{
    let ghost b0 = old(bindings).map();
    let ghost base = if b0.contains_key(v@) {
        b0[v@]
    } else {
        Set::<Thing>::empty()
    };
    bindings.declare(v);
    let things = set.things();
    let mut k: usize = 0;
    proof {
        assert(things@.take(0).to_set() =~= Set::<Thing>::empty());
        assert(base.union(things@.take(0).to_set()) =~= base);
        assert(bindings.map() =~= b0.insert(v@, base.union(things@.take(0).to_set())));
    }
    while k < things.len()
        invariant
            k <= things@.len(),
            bindings.map() == b0.insert(v@, base.union(things@.take(k as int).to_set())),
        decreases things@.len() - k,
    {
        let ghost before = bindings.map();
        bindings.bind(v, things[k]);
        proof {
            let now = things@.take(k + 1).to_set();
            let was = things@.take(k as int).to_set();
            assert(things@.take(k + 1) =~= things@.take(k as int).push(things@[k as int]));
            assert(now =~= was.insert(things@[k as int])) by {
                assert forall|x: Thing| now.contains(x) <==> was.insert(things@[k as int]).contains(x) by {
                    if now.contains(x) {
                        let j = choose|j: int| 0 <= j < k + 1 && #[trigger] things@.take(k + 1)[j] == x;
                        if j < k {
                            assert(things@.take(k as int)[j] == x);
                        }
                    }
                    if was.contains(x) {
                        let j = choose|j: int| 0 <= j < k && #[trigger] things@.take(k as int)[j] == x;
                        assert(things@.take(k + 1)[j] == x);
                    }
                    if x == things@[k as int] {
                        assert(things@.take(k + 1)[k as int] == x);
                    }
                }
            }
            assert(base.union(now) =~= base.union(was).insert(things@[k as int]));
            assert(bindings.map() =~= b0.insert(v@, base.union(now)));
        }
        k = k + 1;
    }
    proof {
        assert(things@.take(things@.len() as int) =~= things@);
        if b0.contains_key(v@) {
            assert(bindings.map() =~= bind_set(b0, v@, set.members()));
        } else {
            assert(base.union(set.members()) =~= set.members());
            assert(bindings.map() =~= bind_set(b0, v@, set.members()));
        }
    }
}

/// What one posit pattern finds from the bindings `b0`, and the bindings
/// after it; `None` where it fails.
pub open spec fn pattern_result(ps: Seq<Posit>, roles: Seq<Role>, pattern: SearchPattern, b0: BindingMap) -> Option<
    (Set<Thing>, BindingMap),
> {
    let b1 = declared(b0, pattern.terms@);
    let names = term_roles(pattern.terms@);
    let ids = named_identities(roles, names);
    if pattern.terms@.len() == 0 {
        Some((Set::empty(), b0))
    } else if all_named(roles, names) && !incomparable_candidate(ps, ids, pattern.time, pattern.value)
        && recalls_bound(pattern.terms@, b1) {
        let found = constrained_identities(ps, candidate_identities(ps, ids, pattern.time, pattern.value), pattern.terms@, b1);
        Some(
            (
                found,
                match pattern.variable {
                    Some(v) => bind_set(b1, v@, found),
                    None => b1,
                },
            ),
        )
    } else {
        None
    }
}

/// What the posit patterns of a search find, one after another, each from
/// the bindings the ones before it left; `None` where one of them fails.
pub open spec fn patterns_result(ps: Seq<Posit>, roles: Seq<Role>, patterns: Seq<SearchPattern>, b0: BindingMap) -> Option<
    (Seq<Set<Thing>>, BindingMap),
>
    decreases patterns.len(),
{
    if patterns.len() == 0 {
        Some((Seq::empty(), b0))
    } else {
        match patterns_result(ps, roles, patterns.drop_last(), b0) {
            None => None,
            Some((found, b)) => match pattern_result(ps, roles, patterns.last(), b) {
                None => None,
                Some((set, b2)) => Some((found.push(set), b2)),
            },
        }
    }
}

/// Evaluates one posit pattern of a search: declares the variables its
/// slots introduce; finds its roles by name, an unknown one failing with
/// `UnknownRole`; takes the posits that hold them, at its time and with a
/// value nominally equal to its value where it gives them, a value that
/// cannot be compared failing with `Execution`; fails with `Execution` where
/// a recalled variable is not bound; keeps the candidates every slot admits;
/// and binds its posit variable to them. A pattern without slots finds
/// nothing and binds nothing.
pub fn search_pattern(database: &Database, pattern: &SearchPattern, bindings: &mut Bindings) -> (r: Result<
    ResultSet,
    DatabaseError,
>)
    ensures
        pattern.terms@.len() == 0 ==> (r matches Ok(set) && set.members() == Set::<Thing>::empty()) && final(bindings).map()
            == old(bindings).map(),
        ({
            let b1 = declared(old(bindings).map(), pattern.terms@);
            let names = term_roles(pattern.terms@);
            let ids = named_identities(database.roles(), names);
            let ps = database.posits();
            pattern.terms@.len() > 0 ==> {
                &&& !all_named(database.roles(), names) ==> (r matches Err(e) && e is UnknownRole) && final(bindings).map()
                    == b1
                &&& all_named(database.roles(), names) && incomparable_candidate(ps, ids, pattern.time, pattern.value) ==> (r matches Err(
                    e,
                ) && e is Execution) && final(bindings).map() == b1
                &&& all_named(database.roles(), names) && !incomparable_candidate(ps, ids, pattern.time, pattern.value)
                    && !recalls_bound(pattern.terms@, b1) ==> (r matches Err(e) && e is Execution) && final(bindings).map()
                    == b1
                &&& all_named(database.roles(), names) && !incomparable_candidate(ps, ids, pattern.time, pattern.value)
                    && recalls_bound(pattern.terms@, b1) ==> (r matches Ok(set) && set.members() == constrained_identities(
                    ps,
                    candidate_identities(ps, ids, pattern.time, pattern.value),
                    pattern.terms@,
                    b1,
                ) && final(bindings).map() == match pattern.variable {
                    Some(v) => bind_set(b1, v@, set.members()),
                    None => b1,
                })
            }
        }),
        match pattern_result(database.posits(), database.roles(), *pattern, old(bindings).map()) {
            Some((found, b)) => (r matches Ok(set) && set.members() == found) && final(bindings).map() == b,
            None => r is Err,
        },
{
    if pattern.terms.len() == 0 {
        return Ok(ResultSet::new());
    }
    declare_inserts(&pattern.terms, bindings);
    let ghost b1 = bindings.map();
    let ghost tr = term_roles(pattern.terms@);
    let mut names: Vec<String> = Vec::new();
    let mut k: usize = 0;
    while k < pattern.terms.len()
        invariant
            k <= pattern.terms@.len(),
            tr == term_roles(pattern.terms@),
            names@.map_values(|n: String| n@) == tr.take(k as int),
        decreases pattern.terms@.len() - k,
    {
        let role = pattern.terms[k].role.clone();
        let ghost before = names@;
        names.push(role);
        proof {
            assert(tr[k as int] == pattern.terms@[k as int].role@);
            assert(role@ == pattern.terms@[k as int].role@);
            assert(names@ =~= before.push(role));
            assert(names@.map_values(|n: String| n@) =~= before.map_values(|n: String| n@).push(role@));
            assert(tr.take(k + 1) =~= tr.take(k as int).push(tr[k as int]));
        }
        k = k + 1;
    }
    assert(tr.take(pattern.terms@.len() as int) =~= tr);
    let candidates = pattern_candidates(database, &names, pattern.time, &pattern.value)?;
    check_recalls(&pattern.terms, bindings)?;
    let kept = constrain_candidates(database, &candidates, &pattern.terms, bindings);
    match &pattern.variable {
        Some(v) => bind_result_set(bindings, v.as_str(), &kept),
        None => {},
    }
    Ok(kept)
}

/// Once a pattern fails, the search fails.
proof fn lemma_failure_stays(ps: Seq<Posit>, roles: Seq<Role>, patterns: Seq<SearchPattern>, b0: BindingMap, j: int)
    requires
        0 <= j <= patterns.len(),
        patterns_result(ps, roles, patterns.take(j), b0) is None,
    ensures
        patterns_result(ps, roles, patterns, b0) is None,
    decreases patterns.len(),
{
    if j == patterns.len() {
        assert(patterns.take(j) =~= patterns);
    } else {
        assert(patterns.take(j) =~= patterns.drop_last().take(j));
        lemma_failure_stays(ps, roles, patterns.drop_last(), b0, j);
    }
}

/// Evaluates the posit patterns of a search one after another, each from the
/// bindings the ones before it left, and stops at the first that fails.
pub fn search_patterns(database: &Database, patterns: &Vec<SearchPattern>, bindings: &mut Bindings) -> (r: Result<
    Vec<ResultSet>,
    DatabaseError,
>)
    ensures
        match patterns_result(database.posits(), database.roles(), patterns@, old(bindings).map()) {
            Some((found, b)) => (r matches Ok(sets) && sets@.len() == found.len() && forall|i: int|
                0 <= i < found.len() ==> (#[trigger] sets@[i]).members() == found[i]) && final(bindings).map() == b,
            None => r is Err,
        },
{
    let ghost ps = database.posits();
    let ghost roles = database.roles();
    let mut out: Vec<ResultSet> = Vec::new();
    let mut k: usize = 0;
    while k < patterns.len()
        invariant
            k <= patterns@.len(),
            ps == database.posits(),
            roles == database.roles(),
            patterns_result(ps, roles, patterns@.take(k as int), old(bindings).map()) matches Some((found, b)) && out@.len()
                == found.len() && (forall|i: int| 0 <= i < found.len() ==> (#[trigger] out@[i]).members() == found[i])
                && bindings.map() == b,
        decreases patterns@.len() - k,
    {
        proof {
            assert(patterns@.take(k + 1).drop_last() =~= patterns@.take(k as int));
            assert(patterns@.take(k + 1).last() == patterns@[k as int]);
        }
        let ghost before = out@;
        let set = match search_pattern(database, &patterns[k], bindings) {
            Ok(set) => set,
            Err(e) => {
                proof {
                    lemma_failure_stays(ps, roles, patterns@, old(bindings).map(), k + 1);
                }
                return Err(e);
            },
        };
        out.push(set);
        proof {
            let (found, b) = patterns_result(ps, roles, patterns@.take(k as int), old(bindings).map())->0;
            assert forall|i: int| 0 <= i < found.len() + 1 implies (#[trigger] out@[i]).members()
                == found.push(set.members())[i] by {
                if i < found.len() {
                    assert(out@[i] == before[i]);
                }
            }
        }
        k = k + 1;
    }
    proof {
        assert(patterns@.take(patterns@.len() as int) =~= patterns@);
        if patterns_result(ps, roles, patterns@, old(bindings).map()) is None {
            assert(false);
        }
    }
    Ok(out)
}

// ---------------------------------------------------------------------------
// Rows
// ---------------------------------------------------------------------------

/// Variables each standing for one thing.
#[derive(Debug)]
pub struct VarThings {
    entries: Vec<(String, Thing)>,
}

/// The map of an association list whose names occur once each.
pub open spec fn assoc_map(entries: Seq<(Seq<char>, Thing)>) -> Map<Seq<char>, Thing>
    decreases entries.len(),
{
    if entries.len() == 0 {
        Map::empty()
    } else {
        assoc_map(entries.drop_last()).insert(entries.last().0, entries.last().1)
    }
}

pub open spec fn names_once(entries: Seq<(Seq<char>, Thing)>) -> bool {
    forall|i: int, j: int| 0 <= i < j < entries.len() ==> #[trigger] entries[i].0 != #[trigger] entries[j].0
}

proof fn lemma_assoc_map(entries: Seq<(Seq<char>, Thing)>)
    requires
        names_once(entries),
    ensures
        forall|i: int| 0 <= i < entries.len() ==> #[trigger] assoc_map(entries).contains_key(entries[i].0)
            && assoc_map(entries)[entries[i].0] == entries[i].1,
        forall|k: Seq<char>| #[trigger] assoc_map(entries).contains_key(k) ==> exists|i: int|
            0 <= i < entries.len() && entries[i].0 == k,
    decreases entries.len(),
{
    if entries.len() > 0 {
        let rest = entries.drop_last();
        assert(names_once(rest)) by {
            assert forall|i: int, j: int| 0 <= i < j < rest.len() implies #[trigger] rest[i].0 != #[trigger] rest[j].0 by {
                assert(rest[i] == entries[i] && rest[j] == entries[j]);
            }
        }
        lemma_assoc_map(rest);
        assert forall|i: int| 0 <= i < entries.len() implies #[trigger] assoc_map(entries).contains_key(entries[i].0)
            && assoc_map(entries)[entries[i].0] == entries[i].1 by {
            if i < entries.len() - 1 {
                assert(rest[i] == entries[i]);
                assert(entries[i].0 != entries[entries.len() - 1].0);
                assert(assoc_map(rest).contains_key(rest[i].0));
                assert(assoc_map(rest)[rest[i].0] == rest[i].1);
            } else {
                assert(entries[i] == entries.last());
            }
        }
        assert forall|k: Seq<char>| #[trigger] assoc_map(entries).contains_key(k) implies exists|i: int|
            0 <= i < entries.len() && entries[i].0 == k by {
            if k != entries.last().0 {
                assert(assoc_map(rest).contains_key(k));
                let i = choose|i: int| 0 <= i < rest.len() && rest[i].0 == k;
                assert(entries[i] == rest[i]);
            } else {
                assert(entries[entries.len() - 1].0 == k);
            }
        }
    }
}

impl VarThings {
    pub closed spec fn entries_view(&self) -> Seq<(Seq<char>, Thing)> {
        self.entries@.map_values(|e: (String, Thing)| (e.0@, e.1))
    }

    #[verifier::type_invariant]
    spec fn distinct(&self) -> bool {
        names_once(self.entries_view())
    }

    /// Each variable and its thing.
    pub closed spec fn map(&self) -> Map<Seq<char>, Thing> {
        assoc_map(self.entries_view())
    }

    pub fn new() -> (v: Self)
        ensures
            v.map() == Map::<Seq<char>, Thing>::empty(),
    {
        let v = VarThings { entries: Vec::new() };
        assert(v.entries_view() =~= Seq::<(Seq<char>, Thing)>::empty());
        v
    }

    fn find(&self, name: &str) -> (r: Option<usize>)
        ensures
            r matches Some(i) ==> i < self.entries_view().len() && self.entries_view()[i as int].0 == name@,
            r is None ==> forall|i: int| 0 <= i < self.entries_view().len() ==> self.entries_view()[i].0 != name@,
    {
        let mut i: usize = 0;
        while i < self.entries.len()
            invariant
                i <= self.entries@.len(),
                forall|j: int| 0 <= j < i ==> self.entries_view()[j].0 != name@,
            decreases self.entries@.len() - i,
        {
            assert(self.entries_view()[i as int].0 == self.entries@[i as int].0@);
            if crate::terrain::same_text(self.entries[i].0.as_str(), name) {
                return Some(i);
            }
            i = i + 1;
        }
        None
    }

    /// The thing `name` stands for.
    pub fn get(&self, name: &str) -> (r: Option<Thing>)
        ensures
            r == (if self.map().contains_key(name@) {
                Some(self.map()[name@])
            } else {
                None
            }),
    {
        proof {
            use_type_invariant(self);
            lemma_assoc_map(self.entries_view());
        }
        match self.find(name) {
            Some(i) => Some(self.entries[i].1),
            None => {
                proof {
                    if self.map().contains_key(name@) {
                        let i = choose|i: int| 0 <= i < self.entries_view().len() && self.entries_view()[i].0 == name@;
                    }
                }
                None
            },
        }
    }

    /// Makes `name` stand for `t` unless it stands for a thing already.
    pub fn keep_first(&mut self, name: &str, t: Thing)
        ensures
            final(self).map() == if old(self).map().contains_key(name@) {
                old(self).map()
            } else {
                old(self).map().insert(name@, t)
            },
    {
        proof {
            use_type_invariant(&*self);
            lemma_assoc_map(self.entries_view());
        }
        match self.find(name) {
            Some(i) => {},
            None => {
                let ghost before = self.entries_view();
                proof {
                    if self.map().contains_key(name@) {
                        let i = choose|i: int| 0 <= i < before.len() && before[i].0 == name@;
                    }
                }
                let mut entries = Vec::new();
                std::mem::swap(&mut entries, &mut self.entries);
                entries.push((crate::text::text(name), t));
                let ghost now = entries@.map_values(|e: (String, Thing)| (e.0@, e.1));
                assert(now =~= before.push((name@, t)));
                assert(now.drop_last() =~= before);
                assert(names_once(now)) by {
                    assert forall|i: int, j: int| 0 <= i < j < now.len() implies #[trigger] now[i].0 != #[trigger] now[j].0 by {
                        if j < now.len() - 1 {
                            assert(now[i] == before[i] && now[j] == before[j]);
                        } else {
                            assert(now[i] == before[i]);
                        }
                    }
                }
                self.entries = entries;
            },
        }
    }

    /// Makes `name` stand for `t`.
    pub fn set(&mut self, name: &str, t: Thing)
        ensures
            final(self).map() == old(self).map().insert(name@, t),
    {
        proof {
            use_type_invariant(&*self);
            lemma_assoc_map(self.entries_view());
        }
        let ghost before = self.entries_view();
        match self.find(name) {
            Some(i) => {
                let mut entries = Vec::new();
                std::mem::swap(&mut entries, &mut self.entries);
                entries.set(i, (crate::text::text(name), t));
                let ghost now = entries@.map_values(|e: (String, Thing)| (e.0@, e.1));
                assert(now =~= before.update(i as int, (name@, t)));
                assert(names_once(now)) by {
                    assert forall|a: int, b: int| 0 <= a < b < now.len() implies #[trigger] now[a].0 != #[trigger] now[b].0 by {
                        assert(before[a].0 != before[b].0);
                    }
                }
                proof {
                    lemma_assoc_map(now);
                    assert(assoc_map(now) =~= assoc_map(before).insert(name@, t)) by {
                        assert forall|k: Seq<char>| assoc_map(now).contains_key(k) <==> assoc_map(before).insert(name@, t).contains_key(k) by {
                            if assoc_map(now).contains_key(k) {
                                let j = choose|j: int| 0 <= j < now.len() && now[j].0 == k;
                                if j != i {
                                    assert(now[j] == before[j]);
                                }
                            }
                            if assoc_map(before).contains_key(k) {
                                let j = choose|j: int| 0 <= j < before.len() && before[j].0 == k;
                                if j != i {
                                    assert(now[j] == before[j]);
                                    assert(assoc_map(now).contains_key(now[j].0));
                                }
                            }
                            if k == name@ {
                                assert(now[i as int].0 == name@);
                                assert(assoc_map(now).contains_key(now[i as int].0));
                            }
                        }
                        assert forall|k: Seq<char>| assoc_map(now).contains_key(k) implies assoc_map(now)[k] == assoc_map(before).insert(name@, t)[k] by {
                            let j = choose|j: int| 0 <= j < now.len() && now[j].0 == k;
                            if j != i {
                                assert(now[j] == before[j]);
                            }
                        }
                    }
                }
                self.entries = entries;
            },
            None => {
                proof {
                    if self.map().contains_key(name@) {
                        let i = choose|i: int| 0 <= i < before.len() && before[i].0 == name@;
                    }
                }
                let mut entries = Vec::new();
                std::mem::swap(&mut entries, &mut self.entries);
                entries.push((crate::text::text(name), t));
                let ghost now = entries@.map_values(|e: (String, Thing)| (e.0@, e.1));
                assert(now =~= before.push((name@, t)));
                assert(now.drop_last() =~= before);
                assert(names_once(now)) by {
                    assert forall|a: int, b: int| 0 <= a < b < now.len() implies #[trigger] now[a].0 != #[trigger] now[b].0 by {
                        if b < now.len() - 1 {
                            assert(now[a] == before[a] && now[b] == before[b]);
                        } else {
                            assert(now[a] == before[a]);
                        }
                    }
                }
                self.entries = entries;
            },
        }
    }

    pub fn len(&self) -> (n: usize)
        ensures
            n == self.entries_view().len(),
    {
        self.entries.len()
    }

    /// The `i`-th variable and its thing.
    pub fn entry(&self, i: usize) -> (r: (&str, Thing))
        requires
            i < self.entries_view().len(),
        ensures
            (r.0@, r.1) == self.entries_view()[i as int],
    {
        (self.entries[i].0.as_str(), self.entries[i].1)
    }

    pub fn clone_entries(&self) -> (v: Self)
        ensures
            v.map() == self.map(),
    {
        proof {
            use_type_invariant(self);
        }
        let mut entries: Vec<(String, Thing)> = Vec::new();
        let mut i: usize = 0;
        while i < self.entries.len()
            invariant
                i <= self.entries@.len(),
                entries@.map_values(|e: (String, Thing)| (e.0@, e.1)) == self.entries_view().take(i as int),
            decreases self.entries@.len() - i,
        {
            let ghost before = entries@.map_values(|e: (String, Thing)| (e.0@, e.1));
            let name = crate::text::text(self.entries[i].0.as_str());
            entries.push((name, self.entries[i].1));
            proof {
                assert(entries@.map_values(|e: (String, Thing)| (e.0@, e.1)) =~= before.push(self.entries_view()[i as int]));
                assert(self.entries_view().take(i + 1) =~= self.entries_view().take(i as int).push(self.entries_view()[i as int]));
            }
            i = i + 1;
        }
        assert(self.entries_view().take(self.entries@.len() as int) =~= self.entries_view());
        VarThings { entries }
    }
}

/// What a row binds: identity variables, posit variables, the variables of
/// values and times, each to the posit that provides it, and the kind of
/// each of the latter (0 a value, 1 a time).
pub type RowView = (Map<Seq<char>, Thing>, Map<Seq<char>, Thing>, Map<Seq<char>, Thing>, Map<Seq<char>, Thing>);

/// One way the patterns of a search so far match: what each variable stands
/// for.
#[derive(Debug)]
pub struct SearchRow {
    pub identities: VarThings,
    pub posits: VarThings,
    pub slots: VarThings,
    pub slot_kinds: VarThings,
}

pub open spec fn row_view(r: SearchRow) -> RowView {
    (r.identities.map(), r.posits.map(), r.slots.map(), r.slot_kinds.map())
}

pub open spec fn rows_view(rows: Seq<SearchRow>) -> Seq<RowView> {
    rows.map_values(|r: SearchRow| row_view(r))
}

/// The identity variables of a posit's slots and the things they stand for,
/// a later slot of a variable counting over an earlier one.
pub open spec fn slot_things(ms: Seq<Appearance>, terms: Seq<SearchTerm>) -> Map<Seq<char>, Thing>
    decreases terms.len(),
{
    if terms.len() == 0 {
        Map::empty()
    } else {
        let m = slot_things(ms, terms.drop_last());
        match slot_variable(terms.last().slot) {
            Some(v) => match thing_named(ms, terms.last().role@) {
                Some(t) => m.insert(v, t),
                None => m,
            },
            None => m,
        }
    }
}

/// The slot things of the posit with identity `t`.
pub open spec fn info_of(ps: Seq<Posit>, terms: Seq<SearchTerm>, t: Thing) -> Map<Seq<char>, Thing> {
    match identity_index(ps, t) {
        Some(i) => slot_things(ps[i].members(), terms),
        None => Map::empty(),
    }
}

/// `m` with `name` standing for `t`, where there is a name.
pub open spec fn named_insert(m: Map<Seq<char>, Thing>, name: Option<String>, t: Thing) -> Map<Seq<char>, Thing> {
    match name {
        Some(v) => m.insert(v@, t),
        None => m,
    }
}

/// `m` with `name` standing for `t`, where there is a name it does not
/// bind yet.
pub open spec fn named_keep(m: Map<Seq<char>, Thing>, name: Option<String>, t: Thing) -> Map<Seq<char>, Thing> {
    match name {
        Some(v) => if m.contains_key(v@) {
            m
        } else {
            m.insert(v@, t)
        },
        None => m,
    }
}

/// `m` binds `name`, where there is one, to `t` or not at all.
pub open spec fn named_agrees(m: Map<Seq<char>, Thing>, name: Option<String>, t: Thing) -> bool {
    match name {
        Some(v) => !m.contains_key(v@) || m[v@] == t,
        None => true,
    }
}

/// The row the first pattern of a search makes of the posit `t`.
pub open spec fn seed_row(t: Thing, info: Map<Seq<char>, Thing>, pattern: SearchPattern) -> RowView {
    (
        info,
        named_insert(Map::empty(), pattern.variable, t),
        named_insert(named_insert(Map::empty(), pattern.value_variable, t), pattern.time_variable, t),
        named_insert(named_insert(Map::empty(), pattern.value_variable, 0), pattern.time_variable, 1),
    )
}

/// The row `e` and the posit `t` agree on every variable both bind.
pub open spec fn compatible(e: RowView, t: Thing, info: Map<Seq<char>, Thing>, pattern: SearchPattern) -> bool {
    &&& forall|k: Seq<char>| #[trigger] info.contains_key(k) && e.0.contains_key(k) ==> e.0[k] == info[k]
    &&& named_agrees(e.1, pattern.variable, t)
    &&& named_agrees(e.2, pattern.value_variable, t)
    &&& named_agrees(e.2, pattern.time_variable, t)
}

/// The row `e` extended by what the posit `t` binds.
pub open spec fn merged(e: RowView, t: Thing, info: Map<Seq<char>, Thing>, pattern: SearchPattern) -> RowView {
    (
        info.union_prefer_right(e.0),
        named_keep(e.1, pattern.variable, t),
        named_keep(named_keep(e.2, pattern.value_variable, t), pattern.time_variable, t),
        named_keep(named_keep(e.3, pattern.value_variable, 0), pattern.time_variable, 1),
    )
}

/// A row extended by a posit it agrees with binds each variable of the row
/// as before, each slot variable of the posit to the posit's thing, and its
/// posit, value and time variables to the posit.
pub proof fn merged_rows_keep_both_bindings(e: RowView, t: Thing, info: Map<Seq<char>, Thing>, pattern: SearchPattern, k: Seq<char>)
    requires
        compatible(e, t, info, pattern),
    ensures
        e.0.contains_key(k) ==> merged(e, t, info, pattern).0.contains_key(k) && merged(e, t, info, pattern).0[k] == e.0[k],
        info.contains_key(k) ==> merged(e, t, info, pattern).0.contains_key(k) && merged(e, t, info, pattern).0[k] == info[k],
        merged(e, t, info, pattern).0.contains_key(k) ==> e.0.contains_key(k) || info.contains_key(k),
        pattern.variable matches Some(v) ==> merged(e, t, info, pattern).1.contains_key(v@) && merged(e, t, info, pattern).1[v@]
            == t,
        pattern.value_variable matches Some(v) ==> merged(e, t, info, pattern).2.contains_key(v@) && merged(
            e,
            t,
            info,
            pattern,
        ).2[v@] == t,
        pattern.time_variable matches Some(v) ==> merged(e, t, info, pattern).2.contains_key(v@) && merged(
            e,
            t,
            info,
            pattern,
        ).2[v@] == t,
{
    if e.0.contains_key(k) && info.contains_key(k) {
        assert(e.0[k] == info[k]);
    }
}

/// The extensions of the row `e` by the posits it agrees with, in order.
pub open spec fn rows_with(e: RowView, cands: Seq<(Thing, Map<Seq<char>, Thing>)>, pattern: SearchPattern) -> Seq<RowView>
    decreases cands.len(),
{
    if cands.len() == 0 {
        Seq::empty()
    } else {
        let rest = rows_with(e, cands.drop_last(), pattern);
        if compatible(e, cands.last().0, cands.last().1, pattern) {
            rest.push(merged(e, cands.last().0, cands.last().1, pattern))
        } else {
            rest
        }
    }
}

/// Every row extended by every posit it agrees with, rows first.
pub open spec fn joined(rows: Seq<RowView>, cands: Seq<(Thing, Map<Seq<char>, Thing>)>, pattern: SearchPattern) -> Seq<RowView>
    decreases rows.len(),
{
    if rows.len() == 0 {
        Seq::empty()
    } else {
        joined(rows.drop_last(), cands, pattern) + rows_with(rows.last(), cands, pattern)
    }
}

/// The found posits in increasing order of identity, each with its slot
/// things.
pub open spec fn candidate_infos(ps: Seq<Posit>, terms: Seq<SearchTerm>, found: Seq<Thing>) -> Seq<(Thing, Map<Seq<char>, Thing>)> {
    found.map_values(|t: Thing| (t, info_of(ps, terms, t)))
}

/// The identity variables of the posit's slots and their things.
fn slot_things_of(posit: &Posit, terms: &Vec<SearchTerm>) -> (r: VarThings)
    ensures
        r.map() == slot_things(posit.members(), terms@),
{
    let mut out = VarThings::new();
    let mut k: usize = 0;
    while k < terms.len()
        invariant
            k <= terms@.len(),
            out.map() == slot_things(posit.members(), terms@.take(k as int)),
        decreases terms@.len() - k,
    {
        assert(terms@.take(k + 1).drop_last() =~= terms@.take(k as int));
        assert(terms@.take(k + 1).last() == terms@[k as int]);
        match &terms[k].slot {
            SearchSlot::Insert(v) | SearchSlot::Recall(v) => match thing_for_name(posit, terms[k].role.as_str()) {
                Some(t) => out.set(v.as_str(), t),
                None => {},
            },
            SearchSlot::Wildcard => {},
        }
        k = k + 1;
    }
    assert(terms@.take(terms@.len() as int) =~= terms@);
    out
}

/// The slot things of the posit with identity `t`.
fn info_for(database: &Database, terms: &Vec<SearchTerm>, t: Thing) -> (r: VarThings)
    ensures
        r.map() == info_of(database.posits(), terms@, t),
{
    let posits = database.posit_keeper();
    let ghost ps = database.posits();
    let mut i = posits.len();
    assert(ps.take(ps.len() as int) =~= ps);
    while i > 0
        invariant
            i <= ps.len(),
            ps == posits.posits(),
            ps == database.posits(),
            identity_index(ps, t) == identity_index(ps.take(i as int), t),
        decreases i,
    {
        let posit = posits.get(i - 1);
        assert(ps.take(i as int).last() == ps[i - 1]);
        if posit.posit() == t {
            return slot_things_of(posit, terms);
        }
        assert(ps.take(i as int).drop_last() =~= ps.take(i - 1));
        i = i - 1;
    }
    assert(ps.take(0) =~= Seq::<Posit>::empty());
    VarThings::new()
}

/// `m` with `name` standing for `t`, where there is a name.
fn set_named(m: &mut VarThings, name: &Option<String>, t: Thing)
    ensures
        final(m).map() == named_insert(old(m).map(), *name, t),
{
    match name {
        Some(v) => m.set(v.as_str(), t),
        None => {},
    }
}

/// `m` with `name` standing for `t`, where there is a name it does not bind.
fn keep_named(m: &mut VarThings, name: &Option<String>, t: Thing)
    ensures
        final(m).map() == named_keep(old(m).map(), *name, t),
{
    match name {
        Some(v) => m.keep_first(v.as_str(), t),
        None => {},
    }
}

fn agrees_named(m: &VarThings, name: &Option<String>, t: Thing) -> (r: bool)
    ensures
        r == named_agrees(m.map(), *name, t),
{
    match name {
        Some(v) => match m.get(v.as_str()) {
            Some(x) => x == t,
            None => true,
        },
        None => true,
    }
}

/// The rows the first pattern of a search makes: one for each posit it
/// found, in increasing order of identity.
pub fn seed_rows(database: &Database, pattern: &SearchPattern, found: &ResultSet) -> (rows: Vec<SearchRow>)
    ensures
        rows_view(rows@) == candidate_infos(database.posits(), pattern.terms@, found.sequence()).map_values(
            |c: (Thing, Map<Seq<char>, Thing>)| seed_row(c.0, c.1, *pattern),
        ),
{
    let things = found.things();
    let ghost spec_rows = candidate_infos(database.posits(), pattern.terms@, found.sequence()).map_values(
        |c: (Thing, Map<Seq<char>, Thing>)| seed_row(c.0, c.1, *pattern),
    );
    let mut rows: Vec<SearchRow> = Vec::new();
    let mut k: usize = 0;
    while k < things.len()
        invariant
            k <= things@.len(),
            things@ == found.sequence(),
            spec_rows.len() == things@.len(),
            spec_rows == candidate_infos(database.posits(), pattern.terms@, found.sequence()).map_values(
                |c: (Thing, Map<Seq<char>, Thing>)| seed_row(c.0, c.1, *pattern),
            ),
            rows_view(rows@) == spec_rows.take(k as int),
        decreases things@.len() - k,
    {
        let t = things[k];
        let identities = info_for(database, &pattern.terms, t);
        let mut posits = VarThings::new();
        set_named(&mut posits, &pattern.variable, t);
        let mut slots = VarThings::new();
        set_named(&mut slots, &pattern.value_variable, t);
        set_named(&mut slots, &pattern.time_variable, t);
        let mut slot_kinds = VarThings::new();
        set_named(&mut slot_kinds, &pattern.value_variable, 0);
        set_named(&mut slot_kinds, &pattern.time_variable, 1);
        let row = SearchRow { identities, posits, slots, slot_kinds };
        let ghost before = rows@;
        rows.push(row);
        proof {
            assert(row_view(row) == spec_rows[k as int]);
            assert(rows_view(rows@) =~= rows_view(before).push(row_view(row)));
            assert(spec_rows.take(k + 1) =~= spec_rows.take(k as int).push(spec_rows[k as int]));
        }
        k = k + 1;
    }
    assert(spec_rows.take(things@.len() as int) =~= spec_rows);
    rows
}

/// The row and the posit `t` agree on every variable both bind.
fn compatible_with(e: &SearchRow, t: Thing, info: &VarThings, pattern: &SearchPattern) -> (r: bool)
    ensures
        r == compatible(row_view(*e), t, info.map(), *pattern),
{
    proof {
        use_type_invariant(info);
        lemma_assoc_map(info.entries_view());
    }
    let mut j: usize = 0;
    while j < info.len()
        invariant
            j <= info.entries_view().len(),
            forall|i: int| 0 <= i < info.entries_view().len() ==> #[trigger] info.map().contains_key(info.entries_view()[i].0)
                && info.map()[info.entries_view()[i].0] == info.entries_view()[i].1,
            forall|q: int| 0 <= q < j ==> #[trigger] info.entries_view()[q].0 == info.entries_view()[q].0 && (
                !e.identities.map().contains_key(info.entries_view()[q].0) || e.identities.map()[info.entries_view()[q].0]
                    == info.entries_view()[q].1),
        decreases info.entries_view().len() - j,
    {
        let (name, thing) = info.entry(j);
        match e.identities.get(name) {
            Some(prev) => {
                if prev != thing {
                    proof {
                        assert(info.map().contains_key(info.entries_view()[j as int].0));
                    }
                    return false;
                }
            },
            None => {},
        }
        j = j + 1;
    }
    proof {
        assert forall|k: Seq<char>| #[trigger] info.map().contains_key(k) && e.identities.map().contains_key(k) implies e.identities.map()[k]
            == info.map()[k] by {
            let q = choose|q: int| 0 <= q < info.entries_view().len() && info.entries_view()[q].0 == k;
            assert(info.entries_view()[q].0 == info.entries_view()[q].0);
        }
    }
    agrees_named(&e.posits, &pattern.variable, t) && agrees_named(&e.slots, &pattern.value_variable, t) && agrees_named(
        &e.slots,
        &pattern.time_variable,
        t,
    )
}

/// The row extended by what the posit `t` binds.
fn merge(e: &SearchRow, t: Thing, info: &VarThings, pattern: &SearchPattern) -> (r: SearchRow)
    ensures
        row_view(r) == merged(row_view(*e), t, info.map(), *pattern),
{
    proof {
        use_type_invariant(info);
        lemma_assoc_map(info.entries_view());
    }
    let ghost ev = info.entries_view();
    let mut identities = e.identities.clone_entries();
    let mut j: usize = 0;
    assert(assoc_map(ev.take(0)) =~= Map::<Seq<char>, Thing>::empty());
    assert(assoc_map(ev.take(0)).union_prefer_right(e.identities.map()) =~= e.identities.map());
    while j < info.len()
        invariant
            j <= ev.len(),
            ev == info.entries_view(),
            names_once(ev),
            identities.map() == assoc_map(ev.take(j as int)).union_prefer_right(e.identities.map()),
        decreases ev.len() - j,
    {
        let (name, thing) = info.entry(j);
        let ghost before = identities.map();
        identities.keep_first(name, thing);
        proof {
            let pre = ev.take(j as int);
            assert(ev.take(j + 1) =~= pre.push(ev[j as int]));
            assert(ev.take(j + 1).drop_last() =~= pre);
            assert(names_once(pre)) by {
                assert forall|a: int, b: int| 0 <= a < b < pre.len() implies #[trigger] pre[a].0 != #[trigger] pre[b].0 by {
                    assert(pre[a] == ev[a] && pre[b] == ev[b]);
                }
            }
            lemma_assoc_map(pre);
            if assoc_map(pre).contains_key(name@) {
                let q = choose|q: int| 0 <= q < pre.len() && pre[q].0 == name@;
                assert(ev[q].0 == ev[j as int].0);
            }
            assert(identities.map() =~= assoc_map(ev.take(j + 1)).union_prefer_right(e.identities.map()));
        }
        j = j + 1;
    }
    assert(ev.take(ev.len() as int) =~= ev);
    let mut posits = e.posits.clone_entries();
    keep_named(&mut posits, &pattern.variable, t);
    let mut slots = e.slots.clone_entries();
    keep_named(&mut slots, &pattern.value_variable, t);
    keep_named(&mut slots, &pattern.time_variable, t);
    let mut slot_kinds = e.slot_kinds.clone_entries();
    keep_named(&mut slot_kinds, &pattern.value_variable, 0);
    keep_named(&mut slot_kinds, &pattern.time_variable, 1);
    SearchRow { identities, posits, slots, slot_kinds }
}

/// The found posits in increasing order of identity, each with its slot
/// things.
fn infos_of(database: &Database, terms: &Vec<SearchTerm>, found: &ResultSet) -> (r: Vec<(Thing, VarThings)>)
    ensures
        r@.map_values(|c: (Thing, VarThings)| (c.0, c.1.map())) == candidate_infos(database.posits(), terms@, found.sequence()),
{
    let things = found.things();
    let ghost want = candidate_infos(database.posits(), terms@, found.sequence());
    let mut out: Vec<(Thing, VarThings)> = Vec::new();
    let mut k: usize = 0;
    while k < things.len()
        invariant
            k <= things@.len(),
            things@ == found.sequence(),
            want == candidate_infos(database.posits(), terms@, found.sequence()),
            out@.map_values(|c: (Thing, VarThings)| (c.0, c.1.map())) == want.take(k as int),
        decreases things@.len() - k,
    {
        let t = things[k];
        let info = info_for(database, terms, t);
        let ghost before = out@;
        out.push((t, info));
        proof {
            assert(out@.map_values(|c: (Thing, VarThings)| (c.0, c.1.map())) =~= before.map_values(
                |c: (Thing, VarThings)| (c.0, c.1.map()),
            ).push((t, info.map())));
            assert(want.take(k + 1) =~= want.take(k as int).push(want[k as int]));
        }
        k = k + 1;
    }
    assert(want.take(things@.len() as int) =~= want);
    out
}

/// The rows a later pattern of a search makes: each row before it extended
/// by each posit it found that agrees with it, in order of rows and then of
/// identities.
pub fn join_rows(database: &Database, pattern: &SearchPattern, found: &ResultSet, rows: &Vec<SearchRow>) -> (out: Vec<SearchRow>)
    ensures
        rows_view(out@) == joined(rows_view(rows@), candidate_infos(database.posits(), pattern.terms@, found.sequence()), *pattern),
{
    let infos = infos_of(database, &pattern.terms, found);
    let ghost cands = candidate_infos(database.posits(), pattern.terms@, found.sequence());
    let mut out: Vec<SearchRow> = Vec::new();
    let mut a: usize = 0;
    assert(rows_view(rows@).take(0) =~= Seq::<RowView>::empty());
    while a < rows.len()
        invariant
            a <= rows@.len(),
            infos@.map_values(|c: (Thing, VarThings)| (c.0, c.1.map())) == cands,
            rows_view(out@) == joined(rows_view(rows@).take(a as int), cands, *pattern),
        decreases rows@.len() - a,
    {
        let e = &rows[a];
        let ghost start = rows_view(out@);
        let mut b: usize = 0;
        assert(cands.take(0) =~= Seq::<(Thing, Map<Seq<char>, Thing>)>::empty());
        while b < infos.len()
            invariant
                b <= infos@.len(),
                a < rows@.len(),
                *e == rows@[a as int],
                infos@.map_values(|c: (Thing, VarThings)| (c.0, c.1.map())) == cands,
                rows_view(out@) == start + rows_with(row_view(*e), cands.take(b as int), *pattern),
            decreases infos@.len() - b,
        {
            let t = infos[b].0;
            let info = &infos[b].1;
            proof {
                assert(cands[b as int] == (t, info.map()));
                assert(cands.take(b + 1).drop_last() =~= cands.take(b as int));
                assert(cands.take(b + 1).last() == cands[b as int]);
            }
            if compatible_with(e, t, info, pattern) {
                let row = merge(e, t, info, pattern);
                let ghost before = out@;
                out.push(row);
                proof {
                    assert(rows_view(out@) =~= rows_view(before).push(row_view(row)));
                }
            }
            b = b + 1;
        }
        proof {
            assert(cands.take(infos@.len() as int) =~= cands);
            let rv = rows_view(rows@);
            assert(rv.take(a + 1).drop_last() =~= rv.take(a as int));
            assert(rv.take(a + 1).last() == row_view(*e));
        }
        a = a + 1;
    }
    assert(rows_view(rows@).take(rows@.len() as int) =~= rows_view(rows@));
    out
}

// ---------------------------------------------------------------------------
// Conditions on times
// ---------------------------------------------------------------------------

/// How the time of a row's variable must relate to a given time.
#[derive(Debug, Clone, Copy, PartialEq, Eq, Structural)]
pub enum TimeRelation {
    /// `<`: definitely before.
    Before,
    /// `<=`: the same time, or definitely before.
    AtOrBefore,
    /// `>`: definitely after.
    After,
    /// `>=`: the same time, or definitely after.
    AtOrAfter,
    /// `=`: the same time.
    Same,
    /// `?=`: overlapping.
    Overlaps,
}

/// A `where` condition on the time bound to a variable.
#[derive(Debug)]
pub struct TimeCondition {
    pub variable: String,
    pub relation: TimeRelation,
    pub time: Time,
}

pub open spec fn relation_holds(pt: Time, relation: TimeRelation, t: Time) -> bool {
    match relation {
        TimeRelation::Before => pt.definitely_before_spec(t),
        TimeRelation::AtOrBefore => pt == t || pt.definitely_before_spec(t),
        TimeRelation::After => pt.definitely_after_spec(t),
        TimeRelation::AtOrAfter => pt == t || pt.definitely_after_spec(t),
        TimeRelation::Same => pt == t,
        TimeRelation::Overlaps => pt.overlaps_spec(t),
    }
}

/// Every time is at or after itself, at or before itself and the same as
/// itself, and is neither before nor after itself; a time before or after
/// another is also at or before, or at or after, it.
pub proof fn time_relations_are_reflexive_where_they_admit_equality(t: Time, u: Time)
    ensures
        relation_holds(t, TimeRelation::AtOrAfter, t),
        relation_holds(t, TimeRelation::AtOrBefore, t),
        relation_holds(t, TimeRelation::Same, t),
        !relation_holds(t, TimeRelation::Before, t),
        !relation_holds(t, TimeRelation::After, t),
        relation_holds(t, TimeRelation::After, u) ==> relation_holds(t, TimeRelation::AtOrAfter, u),
        relation_holds(t, TimeRelation::Before, u) ==> relation_holds(t, TimeRelation::AtOrBefore, u),
        relation_holds(t, TimeRelation::Same, u) <==> t == u,
        relation_holds(t, TimeRelation::Overlaps, u) == relation_holds(u, TimeRelation::Overlaps, t),
        relation_holds(t, TimeRelation::Before, u) ==> !relation_holds(t, TimeRelation::Overlaps, u),
        relation_holds(t, TimeRelation::Before, u) <==> relation_holds(u, TimeRelation::After, t),
{
    if t.definitely_before_spec(u) {
        Time::definitely_before_never_overlaps(t, u);
    }
    if u.definitely_after_spec(t) {
        crate::datatype::lemma_bound_lt_asymmetric(t.interval_spec().end, u.interval_spec().start);
    }
}

/// Between two variables' times, `<=`, `>=`, `=`, `==`, `===` admit a time
/// and itself, `<` and `>` do not; `?=` asks for an overlap.
pub proof fn pair_operators_on_equal_times(t: Time)
    ensures
        relation_holds(t, time_relation_of(ValueOperator::AtMost), t),
        relation_holds(t, time_relation_of(ValueOperator::AtLeast), t),
        relation_holds(t, time_relation_of(ValueOperator::Nominally), t),
        relation_holds(t, time_relation_of(ValueOperator::Exactly), t),
        !relation_holds(t, time_relation_of(ValueOperator::Less), t),
        !relation_holds(t, time_relation_of(ValueOperator::Greater), t),
        time_relation_of(ValueOperator::Possibly) == TimeRelation::Overlaps,
        time_relation_of(ValueOperator::Less) == TimeRelation::Before,
        time_relation_of(ValueOperator::Greater) == TimeRelation::After,
{
}

/// The time of the posit with identity `t`.
pub open spec fn time_of_identity(ps: Seq<Posit>, t: Thing) -> Option<Time> {
    match identity_index(ps, t) {
        Some(i) => Some(ps[i].time_spec()),
        None => None,
    }
}

/// A `where` condition between two variables: between their times where
/// both are bound as times, between their values where both are values.
#[derive(Debug)]
pub struct TimePairCondition {
    pub left: String,
    pub operator: ValueOperator,
    pub right: String,
}

/// How two times must relate for a comparison operator.
pub open spec fn time_relation_of(op: ValueOperator) -> TimeRelation {
    match op {
        ValueOperator::Less => TimeRelation::Before,
        ValueOperator::AtMost => TimeRelation::AtOrBefore,
        ValueOperator::Greater => TimeRelation::After,
        ValueOperator::AtLeast => TimeRelation::AtOrAfter,
        ValueOperator::Possibly => TimeRelation::Overlaps,
        _ => TimeRelation::Same,
    }
}

fn relation_for(op: ValueOperator) -> (r: TimeRelation)
    ensures
        r == time_relation_of(op),
{
    match op {
        ValueOperator::Less => TimeRelation::Before,
        ValueOperator::AtMost => TimeRelation::AtOrBefore,
        ValueOperator::Greater => TimeRelation::After,
        ValueOperator::AtLeast => TimeRelation::AtOrAfter,
        ValueOperator::Possibly => TimeRelation::Overlaps,
        _ => TimeRelation::Same,
    }
}

/// Where the row binds both variables as times, the times of their posits
/// exist and relate as asked; a row that does not bind both as times meets
/// the condition.
pub open spec fn row_meets_pair(e: RowView, ps: Seq<Posit>, c: TimePairCondition) -> bool {
    let both = e.2.contains_key(c.left@) && e.3.contains_key(c.left@) && e.3[c.left@] == 1 && e.2.contains_key(c.right@)
        && e.3.contains_key(c.right@) && e.3[c.right@] == 1;
    both ==> (time_of_identity(ps, e.2[c.left@]) matches Some(a) && time_of_identity(ps, e.2[c.right@]) matches Some(b)
        && relation_holds(a, time_relation_of(c.operator), b))
}

/// The rows that meet every condition between two times, in order.
pub open spec fn rows_meeting_pairs(rows: Seq<RowView>, ps: Seq<Posit>, conditions: Seq<TimePairCondition>) -> Seq<RowView>
    decreases rows.len(),
{
    if rows.len() == 0 {
        Seq::empty()
    } else {
        let rest = rows_meeting_pairs(rows.drop_last(), ps, conditions);
        if forall|k: int| 0 <= k < conditions.len() ==> row_meets_pair(rows.last(), ps, #[trigger] conditions[k]) {
            rest.push(rows.last())
        } else {
            rest
        }
    }
}

/// The row binds the condition's variable as a time, and that time
/// relates to the condition's time as asked.
pub open spec fn row_meets(e: RowView, ps: Seq<Posit>, c: TimeCondition) -> bool {
    &&& e.2.contains_key(c.variable@)
    &&& e.3.contains_key(c.variable@)
    &&& e.3[c.variable@] == 1
    &&& time_of_identity(ps, e.2[c.variable@]) matches Some(pt) && relation_holds(pt, c.relation, c.time)
}

/// The rows that meet every condition, in order.
pub open spec fn rows_meeting(rows: Seq<RowView>, ps: Seq<Posit>, conditions: Seq<TimeCondition>) -> Seq<RowView>
    decreases rows.len(),
{
    if rows.len() == 0 {
        Seq::empty()
    } else {
        let rest = rows_meeting(rows.drop_last(), ps, conditions);
        if forall|k: int| 0 <= k < conditions.len() ==> row_meets(rows.last(), ps, #[trigger] conditions[k]) {
            rest.push(rows.last())
        } else {
            rest
        }
    }
}

/// The time of the posit with identity `t`.
fn time_for(database: &Database, t: Thing) -> (r: Option<Time>)
    ensures
        r == time_of_identity(database.posits(), t),
{
    let posits = database.posit_keeper();
    let ghost ps = database.posits();
    let mut i = posits.len();
    assert(ps.take(ps.len() as int) =~= ps);
    while i > 0
        invariant
            i <= ps.len(),
            ps == posits.posits(),
            ps == database.posits(),
            identity_index(ps, t) == identity_index(ps.take(i as int), t),
        decreases i,
    {
        let posit = posits.get(i - 1);
        assert(ps.take(i as int).last() == ps[i - 1]);
        if posit.posit() == t {
            return Some(*posit.time());
        }
        assert(ps.take(i as int).drop_last() =~= ps.take(i - 1));
        i = i - 1;
    }
    assert(ps.take(0) =~= Seq::<Posit>::empty());
    None
}

fn relation_between(pt: &Time, relation: TimeRelation, t: &Time) -> (r: bool)
    ensures
        r == relation_holds(*pt, relation, *t),
{
    match relation {
        TimeRelation::Before => pt.definitely_before(t),
        TimeRelation::AtOrBefore => pt.definitely_at_or_before(t),
        TimeRelation::After => pt.definitely_after(t),
        TimeRelation::AtOrAfter => pt.definitely_at_or_after(t),
        TimeRelation::Same => *pt == *t,
        TimeRelation::Overlaps => pt.overlaps(t),
    }
}

fn meets(database: &Database, row: &SearchRow, c: &TimeCondition) -> (r: bool)
    ensures
        r == row_meets(row_view(*row), database.posits(), *c),
{
    let pid = match row.slots.get(c.variable.as_str()) {
        Some(pid) => pid,
        None => {
            return false;
        },
    };
    match row.slot_kinds.get(c.variable.as_str()) {
        Some(kind) => {
            if kind != 1 {
                return false;
            }
        },
        None => {
            return false;
        },
    }
    match time_for(database, pid) {
        Some(pt) => relation_between(&pt, c.relation, &c.time),
        None => false,
    }
}

/// The rows whose time variables meet every condition, in order; a row
/// that does not bind a condition's variable as a time does not meet it.
pub fn filter_rows_by_time(database: &Database, rows: Vec<SearchRow>, conditions: &Vec<TimeCondition>) -> (out: Vec<
    SearchRow,
>)
    ensures
        rows_view(out@) == rows_meeting(rows_view(rows@), database.posits(), conditions@),
{
    let ghost rv = rows_view(rows@);
    let ghost ps = database.posits();
    let mut out: Vec<SearchRow> = Vec::new();
    let mut remaining = rows;
    let n = remaining.len();
    let mut i: usize = 0;
    assert(rv.take(0) =~= Seq::<RowView>::empty());
    assert(rows_view(remaining@) =~= rv.skip(0));
    while i < n
        invariant
            i <= n,
            n == rv.len(),
            ps == database.posits(),
            remaining@.len() == n - i,
            rows_view(remaining@) == rv.skip(i as int),
            rows_view(out@) == rows_meeting(rv.take(i as int), ps, conditions@),
        decreases n - i,
    {
        let ghost was = remaining@;
        let row = remaining.remove(0);
        proof {
            assert(rows_view(was)[0] == rv.skip(i as int)[0]);
            assert(row_view(row) == rv[i as int]);
            assert(rows_view(remaining@) =~= rv.skip(i + 1)) by {
                assert(remaining@ =~= was.subrange(1, was.len() as int));
                assert forall|j: int| 0 <= j < rows_view(remaining@).len() implies rows_view(remaining@)[j] == rv.skip(i + 1)[j] by {
                    assert(rows_view(was)[j + 1] == rv.skip(i as int)[j + 1]);
                }
            }
        }
        let mut ok = true;
        let mut k: usize = 0;
        while k < conditions.len() && ok
            invariant
                k <= conditions@.len(),
                ps == database.posits(),
                ok ==> forall|q: int| 0 <= q < k ==> row_meets(row_view(row), ps, #[trigger] conditions@[q]),
                !ok ==> !(forall|q: int| 0 <= q < conditions@.len() ==> row_meets(row_view(row), ps, #[trigger] conditions@[q])),
            decreases conditions@.len() - k,
        {
            if !meets(database, &row, &conditions[k]) {
                ok = false;
            }
            k = k + 1;
        }
        proof {
            assert(rv.take(i + 1).drop_last() =~= rv.take(i as int));
            assert(rv.take(i + 1).last() == rv[i as int]);
        }
        if ok {
            let ghost before = out@;
            out.push(row);
            assert(rows_view(out@) =~= rows_view(before).push(row_view(row)));
        }
        i = i + 1;
    }
    assert(rv.take(n as int) =~= rv);
    out
}

// ---------------------------------------------------------------------------
// Projection
// ---------------------------------------------------------------------------

/// The kind each variable of the patterns was last given: 0 for an
/// identity (a posit variable or a slot), 1 for a value, 2 for a time.
pub open spec fn variable_kinds(patterns: Seq<SearchPattern>) -> Map<Seq<char>, Thing>
    decreases patterns.len(),
{
    if patterns.len() == 0 {
        Map::empty()
    } else {
        let p = patterns.last();
        let m = named_insert(variable_kinds(patterns.drop_last()), p.variable, 0);
        let m = slot_kinds(m, p.terms@);
        named_insert(named_insert(m, p.value_variable, 1), p.time_variable, 2)
    }
}

/// `m` with each slot variable given the identity kind.
pub open spec fn slot_kinds(m: Map<Seq<char>, Thing>, terms: Seq<SearchTerm>) -> Map<Seq<char>, Thing>
    decreases terms.len(),
{
    if terms.len() == 0 {
        m
    } else {
        let before = slot_kinds(m, terms.drop_last());
        match slot_variable(terms.last().slot) {
            Some(v) => before.insert(v, 0),
            None => before,
        }
    }
}

/// The value token of the posit with identity `t`.
pub open spec fn token_of_identity(ps: Seq<Posit>, t: Thing) -> Option<Seq<char>> {
    match identity_index(ps, t) {
        Some(i) => Some(ps[i].value_token()),
        None => None,
    }
}

/// The cell of variable `v` in the row: an identity's thing, a value's
/// token or a time's text; `None` where the row does not bind it.
pub open spec fn cell_of(e: RowView, ps: Seq<Posit>, kinds: Map<Seq<char>, Thing>, v: Seq<char>) -> Option<
    (ResultCellKind, Seq<char>),
> {
    if !kinds.contains_key(v) {
        None
    } else if kinds[v] == 0 {
        if e.0.contains_key(v) {
            Some((ResultCellKind::Thing, decimal_text(e.0[v] as nat)))
        } else if e.1.contains_key(v) {
            Some((ResultCellKind::Thing, decimal_text(e.1[v] as nat)))
        } else {
            None
        }
    } else if e.2.contains_key(v) {
        if e.3.contains_key(v) && e.3[v] == 1 {
            match time_of_identity(ps, e.2[v]) {
                Some(t) => Some((ResultCellKind::Time, time_text(t.moment_spec()))),
                None => None,
            }
        } else {
            match token_of_identity(ps, e.2[v]) {
                Some(token) => Some((ResultCellKind::Literal, token)),
                None => None,
            }
        }
    } else {
        None
    }
}

pub open spec fn cells_view(cells: Seq<ResultCell>) -> Seq<(ResultCellKind, Seq<char>)> {
    cells.map_values(|c: ResultCell| (c.kind, c.text@))
}

/// The row projected on the returned variables, or `None` where one of them
/// has no cell.
pub open spec fn projected(e: RowView, ps: Seq<Posit>, kinds: Map<Seq<char>, Thing>, columns: Seq<Seq<char>>) -> Option<
    Seq<(ResultCellKind, Seq<char>)>,
> {
    if forall|j: int| 0 <= j < columns.len() ==> cell_of(e, ps, kinds, #[trigger] columns[j]) is Some {
        Some(Seq::new(columns.len(), |j: int| cell_of(e, ps, kinds, columns[j])->0))
    } else {
        None
    }
}

/// The projections of the rows that have every returned variable, in order.
pub open spec fn projections(rows: Seq<RowView>, ps: Seq<Posit>, kinds: Map<Seq<char>, Thing>, columns: Seq<Seq<char>>) -> Seq<
    Seq<(ResultCellKind, Seq<char>)>,
>
    decreases rows.len(),
{
    if rows.len() == 0 {
        Seq::empty()
    } else {
        let rest = projections(rows.drop_last(), ps, kinds, columns);
        match projected(rows.last(), ps, kinds, columns) {
            Some(cells) => rest.push(cells),
            None => rest,
        }
    }
}

/// The value token of the posit with identity `t`.
fn token_for(database: &Database, t: Thing) -> (r: Option<String>)
    ensures
        match token_of_identity(database.posits(), t) {
            Some(token) => r matches Some(s) && s@ == token,
            None => r is None,
        },
{
    let posits = database.posit_keeper();
    let ghost ps = database.posits();
    let mut i = posits.len();
    assert(ps.take(ps.len() as int) =~= ps);
    while i > 0
        invariant
            i <= ps.len(),
            ps == posits.posits(),
            ps == database.posits(),
            identity_index(ps, t) == identity_index(ps.take(i as int), t),
        decreases i,
    {
        let posit = posits.get(i - 1);
        assert(ps.take(i as int).last() == ps[i - 1]);
        if posit.posit() == t {
            return Some(crate::text::text(posit.value().token()));
        }
        assert(ps.take(i as int).drop_last() =~= ps.take(i - 1));
        i = i - 1;
    }
    assert(ps.take(0) =~= Seq::<Posit>::empty());
    None
}

/// The cell of variable `v` in the row.
fn cell_for(database: &Database, row: &SearchRow, kinds: &VarThings, v: &str) -> (r: Option<ResultCell>)
    ensures
        match cell_of(row_view(*row), database.posits(), kinds.map(), v@) {
            Some(c) => r matches Some(cell) && (cell.kind, cell.text@) == c,
            None => r is None,
        },
{
    let kind = match kinds.get(v) {
        Some(kind) => kind,
        None => {
            return None;
        },
    };
    if kind == 0 {
        match row.identities.get(v) {
            Some(t) => {
                return Some(ResultCell::new(ResultCellKind::Thing, crate::text::decimal(t)));
            },
            None => {},
        }
        match row.posits.get(v) {
            Some(t) => Some(ResultCell::new(ResultCellKind::Thing, crate::text::decimal(t))),
            None => None,
        }
    } else {
        let pid = match row.slots.get(v) {
            Some(pid) => pid,
            None => {
                return None;
            },
        };
        let is_time = match row.slot_kinds.get(v) {
            Some(k) => k == 1,
            None => false,
        };
        if is_time {
            match time_for(database, pid) {
                Some(t) => Some(ResultCell::new(ResultCellKind::Time, t.to_string())),
                None => None,
            }
        } else {
            match token_for(database, pid) {
                Some(token) => Some(ResultCell::new(ResultCellKind::Literal, token)),
                None => None,
            }
        }
    }
}

/// The rows projected on the returned variables, skipping a row that lacks
/// one of them; `kinds` tells which variables are identities (0), values (1)
/// or times (2).
pub fn project_rows(database: &Database, rows: &Vec<SearchRow>, kinds: &VarThings, columns: &Vec<String>) -> (out: Vec<
    Vec<ResultCell>,
>)
    ensures
        out@.map_values(|cells: Vec<ResultCell>| cells_view(cells@)) == projections(
            rows_view(rows@),
            database.posits(),
            kinds.map(),
            columns@.map_values(|r: String| r@),
        ),
{
    let ghost rv = rows_view(rows@);
    let ghost ps = database.posits();
    let ghost names = columns@.map_values(|r: String| r@);
    let mut out: Vec<Vec<ResultCell>> = Vec::new();
    let mut i: usize = 0;
    assert(rv.take(0) =~= Seq::<RowView>::empty());
    while i < rows.len()
        invariant
            i <= rows@.len(),
            rv == rows_view(rows@),
            ps == database.posits(),
            names == columns@.map_values(|r: String| r@),
            out@.map_values(|cells: Vec<ResultCell>| cells_view(cells@)) == projections(rv.take(i as int), ps, kinds.map(), names),
        decreases rows@.len() - i,
    {
        let row = &rows[i];
        assert(row_view(*row) == rv[i as int]);
        let mut cells: Vec<ResultCell> = Vec::new();
        let mut complete = true;
        let mut j: usize = 0;
        while j < columns.len() && complete
            invariant
                j <= columns@.len(),
                ps == database.posits(),
                names == columns@.map_values(|r: String| r@),
                complete ==> cells@.len() == j && forall|q: int| 0 <= q < j ==> cell_of(row_view(*row), ps, kinds.map(), #[trigger] names[q])
                    == Some((cells@[q].kind, cells@[q].text@)),
                !complete ==> projected(row_view(*row), ps, kinds.map(), names) is None,
            decreases columns@.len() - j,
        {
            assert(names[j as int] == columns@[j as int]@);
            match cell_for(database, row, kinds, columns[j].as_str()) {
                Some(cell) => {
                    cells.push(cell);
                },
                None => {
                    complete = false;
                },
            }
            j = j + 1;
        }
        proof {
            assert(rv.take(i + 1).drop_last() =~= rv.take(i as int));
            assert(rv.take(i + 1).last() == rv[i as int]);
        }
        if complete {
            let ghost before = out@;
            proof {
                assert(projected(row_view(*row), ps, kinds.map(), names) == Some(cells_view(cells@))) by {
                    assert forall|q: int| 0 <= q < names.len() implies cell_of(row_view(*row), ps, kinds.map(), #[trigger] names[q]) is Some by {}
                    assert(Seq::new(names.len(), |q: int| cell_of(row_view(*row), ps, kinds.map(), names[q])->0) =~= cells_view(cells@));
                }
            }
            out.push(cells);
            proof {
                assert(out@.map_values(|cells: Vec<ResultCell>| cells_view(cells@)) =~= before.map_values(
                    |cells: Vec<ResultCell>| cells_view(cells@),
                ).push(cells_view(cells@)));
            }
        }
        i = i + 1;
    }
    assert(rv.take(rows@.len() as int) =~= rv);
    out
}

/// The kind each variable of the patterns was last given.
pub fn kinds_of(patterns: &Vec<SearchPattern>) -> (k: VarThings)
    ensures
        k.map() == variable_kinds(patterns@),
{
    let mut kinds = VarThings::new();
    let mut i: usize = 0;
    while i < patterns.len()
        invariant
            i <= patterns@.len(),
            kinds.map() == variable_kinds(patterns@.take(i as int)),
        decreases patterns@.len() - i,
    {
        proof {
            assert(patterns@.take(i + 1).drop_last() =~= patterns@.take(i as int));
            assert(patterns@.take(i + 1).last() == patterns@[i as int]);
        }
        let p = &patterns[i];
        set_named(&mut kinds, &p.variable, 0);
        let ghost start = kinds.map();
        let mut k: usize = 0;
        while k < p.terms.len()
            invariant
                k <= p.terms@.len(),
                kinds.map() == slot_kinds(start, p.terms@.take(k as int)),
            decreases p.terms@.len() - k,
        {
            assert(p.terms@.take(k + 1).drop_last() =~= p.terms@.take(k as int));
            assert(p.terms@.take(k + 1).last() == p.terms@[k as int]);
            match &p.terms[k].slot {
                SearchSlot::Insert(v) | SearchSlot::Recall(v) => kinds.set(v.as_str(), 0),
                SearchSlot::Wildcard => {},
            }
            k = k + 1;
        }
        assert(p.terms@.take(p.terms@.len() as int) =~= p.terms@);
        set_named(&mut kinds, &p.value_variable, 1);
        set_named(&mut kinds, &p.time_variable, 2);
        i = i + 1;
    }
    assert(patterns@.take(patterns@.len() as int) =~= patterns@);
    kinds
}

// ---------------------------------------------------------------------------
// A search command
// ---------------------------------------------------------------------------

/// A `search` command over its command tree: its posit patterns, its `where`
/// conditions on times, between times and on values, and the variables its
/// `return` clause projects.
#[derive(Debug)]
pub struct SearchCommand {
    pub patterns: Vec<SearchPattern>,
    pub conditions: Vec<TimeCondition>,
    pub pair_conditions: Vec<TimePairCondition>,
    pub value_conditions: Vec<ValueCondition>,
    pub columns: Vec<String>,
}

/// A pattern fails its clause: its time, its value or its slots leave no
/// candidate of those before them.
pub open spec fn pattern_failed(ps: Seq<Posit>, roles: Seq<Role>, pattern: SearchPattern, b: BindingMap) -> bool {
    let ids = named_identities(roles, term_roles(pattern.terms@));
    let after_time = candidate_identities(ps, ids, pattern.time, None);
    let after_value = candidate_identities(ps, ids, pattern.time, pattern.value);
    let found = match pattern_result(ps, roles, pattern, b) {
        Some((set, _)) => set,
        None => Set::empty(),
    };
    ||| pattern.time is Some && after_time.is_empty()
    ||| pattern.value is Some && after_value.is_empty()
    ||| !after_value.is_empty() && found.is_empty()
}

/// The state of a search after its first patterns: whether rows were
/// started, whether a clause failed, the rows, and the bindings; `None`
/// where a pattern fails with an error. A pattern without slots does
/// nothing; one that finds nothing adds no rows; the first that finds posits
/// starts the rows, and each later one joins them.
pub open spec fn search_state(ps: Seq<Posit>, roles: Seq<Role>, patterns: Seq<SearchPattern>, b0: BindingMap) -> Option<
    (bool, bool, Seq<RowView>, BindingMap),
>
    decreases patterns.len(),
{
    if patterns.len() == 0 {
        Some((false, false, Seq::empty(), b0))
    } else {
        match search_state(ps, roles, patterns.drop_last(), b0) {
            None => None,
            Some((started, failed, rows, b)) => {
                let p = patterns.last();
                if p.terms@.len() == 0 {
                    Some((started, failed, rows, b))
                } else {
                    match pattern_result(ps, roles, p, b) {
                        None => None,
                        Some((found, b2)) => {
                            let f = failed || pattern_failed(ps, roles, p, b);
                            if found.is_empty() {
                                Some((started, f, rows, b2))
                            } else {
                                let cands = candidate_infos(ps, p.terms@, increasing_of(found));
                                if !started {
                                    Some((true, f, cands.map_values(|c: (Thing, Map<Seq<char>, Thing>)| seed_row(c.0, c.1, p)), b2))
                                } else {
                                    let j = joined(rows, cands, p);
                                    Some((true, f || j.len() == 0, j, b2))
                                }
                            }
                        },
                    }
                }
            },
        }
    }
}

/// The rows a search returns: none where a clause failed or no pattern
/// found a posit; else, where every variable of its value conditions is one
/// of its variables, the rows that meet its conditions on times, then its
/// conditions between variables (as times, then as values), then those on
/// values, projected on its columns. `None`
/// where a pattern fails with an error, a value condition names a variable
/// the search does not have, or a value condition cannot be answered for a
/// row.
pub open spec fn search_rows(ps: Seq<Posit>, roles: Seq<Role>, command: SearchCommand, b0: BindingMap) -> Option<
    Seq<Seq<(ResultCellKind, Seq<char>)>>,
> {
    let kinds = variable_kinds(command.patterns@);
    match search_state(ps, roles, command.patterns@, b0) {
        None => None,
        Some((started, failed, rows, b)) => if failed || !started {
            Some(Seq::empty())
        } else if exists|k: int|
            0 <= k < command.value_conditions@.len() && !kinds.contains_key(
                #[trigger] command.value_conditions@[k].variable@,
            ) {
            None
        } else {
            let timed = rows_meeting_pairs(rows_meeting(rows, ps, command.conditions@), ps, command.pair_conditions@);
            if timed.len() == 0 {
                Some(Seq::empty())
            } else {
                match pair_filter(timed, ps, command.pair_conditions@) {
                    None => None,
                    Some(paired) => match value_filter(paired, ps, command.value_conditions@) {
                        None => None,
                        Some(kept) => Some(projections(kept, ps, kinds, command.columns@.map_values(|c: String| c@))),
                    },
                }
            }
        },
    }
}

/// Once a pattern fails with an error, the search does.
proof fn lemma_state_failure_stays(ps: Seq<Posit>, roles: Seq<Role>, patterns: Seq<SearchPattern>, b0: BindingMap, j: int)
    requires
        0 <= j <= patterns.len(),
        search_state(ps, roles, patterns.take(j), b0) is None,
    ensures
        search_state(ps, roles, patterns, b0) is None,
    decreases patterns.len(),
{
    if j == patterns.len() {
        assert(patterns.take(j) =~= patterns);
    } else {
        assert(patterns.take(j) =~= patterns.drop_last().take(j));
        lemma_state_failure_stays(ps, roles, patterns.drop_last(), b0, j);
    }
}

/// Runs a `search` command: its patterns in turn, joined into rows, the rows
/// that meet its time conditions projected on its columns.
pub fn search(database: &Database, command: &SearchCommand, bindings: &mut Bindings) -> (r: Result<
    Vec<Vec<ResultCell>>,
    DatabaseError,
>)
    ensures
        match search_rows(database.posits(), database.roles(), *command, old(bindings).map()) {
            Some(rows) => r matches Ok(out) && out@.map_values(|cells: Vec<ResultCell>| cells_view(cells@)) == rows,
            None => r is Err,
        },
        r is Ok ==> (search_state(database.posits(), database.roles(), command.patterns@, old(bindings).map()) matches Some(
            (_, _, _, b),
        ) && final(bindings).map() == b),
{
    let ghost ps = database.posits();
    let ghost roles = database.roles();
    let mut started = false;
    let mut failed = false;
    let mut rows: Vec<SearchRow> = Vec::new();
    let mut i: usize = 0;
    while i < command.patterns.len()
        invariant
            i <= command.patterns@.len(),
            ps == database.posits(),
            roles == database.roles(),
            search_state(ps, roles, command.patterns@.take(i as int), old(bindings).map()) == Some(
                (started, failed, rows_view(rows@), bindings.map()),
            ),
        decreases command.patterns@.len() - i,
    {
        proof {
            assert(command.patterns@.take(i + 1).drop_last() =~= command.patterns@.take(i as int));
            assert(command.patterns@.take(i + 1).last() == command.patterns@[i as int]);
        }
        let pattern = &command.patterns[i];
        if pattern.terms.len() > 0 {
            let ghost b = bindings.map();
            let names = {
                let mut names: Vec<String> = Vec::new();
                let mut k: usize = 0;
                while k < pattern.terms.len()
                    invariant
                        k <= pattern.terms@.len(),
                        names@.map_values(|n: String| n@) == term_roles(pattern.terms@).take(k as int),
                    decreases pattern.terms@.len() - k,
                {
                    let role = pattern.terms[k].role.clone();
                    let ghost before = names@;
                    names.push(role);
                    proof {
                        assert(names@.map_values(|n: String| n@) =~= before.map_values(|n: String| n@).push(role@));
                        assert(term_roles(pattern.terms@).take(k + 1) =~= term_roles(pattern.terms@).take(k as int).push(
                            pattern.terms@[k as int].role@,
                        ));
                    }
                    k = k + 1;
                }
                assert(term_roles(pattern.terms@).take(pattern.terms@.len() as int) =~= term_roles(pattern.terms@));
                names
            };
            let found = match search_pattern(database, pattern, bindings) {
                Ok(found) => found,
                Err(e) => {
                    proof {
                        lemma_state_failure_stays(ps, roles, command.patterns@, old(bindings).map(), i + 1);
                    }
                    return Err(e);
                },
            };
            // the stages of the pattern, for the failure of its clause
            let after_time = pattern_candidates(database, &names, pattern.time, &None);
            let after_value = pattern_candidates(database, &names, pattern.time, &pattern.value);
            let stage_time = match after_time {
                Ok(set) => set.is_empty(),
                Err(_) => false,
            };
            let stage_value = match after_value {
                Ok(set) => set.is_empty(),
                Err(_) => false,
            };
            let emptied = !stage_value && found.is_empty();
            failed = failed || (pattern.time.is_some() && stage_time) || (pattern.value.is_some() && stage_value) || emptied;
            let listed = found.things();
            proof {
                lemma_increasing_of(listed@);
            }
            if !found.is_empty() {
                if !started {
                    rows = seed_rows(database, pattern, &found);
                    started = true;
                } else {
                    rows = join_rows(database, pattern, &found, &rows);
                    if rows.len() == 0 {
                        failed = true;
                    }
                }
            }
        }
        i = i + 1;
    }
    assert(command.patterns@.take(command.patterns@.len() as int) =~= command.patterns@);
    if failed || !started {
        return Ok(Vec::new());
    }
    let kinds = kinds_of(&command.patterns);
    let mut k: usize = 0;
    while k < command.value_conditions.len()
        invariant
            k <= command.value_conditions@.len(),
            kinds.map() == variable_kinds(command.patterns@),
            ps == database.posits(),
            roles == database.roles(),
            started,
            !failed,
            search_state(ps, roles, command.patterns@, old(bindings).map()) == Some(
                (started, failed, rows_view(rows@), bindings.map()),
            ),
            forall|q: int| 0 <= q < k ==> kinds.map().contains_key(#[trigger] command.value_conditions@[q].variable@),
        decreases command.value_conditions@.len() - k,
    {
        if kinds.get(command.value_conditions[k].variable.as_str()).is_none() {
            assert(!variable_kinds(command.patterns@).contains_key(command.value_conditions@[k as int].variable@));
            return Err(DatabaseError::Execution(crate::text::text("a condition names a variable the search does not have")));
        }
        k = k + 1;
    }
    let rows = filter_rows_by_time(database, rows, &command.conditions);
    let rows = filter_rows_by_time_pairs(database, rows, &command.pair_conditions);
    if rows.len() == 0 {
        return Ok(Vec::new());
    }
    let rows = match filter_rows_by_value_pairs(database, rows, &command.pair_conditions) {
        Some(rows) => rows,
        None => {
            return Err(DatabaseError::Execution(crate::text::text("a condition between values cannot be answered")));
        },
    };
    let rows = match filter_rows_by_value(database, rows, &command.value_conditions) {
        Some(rows) => rows,
        None => {
            return Err(DatabaseError::Execution(crate::text::text("a value condition cannot be answered")));
        },
    };
    Ok(project_rows(database, &rows, &kinds, &command.columns))
}

/// The time the row binds `v` to, if it binds it as a time.
fn bound_time(database: &Database, row: &SearchRow, v: &str) -> (r: Option<Option<Time>>)
    ensures
        r is Some <==> (row_view(*row).2.contains_key(v@) && row_view(*row).3.contains_key(v@) && row_view(*row).3[v@] == 1),
        r matches Some(t) ==> t == time_of_identity(database.posits(), row_view(*row).2[v@]),
{
    let pid = match row.slots.get(v) {
        Some(pid) => pid,
        None => {
            return None;
        },
    };
    match row.slot_kinds.get(v) {
        Some(kind) => {
            if kind != 1 {
                return None;
            }
        },
        None => {
            return None;
        },
    }
    Some(time_for(database, pid))
}

fn meets_pair(database: &Database, row: &SearchRow, c: &TimePairCondition) -> (r: bool)
    ensures
        r == row_meets_pair(row_view(*row), database.posits(), *c),
{
    match (bound_time(database, row, c.left.as_str()), bound_time(database, row, c.right.as_str())) {
        (Some(a), Some(b)) => match (a, b) {
            (Some(a), Some(b)) => relation_between(&a, relation_for(c.operator), &b),
            _ => false,
        },
        _ => true,
    }
}

/// The rows that meet every condition between two times, in order.
pub fn filter_rows_by_time_pairs(database: &Database, rows: Vec<SearchRow>, conditions: &Vec<TimePairCondition>) -> (out: Vec<
    SearchRow,
>)
    ensures
        rows_view(out@) == rows_meeting_pairs(rows_view(rows@), database.posits(), conditions@),
{
    let ghost rv = rows_view(rows@);
    let ghost ps = database.posits();
    let mut out: Vec<SearchRow> = Vec::new();
    let mut remaining = rows;
    let n = remaining.len();
    let mut i: usize = 0;
    assert(rv.take(0) =~= Seq::<RowView>::empty());
    assert(rows_view(remaining@) =~= rv.skip(0));
    while i < n
        invariant
            i <= n,
            n == rv.len(),
            ps == database.posits(),
            remaining@.len() == n - i,
            rows_view(remaining@) == rv.skip(i as int),
            rows_view(out@) == rows_meeting_pairs(rv.take(i as int), ps, conditions@),
        decreases n - i,
    {
        let ghost was = remaining@;
        let row = remaining.remove(0);
        proof {
            assert(rows_view(was)[0] == rv.skip(i as int)[0]);
            assert(row_view(row) == rv[i as int]);
            assert(rows_view(remaining@) =~= rv.skip(i + 1)) by {
                assert(remaining@ =~= was.subrange(1, was.len() as int));
                assert forall|j: int| 0 <= j < rows_view(remaining@).len() implies rows_view(remaining@)[j] == rv.skip(i + 1)[j] by {
                    assert(rows_view(was)[j + 1] == rv.skip(i as int)[j + 1]);
                }
            }
        }
        let mut ok = true;
        let mut k: usize = 0;
        while k < conditions.len() && ok
            invariant
                k <= conditions@.len(),
                ps == database.posits(),
                ok ==> forall|q: int| 0 <= q < k ==> row_meets_pair(row_view(row), ps, #[trigger] conditions@[q]),
                !ok ==> !(forall|q: int| 0 <= q < conditions@.len() ==> row_meets_pair(row_view(row), ps, #[trigger] conditions@[q])),
            decreases conditions@.len() - k,
        {
            if !meets_pair(database, &row, &conditions[k]) {
                ok = false;
            }
            k = k + 1;
        }
        proof {
            assert(rv.take(i + 1).drop_last() =~= rv.take(i as int));
            assert(rv.take(i + 1).last() == rv[i as int]);
        }
        if ok {
            let ghost before = out@;
            out.push(row);
            assert(rows_view(out@) =~= rows_view(before).push(row_view(row)));
        }
        i = i + 1;
    }
    assert(rv.take(n as int) =~= rv);
    out
}

} // verus!
