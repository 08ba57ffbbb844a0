//! The constructs of the positional model: things, roles, appearances and
//! appearance sets, the generator that hands out identities, and the lookup
//! indexes kept between constructs.

use crate::datatype::Time;
use crate::error::DatabaseError;
use crate::literal::{LiteralFamily, LiteralValue};
use crate::storage::{ReplayedPosit, ReplayedRole, ReplayedStore};
use crate::text::{push_decimal, text};
use crate::unicode::{ascii_text, canonical_text, nfc_text};
use std::collections::HashMap;
use std::collections::HashSet;
use vstd::prelude::*;
use vstd::std_specs::hash::obeys_key_model;
use vstd::string::StrSliceExecFns;
use vstd::string::StringExecFns;

verus! {

broadcast use vstd::seq_lib::group_seq_properties;

/// Opaque identity of every persisted construct.
pub type Thing = u64;

/// The initial lower bound of the identity generator.
pub const GENESIS: Thing = 0;

/// Fixed store-local identity of the built-in `posit` role.
pub const POSIT_ROLE_ID: Thing = 1;

/// Fixed store-local identity of the built-in `ascertains` role.
pub const ASCERTAINS_ROLE_ID: Thing = 2;

/// Identities 1 through this one are reserved for the built-in roles.
pub const LAST_BUILTIN_IDENTITY: Thing = 5;

// ---------------------------------------------------------------------------
// Thing generator
// ---------------------------------------------------------------------------

/// Hands out fresh identities. Identities are monotonic and never recycled:
/// a released identity leaves a gap.
#[derive(Debug)]
pub struct ThingGenerator {
    lower_bound: Thing,
    retained: HashSet<Thing>,
}

impl ThingGenerator {
    /// The largest identity handed out or observed so far.
    pub closed spec fn bound(&self) -> Thing {
        self.lower_bound
    }

    /// The identities currently retained.
    pub closed spec fn retained(&self) -> Set<Thing> {
        self.retained@
    }

    #[verifier::type_invariant]
    spec fn bounded(&self) -> bool {
        forall|t: Thing| #[trigger] self.retained@.contains(t) ==> t <= self.lower_bound
    }

    /// A generator whose lower bound is `GENESIS` and that retains nothing.
    pub fn new() -> (g: Self)
        ensures
            g.bound() == GENESIS,
            g.retained() == Set::<Thing>::empty(),
    {
        ThingGenerator { lower_bound: GENESIS, retained: HashSet::new() }
    }

    /// Teaches the generator an identity observed elsewhere (a restore).
    pub fn retain(&mut self, t: Thing)
        ensures
            final(self).retained() == old(self).retained().insert(t),
            final(self).bound() == (if t > old(self).bound() {
                t
            } else {
                old(self).bound()
            }),
            retains(*old(self), *final(self), t),
    {
        proof {
            use_type_invariant(&*self);
        }
        let mut retained = HashSet::new();
        std::mem::swap(&mut retained, &mut self.retained);
        retained.insert(t);
        if t > self.lower_bound {
            self.lower_bound = t;
        }
        self.retained = retained;
    }

    /// The identity itself where it is retained.
    pub fn check(&self, t: Thing) -> (r: Option<Thing>)
        ensures
            r == (if self.retained().contains(t) {
                Some(t)
            } else {
                None::<Thing>
            }),
    {
        if self.retained.contains(&t) {
            Some(t)
        } else {
            None
        }
    }

    /// Forgets an identity without making it available again.
    pub fn release(&mut self, t: Thing)
        ensures
            final(self).retained() == old(self).retained().remove(t),
            final(self).bound() == old(self).bound(),
            releases(*old(self), *final(self), t),
    {
        proof {
            use_type_invariant(&*self);
        }
        let mut retained = HashSet::new();
        std::mem::swap(&mut retained, &mut self.retained);
        retained.remove(&t);
        self.retained = retained;
    }

    /// The number of identities retained.
    pub fn len(&self) -> (n: usize)
        ensures
            n == self.retained().len(),
    {
        self.retained.len()
    }

    /// Whether another identity can be handed out.
    pub fn can_generate(&self) -> (b: bool)
        ensures
            b == (self.bound() < u64::MAX),
    {
        self.lower_bound < u64::MAX
    }

    /// A fresh identity, one above every identity seen so far.
    pub fn generate(&mut self) -> (t: Thing)
        requires
            old(self).bound() < u64::MAX,
        ensures
            generates(*old(self), *final(self), t),
            forall|u: Thing| #[trigger] old(self).retained().contains(u) ==> u < t,
    {
        proof {
            use_type_invariant(&*self);
        }
        let t = self.lower_bound + 1;
        let mut retained = HashSet::new();
        std::mem::swap(&mut retained, &mut self.retained);
        retained.insert(t);
        self.lower_bound = t;
        self.retained = retained;
        t
    }
}

impl Default for ThingGenerator {
    fn default() -> (g: Self)
        ensures
            g.bound() == GENESIS,
            g.retained() == Set::<Thing>::empty(),
    {
        Self::new()
    }
}

/// What one call of `generate` does to a generator in state `before`,
/// leaving it in state `after` and handing out `t`.
pub open spec fn generates(before: ThingGenerator, after: ThingGenerator, t: Thing) -> bool {
    &&& t == before.bound() + 1
    &&& after.bound() == t
    &&& after.retained() == before.retained().insert(t)
}

/// What one call of `release` does: the identity is forgotten, the bound
/// stays.
pub open spec fn releases(before: ThingGenerator, after: ThingGenerator, t: Thing) -> bool {
    &&& after.retained() == before.retained().remove(t)
    &&& after.bound() == before.bound()
}

/// What one call of `retain` does: the identity is kept, and the bound
/// rises to it.
pub open spec fn retains(before: ThingGenerator, after: ThingGenerator, t: Thing) -> bool {
    &&& after.retained() == before.retained().insert(t)
    &&& after.bound() == (if t > before.bound() { t } else { before.bound() })
}

/// A released identity is no longer retained, and the next identity handed
/// out is another, above it: identities are never reused.
pub proof fn released_identities_are_not_reused(
    g0: ThingGenerator,
    g1: ThingGenerator,
    g2: ThingGenerator,
    t: Thing,
    u: Thing,
)
    requires
        t <= g0.bound(),
        releases(g0, g1, t),
        generates(g1, g2, u),
    ensures
        !g1.retained().contains(t),
        !g2.retained().contains(t),
        t < u,
{
}

/// A retained identity stays retained through the next generation, and the
/// identity handed out lies above it.
pub proof fn generation_passes_retained_identities(
    g0: ThingGenerator,
    g1: ThingGenerator,
    g2: ThingGenerator,
    t: Thing,
    u: Thing,
)
    requires
        retains(g0, g1, t),
        generates(g1, g2, u),
    ensures
        g2.retained().contains(t),
        t < u,
{
}

/// A call that teaches or forgets an identity.
pub enum GeneratorCall {
    Retain(Thing),
    Release(Thing),
}

/// `states` follows a generator through `calls`, one state per call.
pub open spec fn generator_run(calls: Seq<GeneratorCall>, states: Seq<ThingGenerator>) -> bool {
    &&& states.len() == calls.len() + 1
    &&& forall|i: int|
        0 <= i < calls.len() ==> match #[trigger] calls[i] {
            GeneratorCall::Retain(t) => retains(states[i], states[i + 1], t),
            GeneratorCall::Release(t) => releases(states[i], states[i + 1], t),
        }
}

proof fn lemma_run_bound(calls: Seq<GeneratorCall>, states: Seq<ThingGenerator>, k: int)
    requires
        generator_run(calls, states),
        0 <= k < states.len(),
    ensures
        states[k].bound() >= states[0].bound(),
        forall|i: int|
            0 <= i < k ==> (#[trigger] calls[i] matches GeneratorCall::Retain(t) ==> t <= states[k].bound()),
    decreases k,
{
    if k > 0 {
        lemma_run_bound(calls, states, k - 1);
        let c = calls[k - 1];
        assert(states[k].bound() >= states[k - 1].bound());
    }
}

/// Whatever identities are retained and released after one is handed out,
/// the next one handed out lies above it and above every identity retained
/// meanwhile, and is retained: a released identity is never handed out again.
pub proof fn identities_are_never_reissued(
    g0: ThingGenerator,
    first: Thing,
    calls: Seq<GeneratorCall>,
    states: Seq<ThingGenerator>,
    g2: ThingGenerator,
    second: Thing,
)
    requires
        generates(g0, states[0], first),
        generator_run(calls, states),
        generates(states.last(), g2, second),
    ensures
        first < second,
        forall|i: int| 0 <= i < calls.len() ==> (#[trigger] calls[i] matches GeneratorCall::Retain(t) ==> t < second),
        g2.retained().contains(second),
{
    lemma_run_bound(calls, states, states.len() - 1);
}

/// Identities handed out one after the other strictly increase, and both
/// stay retained.
pub proof fn generated_identities_increase(
    g0: ThingGenerator,
    g1: ThingGenerator,
    g2: ThingGenerator,
    first: Thing,
    second: Thing,
)
    requires
        generates(g0, g1, first),
        generates(g1, g2, second),
    ensures
        first < second,
        g2.retained().contains(first),
        g2.retained().contains(second),
{
}

// ---------------------------------------------------------------------------
// Role
// ---------------------------------------------------------------------------

/// A named placeholder a thing can appear in. Its name is kept in Unicode
/// canonical composition; two roles are the same role when their identities
/// agree.
#[derive(Debug)]
pub struct Role {
    role: Thing,
    name: String,
    reserved: bool,
}

impl Role {
    pub closed spec fn identity(&self) -> Thing {
        self.role
    }

    pub closed spec fn name_text(&self) -> Seq<char> {
        self.name@
    }

    pub closed spec fn is_reserved(&self) -> bool {
        self.reserved
    }

    /// A role with the canonical (NFC) form of `name`.
    pub fn new(role: Thing, name: String, reserved: bool) -> (r: Self)
        ensures
            r.identity() == role,
            r.name_text() == nfc_text(name@),
            nfc_text(r.name_text()) == r.name_text(),
            ascii_text(name@) ==> r.name_text() == name@,
            r.is_reserved() == reserved,
    {
        Role { role, name: canonical_text(name.as_str()), reserved }
    }

    pub fn role(&self) -> (t: Thing)
        ensures
            t == self.identity(),
    {
        self.role
    }

    pub fn name(&self) -> (n: &str)
        ensures
            n@ == self.name_text(),
    {
        self.name.as_str()
    }

    pub fn reserved(&self) -> (b: bool)
        ensures
            b == self.is_reserved(),
    {
        self.reserved
    }
}

impl Clone for Role {
    fn clone(&self) -> (r: Self)
        ensures
            r == *self,
    {
        Role { role: self.role, name: self.name.clone(), reserved: self.reserved }
    }
}

impl PartialEq for Role {
    fn eq(&self, other: &Self) -> (r: bool) {
        self.role == other.role
    }
}

impl vstd::std_specs::cmp::PartialEqSpecImpl for Role {
    open spec fn obeys_eq_spec() -> bool {
        true
    }

    open spec fn eq_spec(&self, other: &Self) -> bool {
        self.identity() == other.identity()
    }
}

impl Eq for Role {
}

// ---------------------------------------------------------------------------
// Appearance
// ---------------------------------------------------------------------------

/// A thing in a role.
#[derive(Debug)]
pub struct Appearance {
    thing: Thing,
    role: Role,
}

impl Appearance {
    pub closed spec fn thing_spec(&self) -> Thing {
        self.thing
    }

    pub closed spec fn role_spec(&self) -> Role {
        self.role
    }

    pub fn new(thing: Thing, role: Role) -> (a: Self)
        ensures
            a.thing_spec() == thing,
            a.role_spec() == role,
    {
        Appearance { thing, role }
    }

    pub fn thing(&self) -> (t: Thing)
        ensures
            t == self.thing_spec(),
    {
        self.thing
    }

    pub fn role(&self) -> (r: Role)
        ensures
            r == self.role_spec(),
    {
        self.role.clone()
    }

    fn role_identity(&self) -> (t: Thing)
        ensures
            t == self.role_spec().identity(),
    {
        self.role.role()
    }

    fn role_name(&self) -> (n: &str)
        ensures
            n@ == self.role_spec().name_text(),
    {
        self.role.name()
    }
}

impl Clone for Appearance {
    fn clone(&self) -> (r: Self)
        ensures
            r == *self,
    {
        Appearance { thing: self.thing, role: self.role.clone() }
    }
}

// ---------------------------------------------------------------------------
// Text order
// ---------------------------------------------------------------------------

/// `a` sorts strictly before `b`: the lexicographic order on characters,
/// which is also the order of their UTF-8 bytes.
pub open spec fn text_before(a: Seq<char>, b: Seq<char>) -> bool
    decreases a.len(),
{
    if b.len() == 0 {
        false
    } else if a.len() == 0 {
        true
    } else if (a[0] as u32) != (b[0] as u32) {
        (a[0] as u32) < (b[0] as u32)
    } else {
        text_before(a.drop_first(), b.drop_first())
    }
}

/// Every text sorts no later than the ones after it.
pub open spec fn texts_sorted(s: Seq<Seq<char>>) -> bool {
    forall|i: int, j: int| 0 <= i < j < s.len() ==> !text_before(#[trigger] s[j], #[trigger] s[i])
}

proof fn lemma_text_before_asymmetric(a: Seq<char>, b: Seq<char>)
    requires
        text_before(a, b),
    ensures
        !text_before(b, a),
    decreases a.len(),
{
    if a.len() > 0 && b.len() > 0 && (a[0] as u32) == (b[0] as u32) {
        lemma_text_before_asymmetric(a.drop_first(), b.drop_first());
    }
}

proof fn lemma_text_not_before_transitive(a: Seq<char>, b: Seq<char>, c: Seq<char>)
    requires
        !text_before(b, a),
        !text_before(c, b),
    ensures
        !text_before(c, a),
    decreases a.len(),
{
    if a.len() > 0 && b.len() > 0 && c.len() > 0 && (a[0] as u32) == (b[0] as u32)
        && (b[0] as u32) == (c[0] as u32) {
        lemma_text_not_before_transitive(a.drop_first(), b.drop_first(), c.drop_first());
    }
}

/// Text order is a strict order: no text sorts before itself, and sorting
/// before is transitive.
pub proof fn text_order_is_strict(a: Seq<char>, b: Seq<char>, c: Seq<char>)
    ensures
        !text_before(a, a),
        text_before(a, b) && text_before(b, c) ==> text_before(a, c),
    decreases a.len(),
{
    if a.len() > 0 {
        text_order_is_strict(a.drop_first(), a.drop_first(), a.drop_first());
    }
    if a.len() > 0 && b.len() > 0 && c.len() > 0 && (a[0] as u32) == (b[0] as u32) && (b[0] as u32) == (c[0] as u32) {
        text_order_is_strict(a.drop_first(), b.drop_first(), c.drop_first());
    }
}

/// Whether `a` sorts strictly before `b`.
pub fn sorts_before(a: &str, b: &str) -> (r: bool)
    ensures
        r == text_before(a@, b@),
{
    let la = a.unicode_len();
    let lb = b.unicode_len();
    let mut k: usize = 0;
    while k < la && k < lb
        invariant
            la == a@.len(),
            lb == b@.len(),
            k <= la,
            k <= lb,
            text_before(a@, b@) == text_before(a@.skip(k as int), b@.skip(k as int)),
        decreases la - k,
    {
        let ca = a.get_char(k);
        let cb = b.get_char(k);
        if (ca as u32) != (cb as u32) {
            return (ca as u32) < (cb as u32);
        }
        assert(a@.skip(k as int).drop_first() =~= a@.skip(k + 1));
        assert(b@.skip(k as int).drop_first() =~= b@.skip(k + 1));
        k = k + 1;
    }
    k == la && k < lb
}

// ---------------------------------------------------------------------------
// Appearance set
// ---------------------------------------------------------------------------

/// No two appearances put things in the same role.
pub open spec fn roles_distinct(s: Seq<Appearance>) -> bool {
    forall|i: int, j: int|
        0 <= i < s.len() && 0 <= j < s.len() && i != j ==> #[trigger] s[i].role_spec().identity()
            != #[trigger] s[j].role_spec().identity()
}

/// Appearances in strictly increasing order of role identity.
pub open spec fn ordered_by_role(s: Seq<Appearance>) -> bool {
    forall|i: int, j: int|
        0 <= i < j < s.len() ==> #[trigger] s[i].role_spec().identity() < #[trigger] s[j].role_spec().identity()
}

/// The names of the roles of a sequence of appearances.
pub open spec fn role_names(s: Seq<Appearance>) -> Seq<Seq<char>> {
    s.map_values(|a: Appearance| a.role_spec().name_text())
}

/// The texts of a sequence of strings.
pub open spec fn texts(s: Seq<String>) -> Seq<Seq<char>> {
    s.map_values(|t: String| t@)
}

/// A sorted, duplicate-free collection of appearances, at most one per role.
#[derive(Debug)]
pub struct AppearanceSet {
    appearances: Vec<Appearance>,
}

impl AppearanceSet {
    pub closed spec fn members(&self) -> Seq<Appearance> {
        self.appearances@
    }

    #[verifier::type_invariant]
    spec fn ordered(&self) -> bool {
        ordered_by_role(self.appearances@)
    }

    /// Sorts the appearances by role; refuses a collection where two of them
    /// share a role.
    pub fn new(set: Vec<Appearance>) -> (r: Option<Self>)
        ensures
            r is Some <==> roles_distinct(set@),
            r matches Some(s) ==> ordered_by_role(s.members()) && s.members().to_multiset()
                == set@.to_multiset(),
    {
        let n = set.len();
        let mut out: Vec<Appearance> = Vec::new();
        let mut i: usize = 0;
        while i < n
            invariant
                n == set.len(),
                i <= n,
                ordered_by_role(out@),
                out@.to_multiset() == set@.subrange(0, i as int).to_multiset(),
                roles_distinct(set@.subrange(0, i as int)),
            decreases n - i,
        {
            let a = set[i].clone();
            let role = a.role_identity();
            let mut p: usize = 0;
            while p < out.len() && out[p].role_identity() < role
                invariant
                    p <= out.len(),
                    forall|k: int| 0 <= k < p ==> #[trigger] out@[k].role_spec().identity() < role,
                decreases out.len() - p,
            {
                p = p + 1;
            }
            let prefix = Ghost(set@.subrange(0, i as int));
            proof {
                assert forall|x: Appearance| #[trigger] out@.contains(x) implies prefix@.contains(x) by {
                    assert(out@.to_multiset().contains(x));
                }
            }
            if p < out.len() && out[p].role_identity() == role {
                proof {
                    let x = out@[p as int];
                    assert(out@.contains(x));
                    assert(prefix@.contains(x));
                    let k = choose|k: int| 0 <= k < prefix@.len() && prefix@[k] == x;
                    assert(set@[k] == x);
                    assert(set@[i as int] == a);
                    assert(!roles_distinct(set@));
                }
                return None;
            }
            proof {
                assert forall|j: int| p <= j < out.len() implies #[trigger] out@[j].role_spec().identity() > role by {
                    if j > p {
                        assert(out@[p as int].role_spec().identity() < out@[j].role_spec().identity());
                    }
                }
                assert forall|k: int| 0 <= k < i implies #[trigger] set@[k].role_spec().identity() != role by {
                    let x = set@[k];
                    assert(prefix@[k] == x);
                    assert(prefix@.to_multiset().contains(x));
                    assert(out@.contains(x));
                    let j = choose|j: int| 0 <= j < out@.len() && out@[j] == x;
                    if j < p {
                        assert(out@[j].role_spec().identity() < role);
                    } else {
                        assert(out@[j].role_spec().identity() > role);
                    }
                }
                assert(set@.subrange(0, i + 1) =~= prefix@.push(set@[i as int]));
            }
            out.insert(p, a);
            i = i + 1;
        }
        proof {
            assert(set@.subrange(0, n as int) =~= set@);
        }
        Some(AppearanceSet { appearances: out })
    }

    pub fn appearances(&self) -> (a: &Vec<Appearance>)
        ensures
            a@ == self.members(),
            ordered_by_role(a@),
    {
        proof {
            use_type_invariant(self);
        }
        &self.appearances
    }

    /// The names of the roles in the set, sorted.
    pub fn roles(&self) -> (names: Vec<String>)
        ensures
            texts_sorted(texts(names@)),
            texts(names@).to_multiset() == role_names(self.members()).to_multiset(),
    {
        let n = self.appearances.len();
        let mut out: Vec<String> = Vec::new();
        let mut i: usize = 0;
        while i < n
            invariant
                n == self.appearances@.len(),
                i <= n,
                texts_sorted(texts(out@)),
                texts(out@).to_multiset() == role_names(self.appearances@.subrange(0, i as int)).to_multiset(),
            decreases n - i,
        {
            let name = String::from_str(self.appearances[i].role_name());
            let mut p: usize = 0;
            while p < out.len() && sorts_before(out[p].as_str(), name.as_str())
                invariant
                    p <= out.len(),
                    forall|k: int| 0 <= k < p ==> text_before(#[trigger] out@[k]@, name@),
                decreases out.len() - p,
            {
                p = p + 1;
            }
            let ghost old_out = out@;
            let ghost prefix = self.appearances@.subrange(0, i as int);
            proof {
                assert forall|k: int| p <= k < old_out.len() implies !text_before(#[trigger] old_out[k]@, name@) by {
                    assert(!text_before(old_out[p as int]@, name@));
                    if k > p {
                        assert(texts(old_out)[p as int] == old_out[p as int]@);
                        assert(texts(old_out)[k] == old_out[k]@);
                        assert(!text_before(old_out[k]@, old_out[p as int]@));
                        lemma_text_not_before_transitive(name@, old_out[p as int]@, old_out[k]@);
                    }
                }
            }
            out.insert(p, name);
            proof {
                let t = texts(out@);
                assert(t =~= texts(old_out).insert(p as int, name@));
                assert forall|a: int, b: int| 0 <= a < b < t.len() implies !text_before(#[trigger] t[b], #[trigger] t[a]) by {
                    if a < p && b == p {
                        lemma_text_before_asymmetric(old_out[a]@, name@);
                    } else if a < p && b > p {
                        lemma_text_before_asymmetric(old_out[a]@, name@);
                        lemma_text_not_before_transitive(old_out[a]@, name@, old_out[b - 1]@);
                    } else if a == p {
                    } else if b < p {
                        assert(texts(old_out)[a] == old_out[a]@);
                        assert(texts(old_out)[b] == old_out[b]@);
                    } else {
                        assert(texts(old_out)[a - 1] == old_out[a - 1]@);
                        assert(texts(old_out)[b - 1] == old_out[b - 1]@);
                    }
                }
                assert(self.appearances@.subrange(0, i + 1) =~= prefix.push(self.appearances@[i as int]));
                assert(role_names(prefix.push(self.appearances@[i as int])) =~= role_names(prefix).push(name@));
            }
            i = i + 1;
        }
        proof {
            assert(self.appearances@.subrange(0, n as int) =~= self.appearances@);
        }
        out
    }
}

// ---------------------------------------------------------------------------
// Role keeper
// ---------------------------------------------------------------------------

/// The identity of the last role in `roles` with identity `t`.
pub open spec fn last_role_with(roles: Seq<Role>, t: Thing) -> Option<Role>
    decreases roles.len(),
{
    if roles.len() == 0 {
        None
    } else if roles.last().identity() == t {
        Some(roles.last())
    } else {
        last_role_with(roles.drop_last(), t)
    }
}

/// The role in `roles` with name `name`, where there is one.
pub open spec fn role_named(roles: Seq<Role>, name: Seq<char>) -> Option<Role>
    decreases roles.len(),
{
    if roles.len() == 0 {
        None
    } else if roles.last().name_text() == name {
        Some(roles.last())
    } else {
        role_named(roles.drop_last(), name)
    }
}

/// No two kept roles share a name.
pub open spec fn names_distinct(roles: Seq<Role>) -> bool {
    forall|i: int, j: int|
        0 <= i < roles.len() && 0 <= j < roles.len() && i != j ==> #[trigger] roles[i].name_text()
            != #[trigger] roles[j].name_text()
}

/// Keeps one canonical role per name, and finds roles by identity.
#[derive(Debug)]
pub struct RoleKeeper {
    kept: Vec<Role>,
}

impl RoleKeeper {
    /// The kept roles, in the order they were first kept.
    pub closed spec fn roles(&self) -> Seq<Role> {
        self.kept@
    }

    #[verifier::type_invariant]
    spec fn unique_names(&self) -> bool {
        names_distinct(self.kept@)
    }

    pub fn new() -> (k: Self)
        ensures
            k.roles() == Seq::<Role>::empty(),
    {
        RoleKeeper { kept: Vec::new() }
    }

    fn find_name(&self, name: &String) -> (r: Option<usize>)
        ensures
            match r {
                Some(i) => i < self.roles().len() && self.roles()[i as int].name_text() == name@
                    && role_named(self.roles(), name@) == Some(self.roles()[i as int]),
                None => role_named(self.roles(), name@) is None,
            },
    {
        let mut i = self.kept.len();
        while i > 0
            invariant
                i <= self.kept@.len(),
                role_named(self.kept@, name@) == role_named(self.kept@.subrange(0, i as int), name@),
            decreases i,
        {
            let ghost prefix = self.kept@.subrange(0, i as int);
            assert(prefix.drop_last() =~= self.kept@.subrange(0, i - 1));
            if self.kept[i - 1].name == *name {
                return Some(i - 1);
            }
            i = i - 1;
        }
        None
    }

    /// Keeps `role` unless a role of the same name is kept already; returns
    /// the kept role of that name and whether one was kept before.
    pub fn keep(&mut self, role: Role) -> (r: (Role, bool))
        ensures
            r.1 == role_named(old(self).roles(), role.name_text()) is Some,
            r.1 ==> final(self).roles() == old(self).roles()
                && Some(r.0) == role_named(old(self).roles(), role.name_text()),
            !r.1 ==> final(self).roles() == old(self).roles().push(role) && r.0 == role,
    {
        proof {
            use_type_invariant(&*self);
        }
        match self.find_name(&role.name) {
            Some(i) => (self.kept[i].clone(), true),
            None => {
                proof {
                    assert forall|j: int| 0 <= j < self.kept@.len() implies #[trigger] self.kept@[j].name_text() != role.name_text() by {
                        lemma_role_named_finds(self.kept@, role.name_text(), j);
                    }
                }
                let kept = role.clone();
                let mut roles = Vec::new();
                std::mem::swap(&mut roles, &mut self.kept);
                roles.push(role);
                self.kept = roles;
                (kept, false)
            }
        }
    }

    /// The kept role with the canonical form of `name`.
    pub fn get(&self, name: &str) -> (r: Option<Role>)
        ensures
            r == role_named(self.roles(), nfc_text(name@)),
    {
        let canonical = canonical_text(name);
        match self.find_name(&canonical) {
            Some(i) => Some(self.kept[i].clone()),
            None => None,
        }
    }

    /// The most recently kept role with identity `role`.
    pub fn lookup(&self, role: Thing) -> (r: Option<Role>)
        ensures
            r == last_role_with(self.roles(), role),
    {
        let mut i = self.kept.len();
        while i > 0
            invariant
                i <= self.kept@.len(),
                last_role_with(self.kept@, role) == last_role_with(self.kept@.subrange(0, i as int), role),
            decreases i,
        {
            let ghost prefix = self.kept@.subrange(0, i as int);
            assert(prefix.drop_last() =~= self.kept@.subrange(0, i - 1));
            if self.kept[i - 1].role() == role {
                return Some(self.kept[i - 1].clone());
            }
            i = i - 1;
        }
        None
    }

    pub fn len(&self) -> (n: usize)
        ensures
            n == self.roles().len(),
    {
        self.kept.len()
    }

    pub fn is_empty(&self) -> (b: bool)
        ensures
            b == (self.roles().len() == 0),
    {
        self.kept.len() == 0
    }

    /// A copy of every kept role.
    pub fn snapshot(&self) -> (roles: Vec<Role>)
        ensures
            roles@ == self.roles(),
    {
        let mut roles: Vec<Role> = Vec::new();
        let mut i: usize = 0;
        while i < self.kept.len()
            invariant
                i <= self.kept@.len(),
                roles@ == self.kept@.subrange(0, i as int),
            decreases self.kept@.len() - i,
        {
            roles.push(self.kept[i].clone());
            i = i + 1;
        }
        roles
    }
}

proof fn lemma_role_named_finds(roles: Seq<Role>, name: Seq<char>, j: int)
    requires
        0 <= j < roles.len(),
        role_named(roles, name) is None,
    ensures
        roles[j].name_text() != name,
    decreases roles.len(),
{
    if j < roles.len() - 1 {
        lemma_role_named_finds(roles.drop_last(), name, j);
    }
}

fn find_prepared(prepared: &Vec<Role>, name: &String) -> (r: Option<usize>)
    ensures
        r matches Some(k) ==> k < prepared@.len() && prepared_named(roles_parts(prepared@), name@) == Some(k as int),
        r is None ==> prepared_named(roles_parts(prepared@), name@) is None,
{
    proof {
        lemma_prepared_named(roles_parts(prepared@), name@);
    }
    let mut k: usize = 0;
    while k < prepared.len()
        invariant
            k <= prepared@.len(),
            forall|j: int| 0 <= j < k ==> (#[trigger] prepared@[j]).name_text() != name@,
            prepared_named(roles_parts(prepared@), name@) == prepared_named(roles_parts(prepared@).skip(0), name@),
        decreases prepared@.len() - k,
    {
        assert(roles_parts(prepared@)[k as int] == role_parts(prepared@[k as int]));
        if prepared[k].name == *name {
            proof {
                lemma_prepared_named_first(roles_parts(prepared@), name@, k as int);
            }
            return Some(k);
        }
        k = k + 1;
    }
    proof {
        match prepared_named(roles_parts(prepared@), name@) {
            Some(j) => {
                assert(roles_parts(prepared@)[j] == role_parts(prepared@[j]));
            },
            None => {},
        }
    }
    None
}

proof fn lemma_prepared_named_first(prepared: Seq<RoleParts>, name: Seq<char>, k: int)
    requires
        0 <= k < prepared.len(),
        prepared[k].1 == name,
        forall|j: int| 0 <= j < k ==> (#[trigger] prepared[j]).1 != name,
    ensures
        prepared_named(prepared, name) == Some(k),
    decreases prepared.len(),
{
    if k < prepared.len() - 1 {
        assert forall|j: int| 0 <= j < k implies (#[trigger] prepared.drop_last()[j]).1 != name by {
            assert(prepared.drop_last()[j] == prepared[j]);
        }
        lemma_prepared_named_first(prepared.drop_last(), name, k);
    } else {
        lemma_prepared_named(prepared.drop_last(), name);
    }
}

proof fn lemma_role_plan_failure_stays(kept: Seq<Role>, bound: nat, requests: Seq<(Seq<char>, bool)>, k: int)
    requires
        0 <= k <= requests.len(),
        role_plan(kept, bound, requests.take(k)) is Err,
    ensures
        role_plan(kept, bound, requests) == role_plan(kept, bound, requests.take(k)),
    decreases requests.len() - k,
{
    if k < requests.len() {
        assert(requests.take(k + 1).drop_last() =~= requests.take(k));
        lemma_role_plan_failure_stays(kept, bound, requests, k + 1);
    } else {
        assert(requests.take(k) =~= requests);
    }
}

proof fn lemma_role_named_absent(roles: Seq<Role>, name: Seq<char>)
    requires
        forall|j: int| 0 <= j < roles.len() ==> (#[trigger] roles[j]).name_text() != name,
    ensures
        role_named(roles, name) is None,
    decreases roles.len(),
{
    if roles.len() > 0 {
        assert forall|j: int| 0 <= j < roles.len() - 1 implies (#[trigger] roles.drop_last()[j]).name_text() != name by {
            assert(roles.drop_last()[j] == roles[j]);
        }
        lemma_role_named_absent(roles.drop_last(), name);
    }
}

/// A role kept once is found again by its name.
pub proof fn kept_role_is_found(roles: Seq<Role>, role: Role)
    requires
        role_named(roles, role.name_text()) is None,
    ensures
        role_named(roles.push(role), role.name_text()) == Some(role),
{
    assert(roles.push(role).drop_last() =~= roles);
}

// ---------------------------------------------------------------------------
// Lookups
// ---------------------------------------------------------------------------

/// An index from keys to the sets of values recorded under them.
#[derive(Debug)]
pub struct Lookup<K, V> {
    index: HashMap<K, HashSet<V>>,
}

impl<K: std::hash::Hash + Eq, V: std::hash::Hash + Eq> Lookup<K, V> {
    /// What is recorded under each key.
    pub closed spec fn entries(&self) -> Map<K, Set<V>> {
        Map::new(|k: K| self.index@.contains_key(k), |k: K| self.index@[k]@)
    }

    pub fn new() -> (l: Self)
        ensures
            l.entries() == Map::<K, Set<V>>::empty(),
    {
        let l = Lookup { index: HashMap::new() };
        assert(l.entries() =~= Map::<K, Set<V>>::empty());
        l
    }

    /// Records `value` under `key`.
    pub fn insert(&mut self, key: K, value: V)
        ensures
            obeys_key_model::<K>() && obeys_key_model::<V>() ==> {
                let before = if old(self).entries().contains_key(key) {
                    old(self).entries()[key]
                } else {
                    Set::<V>::empty()
                };
                final(self).entries() == old(self).entries().insert(key, before.insert(value))
            },
    {
        let mut set = match self.index.remove(&key) {
            Some(set) => set,
            None => HashSet::new(),
        };
        set.insert(value);
        self.index.insert(key, set);
        proof {
            if obeys_key_model::<K>() && obeys_key_model::<V>() {
                let before = if old(self).entries().contains_key(key) {
                    old(self).entries()[key]
                } else {
                    Set::<V>::empty()
                };
                assert(self.entries() =~= old(self).entries().insert(key, before.insert(value)));
            }
        }
    }

    /// The values recorded under `key`.
    pub fn lookup(&self, key: &K) -> (r: Option<&HashSet<V>>)
        ensures
            obeys_key_model::<K>() ==> match r {
                Some(set) => self.entries().contains_key(*key) && set@ == self.entries()[*key],
                None => !self.entries().contains_key(*key),
            },
    {
        self.index.get(key)
    }
}

// ---------------------------------------------------------------------------
// Persistence mode
// ---------------------------------------------------------------------------

/// Where a database keeps its data.
#[derive(Debug)]
pub enum PersistenceMode {
    /// Nothing is written; everything is lost when the database is dropped.
    InMemory,
    /// An append-only store directory at the path.
    File(String),
}

impl PersistenceMode {
    /// File-backed at `path` when `enable`, in memory otherwise.
    pub fn from_config(enable: bool, path: String) -> (m: Self)
        ensures
            enable ==> (m matches PersistenceMode::File(p) && p@ == path@),
            !enable ==> m is InMemory,
    {
        if enable {
            PersistenceMode::File(path)
        } else {
            PersistenceMode::InMemory
        }
    }
}

impl Clone for AppearanceSet {
    fn clone(&self) -> (r: Self)
        ensures
            r.members() == self.members(),
    {
        proof {
            use_type_invariant(self);
        }
        let mut out: Vec<Appearance> = Vec::new();
        let mut i: usize = 0;
        while i < self.appearances.len()
            invariant
                i <= self.appearances@.len(),
                out@ == self.appearances@.subrange(0, i as int),
            decreases self.appearances@.len() - i,
        {
            out.push(self.appearances[i].clone());
            i = i + 1;
        }
        assert(out@ =~= self.appearances@);
        AppearanceSet { appearances: out }
    }
}

/// What identifies an appearance: its role identity and its thing.
pub open spec fn appearance_keys(s: Seq<Appearance>) -> Seq<(Thing, Thing)> {
    s.map_values(|a: Appearance| (a.role_spec().identity(), a.thing_spec()))
}

/// Appearance sets sort lexicographically by their appearances, and an
/// appearance by its role identity, then its thing.
pub open spec fn appearance_keys_before(a: Seq<(Thing, Thing)>, b: Seq<(Thing, Thing)>) -> bool
    decreases a.len(),
{
    if b.len() == 0 {
        false
    } else if a.len() == 0 {
        true
    } else if a[0] != b[0] {
        a[0].0 < b[0].0 || (a[0].0 == b[0].0 && a[0].1 < b[0].1)
    } else {
        appearance_keys_before(a.drop_first(), b.drop_first())
    }
}

/// The order of appearance sets is a strict order.
pub proof fn appearance_order_is_strict(a: Seq<(Thing, Thing)>, b: Seq<(Thing, Thing)>, c: Seq<(Thing, Thing)>)
    ensures
        !appearance_keys_before(a, a),
        appearance_keys_before(a, b) && appearance_keys_before(b, c) ==> appearance_keys_before(a, c),
    decreases a.len(),
{
    if a.len() > 0 {
        appearance_order_is_strict(a.drop_first(), a.drop_first(), a.drop_first());
    }
    if a.len() > 0 && b.len() > 0 && c.len() > 0 && a[0] == b[0] && b[0] == c[0] {
        appearance_order_is_strict(a.drop_first(), b.drop_first(), c.drop_first());
    }
}

fn appearances_sort_before(a: &AppearanceSet, b: &AppearanceSet) -> (r: bool)
    ensures
        r == appearance_keys_before(appearance_keys(a.members()), appearance_keys(b.members())),
{
    let ghost ka = appearance_keys(a.members());
    let ghost kb = appearance_keys(b.members());
    let la = a.appearances.len();
    let lb = b.appearances.len();
    let mut k: usize = 0;
    while k < la && k < lb
        invariant
            ka == appearance_keys(a.members()),
            kb == appearance_keys(b.members()),
            la == ka.len(),
            lb == kb.len(),
            k <= la,
            k <= lb,
            appearance_keys_before(ka, kb) == appearance_keys_before(ka.skip(k as int), kb.skip(k as int)),
        decreases la - k,
    {
        let x = (a.appearances[k].role_identity(), a.appearances[k].thing());
        let y = (b.appearances[k].role_identity(), b.appearances[k].thing());
        assert(ka.skip(k as int)[0] == x);
        assert(kb.skip(k as int)[0] == y);
        if x.0 != y.0 || x.1 != y.1 {
            return x.0 < y.0 || (x.0 == y.0 && x.1 < y.1);
        }
        assert(ka.skip(k as int).drop_first() =~= ka.skip(k + 1));
        assert(kb.skip(k as int).drop_first() =~= kb.skip(k + 1));
        k = k + 1;
    }
    k == la && k < lb
}

/// Keys in strictly increasing order of role identity.
pub open spec fn keys_ordered(keys: Seq<(Thing, Thing)>) -> bool {
    forall|i: int, j: int| 0 <= i < j < keys.len() ==> (#[trigger] keys[i]).0 < (#[trigger] keys[j]).0
}

pub proof fn lemma_ordered_keys(s: Seq<Appearance>)
    requires
        ordered_by_role(s),
    ensures
        keys_ordered(appearance_keys(s)),
{
    assert forall|i: int, j: int| 0 <= i < j < appearance_keys(s).len() implies (#[trigger] appearance_keys(s)[i]).0
        < (#[trigger] appearance_keys(s)[j]).0 by {
        assert(appearance_keys(s)[i].0 == s[i].role_spec().identity());
        assert(appearance_keys(s)[j].0 == s[j].role_spec().identity());
    }
}

/// Two sequences of (Role, Thing) pairs in strictly increasing role order
/// that hold the same pairs are equal.
pub proof fn keys_in_role_order_are_unique(a: Seq<(Thing, Thing)>, b: Seq<(Thing, Thing)>)
    requires
        keys_ordered(a),
        keys_ordered(b),
        a.to_multiset() == b.to_multiset(),
    ensures
        a == b,
{
    lemma_ordered_keys_unique(a, b);
}

/// Two key sequences in role order with the same keys are equal.
proof fn lemma_ordered_keys_unique(a: Seq<(Thing, Thing)>, b: Seq<(Thing, Thing)>)
    requires
        keys_ordered(a),
        keys_ordered(b),
        a.to_multiset() == b.to_multiset(),
    ensures
        a == b,
    decreases a.len(),
{
    broadcast use vstd::seq_lib::to_multiset_contains;

    vstd::seq_lib::to_multiset_len(a);
    vstd::seq_lib::to_multiset_len(b);
    if a.len() == 0 {
        assert(b.len() == 0);
        assert(a =~= b);
    } else {
        assert(b.len() == a.len());
        assert(a.contains(a[0]));
        assert(a.to_multiset().count(a[0]) > 0);
        assert(b.contains(a[0]));
        let j = choose|j: int| 0 <= j < b.len() && b[j] == a[0];
        assert(b.contains(b[0]));
        assert(b.to_multiset().count(b[0]) > 0);
        assert(a.contains(b[0]));
        let i = choose|i: int| 0 <= i < a.len() && a[i] == b[0];
        if i != 0 {
            assert(a[0].0 < a[i].0);
            if j != 0 {
                assert(b[0].0 < b[j].0);
            }
        }
        if j != 0 {
            assert(b[0].0 < b[j].0);
        }
        assert(a[0] == b[0]);
        vstd::seq_lib::to_multiset_remove(a, 0);
        vstd::seq_lib::to_multiset_remove(b, 0);
        assert(a.remove(0) =~= a.drop_first());
        assert(b.remove(0) =~= b.drop_first());
        assert(keys_ordered(a.drop_first())) by {
            assert forall|x: int, y: int| 0 <= x < y < a.drop_first().len() implies (#[trigger] a.drop_first()[x]).0
                < (#[trigger] a.drop_first()[y]).0 by {
                assert(a.drop_first()[x] == a[x + 1]);
                assert(a.drop_first()[y] == a[y + 1]);
            }
        }
        assert(keys_ordered(b.drop_first())) by {
            assert forall|x: int, y: int| 0 <= x < y < b.drop_first().len() implies (#[trigger] b.drop_first()[x]).0
                < (#[trigger] b.drop_first()[y]).0 by {
                assert(b.drop_first()[x] == b[x + 1]);
                assert(b.drop_first()[y] == b[y + 1]);
            }
        }
        lemma_ordered_keys_unique(a.drop_first(), b.drop_first());
        assert(a =~= b) by {
            assert forall|x: int| 0 <= x < a.len() implies a[x] == b[x] by {
                if x > 0 {
                    assert(a[x] == a.drop_first()[x - 1]);
                    assert(b[x] == b.drop_first()[x - 1]);
                }
            }
        }
    }
}

pub proof fn lemma_appearance_keys_multiset(a: Seq<Appearance>, b: Seq<Appearance>)
    requires
        a.to_multiset() == b.to_multiset(),
    ensures
        appearance_keys(a).to_multiset() == appearance_keys(b).to_multiset(),
    decreases a.len(),
{
    broadcast use vstd::seq_lib::to_multiset_contains;

    vstd::seq_lib::to_multiset_len(a);
    vstd::seq_lib::to_multiset_len(b);
    if a.len() == 0 {
        assert(appearance_keys(a) =~= Seq::<(Thing, Thing)>::empty());
        assert(appearance_keys(b) =~= Seq::<(Thing, Thing)>::empty());
    } else {
        let x = a.last();
        assert(a.contains(x)) by {
            assert(a[a.len() - 1] == x);
        }
        assert(a.to_multiset().count(x) > 0);
        assert(b.contains(x));
        let i = choose|i: int| 0 <= i < b.len() && b[i] == x;
        vstd::seq_lib::to_multiset_build(a.drop_last(), x);
        assert(a.drop_last().push(x) =~= a);
        vstd::seq_lib::to_multiset_remove(b, i);
        assert(a.drop_last().to_multiset() =~= b.remove(i).to_multiset());
        lemma_appearance_keys_multiset(a.drop_last(), b.remove(i));
        let kx = (x.role_spec().identity(), x.thing_spec());
        assert(appearance_keys(a) =~= appearance_keys(a.drop_last()).push(kx));
        assert(appearance_keys(b) =~= appearance_keys(b.remove(i)).insert(i, kx));
        vstd::seq_lib::to_multiset_build(appearance_keys(a.drop_last()), kx);
        vstd::seq_lib::to_multiset_insert(appearance_keys(b.remove(i)), i, kx);
    }
}

/// Whether two appearance sets hold the same appearances.
fn same_appearances(a: &AppearanceSet, b: &AppearanceSet) -> (r: bool)
    ensures
        r == (appearance_keys(a.members()) == appearance_keys(b.members())),
{
    let n = a.appearances.len();
    if n != b.appearances.len() {
        proof {
            assert(appearance_keys(a.members()).len() != appearance_keys(b.members()).len());
        }
        return false;
    }
    let mut i: usize = 0;
    while i < n
        invariant
            n == a.appearances@.len(),
            n == b.appearances@.len(),
            i <= n,
            forall|k: int| 0 <= k < i ==> appearance_keys(a.members())[k] == appearance_keys(b.members())[k],
        decreases n - i,
    {
        if a.appearances[i].role_identity() != b.appearances[i].role_identity()
            || a.appearances[i].thing() != b.appearances[i].thing() {
            proof {
                assert(appearance_keys(a.members())[i as int] != appearance_keys(b.members())[i as int]);
            }
            return false;
        }
        i = i + 1;
    }
    assert(appearance_keys(a.members()) =~= appearance_keys(b.members()));
    true
}

// ---------------------------------------------------------------------------
// Appearance and appearance-set keepers
// ---------------------------------------------------------------------------

/// What identifies one appearance: its role identity and its thing.
pub open spec fn appearance_key(a: Appearance) -> (Thing, Thing) {
    (a.role_spec().identity(), a.thing_spec())
}

/// No two kept appearances are the same appearance.
pub open spec fn appearances_unique(kept: Seq<Appearance>) -> bool {
    forall|i: int, j: int|
        0 <= i < j < kept.len() ==> appearance_key(#[trigger] kept[i]) != appearance_key(#[trigger] kept[j])
}

/// Where the appearance with key `key` is kept, if it is.
pub open spec fn kept_appearance_at(kept: Seq<Appearance>, key: (Thing, Thing)) -> Option<int>
    decreases kept.len(),
{
    if kept.len() == 0 {
        None
    } else if appearance_key(kept.last()) == key {
        Some(kept.len() - 1)
    } else {
        kept_appearance_at(kept.drop_last(), key)
    }
}

proof fn lemma_kept_appearance_at(kept: Seq<Appearance>, key: (Thing, Thing))
    ensures
        match kept_appearance_at(kept, key) {
            Some(i) => 0 <= i < kept.len() && appearance_key(kept[i]) == key,
            None => forall|i: int| 0 <= i < kept.len() ==> appearance_key(#[trigger] kept[i]) != key,
        },
    decreases kept.len(),
{
    if kept.len() > 0 && appearance_key(kept.last()) != key {
        lemma_kept_appearance_at(kept.drop_last(), key);
        match kept_appearance_at(kept.drop_last(), key) {
            Some(i) => {
                assert(kept.drop_last()[i] == kept[i]);
            },
            None => {
                assert forall|i: int| 0 <= i < kept.len() implies appearance_key(#[trigger] kept[i]) != key by {
                    if i < kept.len() - 1 {
                        assert(kept.drop_last()[i] == kept[i]);
                    }
                }
            },
        }
    }
}

/// The appearances that have been kept, each once.
#[derive(Debug)]
pub struct AppearanceKeeper {
    kept: Vec<Appearance>,
}

impl AppearanceKeeper {
    /// The kept appearances, in the order in which they were first kept.
    pub closed spec fn kept(&self) -> Seq<Appearance> {
        self.kept@
    }

    #[verifier::type_invariant]
    spec fn kept_once(&self) -> bool {
        appearances_unique(self.kept@)
    }

    pub fn new() -> (k: Self)
        ensures
            k.kept() == Seq::<Appearance>::empty(),
    {
        AppearanceKeeper { kept: Vec::new() }
    }

    /// Keeps `appearance` unless the same appearance is kept already. Returns
    /// the kept appearance and whether it was kept before.
    pub fn keep(&mut self, appearance: Appearance) -> (r: (Appearance, bool))
        ensures
            appearances_unique(final(self).kept()),
            r.1 == kept_appearance_at(old(self).kept(), appearance_key(appearance)) is Some,
            appearance_key(r.0) == appearance_key(appearance),
            match kept_appearance_at(old(self).kept(), appearance_key(appearance)) {
                Some(i) => final(self).kept() == old(self).kept() && r.0 == old(self).kept()[i],
                None => final(self).kept() == old(self).kept().push(appearance) && r.0 == appearance,
            },
    {
        proof {
            use_type_invariant(&*self);
            lemma_kept_appearance_at(self.kept@, appearance_key(appearance));
        }
        let ghost key = appearance_key(appearance);
        let role = appearance.role_identity();
        let thing = appearance.thing();
        let n = self.kept.len();
        let mut i: usize = n;
        while i > 0
            invariant
                i <= n,
                n == self.kept@.len(),
                key == (role, thing),
                key == appearance_key(appearance),
                self.kept@ == old(self).kept@,
                appearances_unique(self.kept@),
                kept_appearance_at(self.kept@, key) == kept_appearance_at(self.kept@.subrange(0, i as int), key),
            decreases i,
        {
            let j = i - 1;
            assert(self.kept@.subrange(0, i as int).last() == self.kept@[j as int]);
            if self.kept[j].role_identity() == role && self.kept[j].thing() == thing {
                return (self.kept[j].clone(), true);
            }
            assert(self.kept@.subrange(0, i as int).drop_last() =~= self.kept@.subrange(0, j as int));
            i = j;
        }
        proof {
            assert(self.kept@.subrange(0, 0) =~= Seq::<Appearance>::empty());
            assert forall|a: int, b: int|
                0 <= a < b < self.kept@.push(appearance).len() implies appearance_key(
                #[trigger] self.kept@.push(appearance)[a],
            ) != appearance_key(#[trigger] self.kept@.push(appearance)[b]) by {
                if b == self.kept@.len() {
                    assert(self.kept@.push(appearance)[a] == self.kept@[a]);
                } else {
                    assert(self.kept@.push(appearance)[a] == self.kept@[a]);
                    assert(self.kept@.push(appearance)[b] == self.kept@[b]);
                }
            }
        }
        let mut kept: Vec<Appearance> = Vec::new();
        std::mem::swap(&mut kept, &mut self.kept);
        kept.push(appearance.clone());
        self.kept = kept;
        (appearance, false)
    }

    pub fn len(&self) -> (n: usize)
        ensures
            n == self.kept().len(),
    {
        self.kept.len()
    }

    pub fn is_empty(&self) -> (b: bool)
        ensures
            b == (self.kept().len() == 0),
    {
        self.kept.len() == 0
    }
}

impl Default for AppearanceKeeper {
    fn default() -> (k: Self)
        ensures
            k.kept() == Seq::<Appearance>::empty(),
    {
        AppearanceKeeper::new()
    }
}

/// No two kept appearance sets hold the same appearances.
pub open spec fn appearance_sets_unique(kept: Seq<AppearanceSet>) -> bool {
    forall|i: int, j: int|
        0 <= i < j < kept.len() ==> appearance_keys((#[trigger] kept[i]).members()) != appearance_keys(
            (#[trigger] kept[j]).members(),
        )
}

/// Where the appearance set with the appearances `keys` is kept, if it is.
pub open spec fn kept_set_at(kept: Seq<AppearanceSet>, keys: Seq<(Thing, Thing)>) -> Option<int>
    decreases kept.len(),
{
    if kept.len() == 0 {
        None
    } else if appearance_keys(kept.last().members()) == keys {
        Some(kept.len() - 1)
    } else {
        kept_set_at(kept.drop_last(), keys)
    }
}

proof fn lemma_kept_set_at(kept: Seq<AppearanceSet>, keys: Seq<(Thing, Thing)>)
    ensures
        match kept_set_at(kept, keys) {
            Some(i) => 0 <= i < kept.len() && appearance_keys(kept[i].members()) == keys,
            None => forall|i: int| 0 <= i < kept.len() ==> appearance_keys((#[trigger] kept[i]).members()) != keys,
        },
    decreases kept.len(),
{
    if kept.len() > 0 && appearance_keys(kept.last().members()) != keys {
        lemma_kept_set_at(kept.drop_last(), keys);
        match kept_set_at(kept.drop_last(), keys) {
            Some(i) => {
                assert(kept.drop_last()[i] == kept[i]);
            },
            None => {
                assert forall|i: int| 0 <= i < kept.len() implies appearance_keys((#[trigger] kept[i]).members())
                    != keys by {
                    if i < kept.len() - 1 {
                        assert(kept.drop_last()[i] == kept[i]);
                    }
                }
            },
        }
    }
}

/// The appearance sets that have been kept, each once.
#[derive(Debug)]
pub struct AppearanceSetKeeper {
    kept: Vec<AppearanceSet>,
}

impl AppearanceSetKeeper {
    /// The kept appearance sets, in the order in which they were first kept.
    pub closed spec fn kept(&self) -> Seq<AppearanceSet> {
        self.kept@
    }

    #[verifier::type_invariant]
    spec fn kept_once(&self) -> bool {
        appearance_sets_unique(self.kept@)
    }

    pub fn new() -> (k: Self)
        ensures
            k.kept() == Seq::<AppearanceSet>::empty(),
    {
        AppearanceSetKeeper { kept: Vec::new() }
    }

    /// Keeps `appearance_set` unless one with the same appearances is kept
    /// already. Returns the kept set and whether it was kept before.
    pub fn keep(&mut self, appearance_set: AppearanceSet) -> (r: (AppearanceSet, bool))
        ensures
            appearance_sets_unique(final(self).kept()),
            r.1 == kept_set_at(old(self).kept(), appearance_keys(appearance_set.members())) is Some,
            appearance_keys(r.0.members()) == appearance_keys(appearance_set.members()),
            match kept_set_at(old(self).kept(), appearance_keys(appearance_set.members())) {
                Some(i) => final(self).kept() == old(self).kept() && r.0.members() == old(self).kept()[i].members(),
                None => final(self).kept().len() == old(self).kept().len() + 1
                    && final(self).kept().drop_last() == old(self).kept()
                    && final(self).kept().last().members() == appearance_set.members()
                    && r.0.members() == appearance_set.members(),
            },
    {
        proof {
            use_type_invariant(&*self);
            lemma_kept_set_at(self.kept@, appearance_keys(appearance_set.members()));
        }
        let ghost keys = appearance_keys(appearance_set.members());
        let n = self.kept.len();
        let mut i: usize = n;
        while i > 0
            invariant
                i <= n,
                n == self.kept@.len(),
                keys == appearance_keys(appearance_set.members()),
                self.kept@ == old(self).kept@,
                appearance_sets_unique(self.kept@),
                kept_set_at(self.kept@, keys) == kept_set_at(self.kept@.subrange(0, i as int), keys),
            decreases i,
        {
            let j = i - 1;
            assert(self.kept@.subrange(0, i as int).last() == self.kept@[j as int]);
            if same_appearances(&self.kept[j], &appearance_set) {
                return (self.kept[j].clone(), true);
            }
            assert(self.kept@.subrange(0, i as int).drop_last() =~= self.kept@.subrange(0, j as int));
            i = j;
        }
        assert(self.kept@.subrange(0, 0) =~= Seq::<AppearanceSet>::empty());
        let copy = appearance_set.clone();
        let ghost before = self.kept@;
        let mut kept: Vec<AppearanceSet> = Vec::new();
        std::mem::swap(&mut kept, &mut self.kept);
        kept.push(copy);
        proof {
            let ghost now = kept@;
            assert(now.drop_last() =~= before);
            assert forall|a: int, b: int| 0 <= a < b < now.len() implies appearance_keys(
                (#[trigger] now[a]).members(),
            ) != appearance_keys((#[trigger] now[b]).members()) by {
                assert(now[a] == before[a]);
                if b < before.len() {
                    assert(now[b] == before[b]);
                }
            }
        }
        self.kept = kept;
        proof {
            assert(self.kept@.drop_last() =~= before);
            assert forall|a: int, b: int| 0 <= a < b < self.kept@.len() implies appearance_keys(
                (#[trigger] self.kept@[a]).members(),
            ) != appearance_keys((#[trigger] self.kept@[b]).members()) by {
                assert(self.kept@[a] == before[a]);
                if b < before.len() {
                    assert(self.kept@[b] == before[b]);
                }
            }
        }
        (appearance_set, false)
    }

    pub fn len(&self) -> (n: usize)
        ensures
            n == self.kept().len(),
    {
        self.kept.len()
    }

    pub fn is_empty(&self) -> (b: bool)
        ensures
            b == (self.kept().len() == 0),
    {
        self.kept.len() == 0
    }
}

impl Default for AppearanceSetKeeper {
    fn default() -> (k: Self)
        ensures
            k.kept() == Seq::<AppearanceSet>::empty(),
    {
        AppearanceSetKeeper::new()
    }
}

// ---------------------------------------------------------------------------
// Posit
// ---------------------------------------------------------------------------

/// A proposition: an appearance set, a value and a time, with an identity of
/// its own.
#[derive(Debug)]
pub struct Posit {
    posit: Thing,
    appearance_set: AppearanceSet,
    value: LiteralValue,
    time: Time,
}

impl Posit {
    pub closed spec fn identity(&self) -> Thing {
        self.posit
    }

    pub closed spec fn members(&self) -> Seq<Appearance> {
        self.appearance_set.members()
    }

    pub closed spec fn value_token(&self) -> Seq<char> {
        self.value.token_spec()
    }

    pub closed spec fn value_family(&self) -> LiteralFamily {
        self.value.family_spec()
    }

    pub closed spec fn time_spec(&self) -> Time {
        self.time
    }

    pub fn new(posit: Thing, appearance_set: AppearanceSet, value: LiteralValue, time: Time) -> (p: Self)
        ensures
            p.identity() == posit,
            p.members() == appearance_set.members(),
            p.value_token() == value.token_spec(),
            p.value_family() == value.family_spec(),
            p.time_spec() == time,
    {
        Posit { posit, appearance_set, value, time }
    }

    pub fn posit(&self) -> (t: Thing)
        ensures
            t == self.identity(),
    {
        self.posit
    }

    pub fn appearance_set(&self) -> (a: AppearanceSet)
        ensures
            a.members() == self.members(),
    {
        self.appearance_set.clone()
    }

    pub fn value(&self) -> (v: &LiteralValue)
        ensures
            v.token_spec() == self.value_token(),
            v.family_spec() == self.value_family(),
    {
        &self.value
    }

    pub fn time(&self) -> (t: &Time)
        ensures
            *t == self.time_spec(),
    {
        &self.time
    }

    /// Whether the two posits hold the same appearances.
    pub fn appearances_match(&self, other: &Posit) -> (r: bool)
        ensures
            r == (appearance_keys(self.members()) == appearance_keys(other.members())),
    {
        same_appearances(&self.appearance_set, &other.appearance_set)
    }

    /// Whether the appearance set of `self` sorts before that of `other`.
    pub fn appearances_sort_before(&self, other: &Posit) -> (r: bool)
        ensures
            r == appearance_keys_before(appearance_keys(self.members()), appearance_keys(other.members())),
    {
        appearances_sort_before(&self.appearance_set, &other.appearance_set)
    }
}

impl Clone for Posit {
    fn clone(&self) -> (r: Self)
        ensures
            r.identity() == self.identity(),
            r.members() == self.members(),
            r.value_token() == self.value_token(),
            r.value_family() == self.value_family(),
            r.time_spec() == self.time_spec(),
    {
        Posit {
            posit: self.posit,
            appearance_set: self.appearance_set.clone(),
            value: self.value.clone(),
            time: self.time,
        }
    }
}

/// Two posits state the same proposition: the same appearances, the same
/// value token and the same time. Their identities play no part.
pub open spec fn same_proposition(a: Posit, b: Posit) -> bool {
    &&& appearance_keys(a.members()) == appearance_keys(b.members())
    &&& a.value_token() == b.value_token()
    &&& a.time_spec() == b.time_spec()
}

fn same_posit(a: &Posit, b: &Posit) -> (r: bool)
    ensures
        r == same_proposition(*a, *b),
{
    same_appearances(&a.appearance_set, &b.appearance_set) && a.value.exactly_equals(&b.value)
        && a.time == b.time
}

/// The index of the first kept posit stating the same proposition as `p`.
pub open spec fn proposition_index(kept: Seq<Posit>, p: Posit) -> Option<int>
    decreases kept.len(),
{
    if kept.len() == 0 {
        None
    } else {
        match proposition_index(kept.drop_last(), p) {
            Some(i) => Some(i),
            None => if same_proposition(kept.last(), p) {
                Some(kept.len() - 1)
            } else {
                None
            },
        }
    }
}

/// The index of the last kept posit with identity `t`.
pub open spec fn identity_index(kept: Seq<Posit>, t: Thing) -> Option<int>
    decreases kept.len(),
{
    if kept.len() == 0 {
        None
    } else if kept.last().identity() == t {
        Some(kept.len() - 1)
    } else {
        identity_index(kept.drop_last(), t)
    }
}

proof fn lemma_proposition_index(kept: Seq<Posit>, p: Posit)
    ensures
        match proposition_index(kept, p) {
            Some(i) => 0 <= i < kept.len() && same_proposition(kept[i], p) && forall|k: int|
                0 <= k < i ==> !same_proposition(#[trigger] kept[k], p),
            None => forall|k: int| 0 <= k < kept.len() ==> !same_proposition(#[trigger] kept[k], p),
        },
    decreases kept.len(),
{
    if kept.len() > 0 {
        lemma_proposition_index(kept.drop_last(), p);
        assert forall|k: int| 0 <= k < kept.len() - 1 implies kept.drop_last()[k] == kept[k] by {}
    }
}

proof fn lemma_identity_index(kept: Seq<Posit>, t: Thing)
    ensures
        match identity_index(kept, t) {
            Some(i) => 0 <= i < kept.len() && kept[i].identity() == t && forall|k: int|
                i < k < kept.len() ==> (#[trigger] kept[k]).identity() != t,
            None => forall|k: int| 0 <= k < kept.len() ==> (#[trigger] kept[k]).identity() != t,
        },
    decreases kept.len(),
{
    if kept.len() > 0 {
        lemma_identity_index(kept.drop_last(), t);
        assert forall|k: int| 0 <= k < kept.len() - 1 implies kept.drop_last()[k] == kept[k] by {}
    }
}

proof fn lemma_same_proposition_symmetric(a: Posit, b: Posit)
    ensures
        same_proposition(a, b) == same_proposition(b, a),
{
}

proof fn lemma_same_proposition_transitive(a: Posit, b: Posit, c: Posit)
    requires
        same_proposition(a, b),
        same_proposition(b, c),
    ensures
        same_proposition(a, c),
{
}

proof fn lemma_proposition_index_absent(kept: Seq<Posit>, p: Posit)
    requires
        forall|j: int| 0 <= j < kept.len() ==> !same_proposition(#[trigger] kept[j], p),
    ensures
        proposition_index(kept, p) is None,
    decreases kept.len(),
{
    if kept.len() > 0 {
        assert forall|j: int| 0 <= j < kept.len() - 1 implies !same_proposition(#[trigger] kept.drop_last()[j], p) by {
            assert(kept.drop_last()[j] == kept[j]);
        }
        lemma_proposition_index_absent(kept.drop_last(), p);
    }
}

/// Keeps one canonical posit per proposition.
#[derive(Debug)]
pub struct PositKeeper {
    kept: Vec<Posit>,
}

impl PositKeeper {
    /// The kept posits, in the order they were kept.
    pub closed spec fn posits(&self) -> Seq<Posit> {
        self.kept@
    }

    pub fn new() -> (k: Self)
        ensures
            k.posits() == Seq::<Posit>::empty(),
    {
        PositKeeper { kept: Vec::new() }
    }

    fn find(&self, p: &Posit) -> (r: Option<usize>)
        ensures
            r matches Some(i) ==> i < self.posits().len() && proposition_index(self.posits(), *p) == Some(i as int),
            r is None ==> proposition_index(self.posits(), *p) is None,
    {
        proof {
            lemma_proposition_index(self.kept@, *p);
        }
        let mut i: usize = 0;
        while i < self.kept.len()
            invariant
                i <= self.kept@.len(),
                forall|k: int| 0 <= k < i ==> !same_proposition(#[trigger] self.kept@[k], *p),
                match proposition_index(self.kept@, *p) {
                    Some(j) => 0 <= j < self.kept@.len() && same_proposition(self.kept@[j], *p)
                        && forall|k: int| 0 <= k < j ==> !same_proposition(#[trigger] self.kept@[k], *p),
                    None => forall|k: int| 0 <= k < self.kept@.len() ==> !same_proposition(#[trigger] self.kept@[k], *p),
                },
            decreases self.kept@.len() - i,
        {
            if same_posit(&self.kept[i], p) {
                return Some(i);
            }
            i = i + 1;
        }
        None
    }

    /// Keeps `posit` unless a posit stating the same proposition is kept;
    /// returns the kept posit and whether one was kept before.
    pub fn keep(&mut self, posit: Posit) -> (r: (Posit, bool))
        ensures
            r.1 == proposition_index(old(self).posits(), posit) is Some,
            r.1 ==> final(self).posits() == old(self).posits() && r.0.identity()
                == old(self).posits()[proposition_index(old(self).posits(), posit)->0].identity(),
            !r.1 ==> final(self).posits() == old(self).posits().push(posit) && r.0.identity()
                == posit.identity(),
            same_proposition(r.0, posit),
    {
        match self.find(&posit) {
            Some(i) => {
                proof {
                    lemma_proposition_index(self.kept@, posit);
                }
                (self.kept[i].clone(), true)
            },
            None => {
                let kept = posit.clone();
                self.kept.push(posit);
                (kept, false)
            },
        }
    }

    /// The identity of the kept posit stating the same proposition as `posit`.
    pub fn thing(&self, posit: &Posit) -> (r: Option<Thing>)
        ensures
            r == (match proposition_index(self.posits(), *posit) {
                Some(i) => Some(self.posits()[i].identity()),
                None => None,
            }),
    {
        match self.find(posit) {
            Some(i) => Some(self.kept[i].posit),
            None => None,
        }
    }

    /// The posit most recently kept under identity `thing`.
    pub fn posit(&self, thing: Thing) -> (r: Option<Posit>)
        ensures
            identity_index(self.posits(), thing) is None ==> r is None,
            identity_index(self.posits(), thing) matches Some(i) ==> (r matches Some(p) && p.identity() == thing
                && same_proposition(p, self.posits()[i]) && p.value_family() == self.posits()[i].value_family()),
    {
        proof {
            lemma_identity_index(self.kept@, thing);
        }
        let mut i = self.kept.len();
        while i > 0
            invariant
                i <= self.kept@.len(),
                forall|k: int| i <= k < self.kept@.len() ==> (#[trigger] self.kept@[k]).identity() != thing,
                match identity_index(self.kept@, thing) {
                    Some(j) => 0 <= j < self.kept@.len() && self.kept@[j].identity() == thing && forall|k: int|
                        j < k < self.kept@.len() ==> (#[trigger] self.kept@[k]).identity() != thing,
                    None => forall|k: int| 0 <= k < self.kept@.len() ==> (#[trigger] self.kept@[k]).identity() != thing,
                },
            decreases i,
        {
            if self.kept[i - 1].posit == thing {
                return Some(self.kept[i - 1].clone());
            }
            i = i - 1;
        }
        None
    }

    /// The `i`-th kept posit.
    pub fn get(&self, i: usize) -> (p: &Posit)
        requires
            i < self.posits().len(),
        ensures
            *p == self.posits()[i as int],
    {
        &self.kept[i]
    }

    pub fn len(&self) -> (n: usize)
        ensures
            n == self.posits().len(),
    {
        self.kept.len()
    }

    pub fn is_empty(&self) -> (b: bool)
        ensures
            b == (self.posits().len() == 0),
    {
        self.kept.len() == 0
    }
}

// ---------------------------------------------------------------------------
// Database
// ---------------------------------------------------------------------------

/// A role's identity, canonical name and reserved flag.
pub type RoleParts = (Thing, Seq<char>, bool);

pub open spec fn role_parts(r: Role) -> RoleParts {
    (r.identity(), r.name_text(), r.is_reserved())
}

pub open spec fn roles_parts(roles: Seq<Role>) -> Seq<RoleParts> {
    roles.map_values(|r: Role| role_parts(r))
}

/// The in-memory state of an evidence database: its identity generator,
/// its role catalog and its kept posits.
#[derive(Debug)]
pub struct Database {
    thing_generator: ThingGenerator,
    role_keeper: RoleKeeper,
    posit_keeper: PositKeeper,
}

/// Why a batch of roles cannot be created.
pub enum RoleFailure {
    EmptyName,
    ConflictingReserved,
    Exhausted,
}

/// The error each failure is reported as.
pub open spec fn role_failure_error(f: RoleFailure, e: DatabaseError) -> bool {
    match f {
        RoleFailure::Exhausted => e is Invariant,
        _ => e is Execution,
    }
}

/// The first prepared role named `name`.
pub open spec fn prepared_named(prepared: Seq<RoleParts>, name: Seq<char>) -> Option<int>
    decreases prepared.len(),
{
    if prepared.len() == 0 {
        None
    } else {
        match prepared_named(prepared.drop_last(), name) {
            Some(k) => Some(k),
            None => if prepared.last().1 == name {
                Some(prepared.len() - 1)
            } else {
                None
            },
        }
    }
}

/// What creating the roles `requests` (name, reserved) does against the
/// catalog `kept` and a generator at `bound`: the roles to add, and for each
/// request its role and whether it existed before.
pub open spec fn role_plan(kept: Seq<Role>, bound: nat, requests: Seq<(Seq<char>, bool)>) -> Result<
    (Seq<RoleParts>, Seq<(RoleParts, bool)>),
    RoleFailure,
>
    decreases requests.len(),
{
    if requests.len() == 0 {
        Ok((Seq::empty(), Seq::empty()))
    } else {
        match role_plan(kept, bound, requests.drop_last()) {
            Err(f) => Err(f),
            Ok((prepared, outcomes)) => {
                let name = nfc_text(requests.last().0);
                let reserved = requests.last().1;
                if name.len() == 0 {
                    Err(RoleFailure::EmptyName)
                } else {
                    match role_named(kept, name) {
                        Some(existing) => Ok((prepared, outcomes.push((role_parts(existing), true)))),
                        None => match prepared_named(prepared, name) {
                            Some(k) => if prepared[k].2 != reserved {
                                Err(RoleFailure::ConflictingReserved)
                            } else {
                                Ok((prepared, outcomes.push((prepared[k], false))))
                            },
                            None => if bound + prepared.len() >= u64::MAX {
                                Err(RoleFailure::Exhausted)
                            } else {
                                let role = ((bound + prepared.len() + 1) as Thing, name, reserved);
                                Ok((prepared.push(role), outcomes.push((role, false))))
                            },
                        },
                    }
                }
            },
        }
    }
}

/// The names of `prepared` are new to `kept` and to one another.
pub open spec fn fresh_roles(kept: Seq<Role>, prepared: Seq<RoleParts>) -> bool {
    &&& forall|k: int| 0 <= k < prepared.len() ==> role_named(kept, (#[trigger] prepared[k]).1) is None
    &&& forall|a: int, b: int| 0 <= a < b < prepared.len() ==> (#[trigger] prepared[a]).1 != (#[trigger] prepared[b]).1
}

proof fn lemma_prepared_named(prepared: Seq<RoleParts>, name: Seq<char>)
    ensures
        match prepared_named(prepared, name) {
            Some(k) => 0 <= k < prepared.len() && prepared[k].1 == name,
            None => forall|k: int| 0 <= k < prepared.len() ==> (#[trigger] prepared[k]).1 != name,
        },
    decreases prepared.len(),
{
    if prepared.len() > 0 {
        lemma_prepared_named(prepared.drop_last(), name);
        assert forall|k: int| 0 <= k < prepared.len() - 1 implies prepared.drop_last()[k] == prepared[k] by {}
    }
}

proof fn lemma_role_plan_fresh(kept: Seq<Role>, bound: nat, requests: Seq<(Seq<char>, bool)>)
    ensures
        role_plan(kept, bound, requests) matches Ok((prepared, outcomes)) ==> fresh_roles(kept, prepared)
            && outcomes.len() == requests.len() && forall|k: int|
            0 <= k < prepared.len() ==> (#[trigger] prepared[k]).0 == bound + k + 1,
    decreases requests.len(),
{
    if requests.len() > 0 {
        lemma_role_plan_fresh(kept, bound, requests.drop_last());
        match role_plan(kept, bound, requests.drop_last()) {
            Ok((prepared, outcomes)) => {
                let name = nfc_text(requests.last().0);
                lemma_prepared_named(prepared, name);
                if role_named(kept, name) is None {
                    assert forall|k: int| 0 <= k < prepared.len() implies role_named(kept, (#[trigger] prepared[k]).1) is None by {}
                }
            },
            Err(_) => {},
        }
    }
}

/// A role to create, or the catalog role it resolves to.
pub enum RoleSource {
    Existing(Role),
    New(usize),
}

/// The roles a batch of role requests adds, and where each request resolves.
pub struct RolePlan {
    prepared: Vec<Role>,
    sources: Vec<RoleSource>,
}

/// The requests as names and reserved flags.
pub open spec fn role_requests(roles: Seq<(String, bool)>) -> Seq<(Seq<char>, bool)> {
    roles.map_values(|p: (String, bool)| (p.0@, p.1))
}

/// The identities of the prepared roles.
pub open spec fn role_identities(prepared: Seq<RoleParts>) -> Set<Thing> {
    prepared.map_values(|p: RoleParts| p.0).to_set()
}

/// What each created role resolves to, and whether it existed.
pub open spec fn created_roles(out: Seq<(Role, bool)>) -> Seq<(RoleParts, bool)> {
    out.map_values(|p: (Role, bool)| (role_parts(p.0), p.1))
}

pub open spec fn role_outcome(prepared: Seq<Role>, s: RoleSource) -> (RoleParts, bool) {
    match s {
        RoleSource::Existing(r) => (role_parts(r), true),
        RoleSource::New(k) => (role_parts(prepared[k as int]), false),
    }
}

impl RolePlan {
    #[verifier::type_invariant]
    spec fn sources_in_range(&self) -> bool {
        forall|i: int| 0 <= i < self.sources@.len() ==> (#[trigger] self.sources@[i] matches RoleSource::New(k) ==> k
            < self.prepared@.len())
    }

    pub closed spec fn prepared_parts(&self) -> Seq<RoleParts> {
        roles_parts(self.prepared@)
    }

    pub closed spec fn outcomes(&self) -> Seq<(RoleParts, bool)> {
        self.sources@.map_values(|s: RoleSource| role_outcome(self.prepared@, s))
    }

    /// The roles to add, in order.
    pub fn prepared(&self) -> (roles: &[Role])
        ensures
            roles_parts(roles@) == self.prepared_parts(),
    {
        self.prepared.as_slice()
    }
}

/// The posit a request (appearance set, value, time) asks for, before it
/// has an identity.
pub closed spec fn posit_request(req: (AppearanceSet, LiteralValue, Time)) -> Posit {
    Posit { posit: 0, appearance_set: req.0, value: req.1, time: req.2 }
}

/// A request holds the appearances, value and time it is made of.
pub proof fn posit_request_parts(req: (AppearanceSet, LiteralValue, Time))
    ensures
        posit_request(req).members() == req.0.members(),
        posit_request(req).value_token() == req.1.token_spec(),
        posit_request(req).value_family() == req.1.family_spec(),
        posit_request(req).time_spec() == req.2,
{
}

pub open spec fn posit_requests(reqs: Seq<(AppearanceSet, LiteralValue, Time)>) -> Seq<Posit> {
    reqs.map_values(|r: (AppearanceSet, LiteralValue, Time)| posit_request(r))
}

/// `p` under the identity `t`.
pub closed spec fn with_identity(p: Posit, t: Thing) -> Posit {
    Posit { posit: t, ..p }
}

/// What creating the posits `requests` does against the kept posits and a
/// generator at `bound`: every request draws the next identity; one whose
/// proposition is kept, or prepared earlier in the command, resolves to
/// that posit and its identity is released. Gives the posits to add and the
/// identity each request resolves to, or `None` when identities run out.
pub open spec fn posit_plan(kept: Seq<Posit>, bound: nat, requests: Seq<Posit>) -> Option<(Seq<Posit>, Seq<Thing>)>
    decreases requests.len(),
{
    if requests.len() == 0 {
        Some((Seq::empty(), Seq::empty()))
    } else {
        match posit_plan(kept, bound, requests.drop_last()) {
            None => None,
            Some((prepared, ids)) => {
                let i = requests.len() - 1;
                if bound + i >= u64::MAX {
                    None
                } else {
                    let t = (bound + i + 1) as Thing;
                    let candidate = with_identity(requests.last(), t);
                    match proposition_index(kept, candidate) {
                        Some(j) => Some((prepared, ids.push(kept[j].identity()))),
                        None => match proposition_index(prepared, candidate) {
                            Some(k) => Some((prepared, ids.push(prepared[k].identity()))),
                            None => Some((prepared.push(candidate), ids.push(t))),
                        },
                    }
                }
            },
        }
    }
}

/// The propositions of `prepared` are new to `kept` and to one another.
pub open spec fn fresh_posits(kept: Seq<Posit>, prepared: Seq<Posit>) -> bool {
    &&& forall|k: int| 0 <= k < prepared.len() ==> proposition_index(kept, #[trigger] prepared[k]) is None
    &&& forall|a: int, b: int| 0 <= a < b < prepared.len() ==> !same_proposition(#[trigger] prepared[a], #[trigger] prepared[b])
}

/// The identities of the prepared posits.
pub open spec fn posit_identities(prepared: Seq<Posit>) -> Set<Thing> {
    identities_of(prepared).to_set()
}

proof fn lemma_posit_plan(kept: Seq<Posit>, bound: nat, requests: Seq<Posit>)
    requires
        bound <= u64::MAX,
    ensures
        posit_plan(kept, bound, requests) matches Some((prepared, ids)) ==> {
            &&& fresh_posits(kept, prepared)
            &&& ids.len() == requests.len()
            &&& bound + requests.len() <= u64::MAX
            &&& forall|k: int| 0 <= k < prepared.len() ==> bound < (#[trigger] prepared[k]).identity() <= bound
                + requests.len()
            &&& forall|k: int| 0 <= k < ids.len() ==> same_proposition(
                #[trigger] with_identity(requests[k], ids[k]),
                requests[k],
            )
        },
        posit_plan(kept, bound, requests) is None ==> bound + requests.len() > u64::MAX,
    decreases requests.len(),
{
    if requests.len() > 0 {
        lemma_posit_plan(kept, bound, requests.drop_last());
        match posit_plan(kept, bound, requests.drop_last()) {
            Some((prepared, ids)) => {
                let i = requests.len() - 1;
                if bound + i < u64::MAX {
                    let t = (bound + i + 1) as Thing;
                    let candidate = with_identity(requests.last(), t);
                    lemma_proposition_index(kept, candidate);
                    lemma_proposition_index(prepared, candidate);
                    assert forall|k: int| 0 <= k < requests.len() - 1 implies requests.drop_last()[k] == requests[k] by {}
                    assert(same_proposition(with_identity(requests.last(), t), requests.last()));
                    match posit_plan(kept, bound, requests) {
                        Some((prepared2, ids2)) => {
                            assert(ids2 == ids.push(ids2.last()));
                            assert forall|k: int| 0 <= k < ids2.len() implies same_proposition(
                                #[trigger] with_identity(requests[k], ids2[k]),
                                requests[k],
                            ) by {
                                if k < ids.len() {
                                    assert(requests[k] == requests.drop_last()[k]);
                                    assert(ids2[k] == ids[k]);
                                }
                            }
                        },
                        None => {},
                    }
                    if proposition_index(kept, candidate) is None && proposition_index(prepared, candidate) is None {
                        let next = prepared.push(candidate);
                        assert forall|k: int| 0 <= k < next.len() implies proposition_index(kept, #[trigger] next[k]) is None by {
                            if k == prepared.len() {
                            } else {
                                assert(next[k] == prepared[k]);
                            }
                        }
                        assert forall|a: int, b: int| 0 <= a < b < next.len() implies !same_proposition(
                            #[trigger] next[a],
                            #[trigger] next[b],
                        ) by {
                            assert(next[a] == prepared[a]);
                            if b < prepared.len() {
                                assert(next[b] == prepared[b]);
                            }
                        }
                        assert(fresh_posits(kept, next));
                        assert(candidate.identity() == t);
                        assert forall|k: int| 0 <= k < next.len() implies bound < (#[trigger] next[k]).identity() <= bound
                            + requests.len() by {
                            if k < prepared.len() {
                                assert(next[k] == prepared[k]);
                            }
                        }
                    }
                    assert(bound + requests.len() <= u64::MAX);
                }
            },
            None => {},
        }
    }
}

proof fn lemma_index_ignores_identity(kept: Seq<Posit>, p: Posit, t1: Thing, t2: Thing)
    ensures
        proposition_index(kept, with_identity(p, t1)) == proposition_index(kept, with_identity(p, t2)),
    decreases kept.len(),
{
    if kept.len() > 0 {
        lemma_index_ignores_identity(kept.drop_last(), p, t1, t2);
    }
}

proof fn lemma_index_concat(a: Seq<Posit>, b: Seq<Posit>, c: Posit)
    ensures
        proposition_index(a + b, c) == (match proposition_index(a, c) {
            Some(j) => Some(j),
            None => match proposition_index(b, c) {
                Some(k) => Some(a.len() + k),
                None => None,
            },
        }),
    decreases b.len(),
{
    if b.len() == 0 {
        assert(a + b =~= a);
    } else {
        assert((a + b).drop_last() =~= a + b.drop_last());
        lemma_index_concat(a, b.drop_last(), c);
    }
}

proof fn lemma_plan_prefix(kept: Seq<Posit>, bound: nat, requests: Seq<Posit>, k: int)
    requires
        0 <= k <= requests.len(),
        posit_plan(kept, bound, requests) is Some,
    ensures
        posit_plan(kept, bound, requests.take(k)) matches Some((prefix, ids)) && {
            let whole = posit_plan(kept, bound, requests).unwrap().0;
            &&& prefix.len() <= whole.len()
            &&& whole.take(prefix.len() as int) == prefix
            &&& ids.len() == k
        },
    decreases requests.len() - k,
{
    if k == requests.len() {
        assert(requests.take(k) =~= requests);
        lemma_posit_plan_ids(kept, bound, requests);
        let whole = posit_plan(kept, bound, requests).unwrap().0;
        assert(whole.take(whole.len() as int) =~= whole);
    } else {
        lemma_plan_prefix(kept, bound, requests, k + 1);
        assert(requests.take(k + 1).drop_last() =~= requests.take(k));
        lemma_posit_plan_ids(kept, bound, requests.take(k));
        let next = posit_plan(kept, bound, requests.take(k + 1)).unwrap().0;
        let here = posit_plan(kept, bound, requests.take(k)).unwrap().0;
        let whole = posit_plan(kept, bound, requests).unwrap().0;
        assert(next.take(here.len() as int) =~= here);
        assert(whole.take(here.len() as int) =~= here);
    }
}

proof fn lemma_posit_plan_ids(kept: Seq<Posit>, bound: nat, requests: Seq<Posit>)
    ensures
        posit_plan(kept, bound, requests) matches Some((prepared, ids)) ==> ids.len() == requests.len(),
    decreases requests.len(),
{
    if requests.len() > 0 {
        lemma_posit_plan_ids(kept, bound, requests.drop_last());
    }
}

/// Creating posits again finds them all: against the kept posits with the
/// posits a first plan added, the same requests prepare nothing new and
/// resolve to the same identities, whatever identities they would draw.
pub proof fn posit_requests_are_idempotent(kept: Seq<Posit>, bound: nat, requests: Seq<Posit>, later_bound: nat)
    requires
        posit_plan(kept, bound, requests) is Some,
        later_bound + requests.len() <= u64::MAX,
    ensures
        posit_plan(kept + posit_plan(kept, bound, requests).unwrap().0, later_bound, requests) == Some(
            (Seq::<Posit>::empty(), posit_plan(kept, bound, requests).unwrap().1),
        ),
{
    lemma_idempotent_prefix(kept, bound, requests, later_bound, requests.len() as int);
    assert(requests.take(requests.len() as int) =~= requests);
}

proof fn lemma_idempotent_prefix(kept: Seq<Posit>, bound: nat, requests: Seq<Posit>, later_bound: nat, k: int)
    requires
        posit_plan(kept, bound, requests) is Some,
        later_bound + requests.len() <= u64::MAX,
        0 <= k <= requests.len(),
    ensures
        posit_plan(kept + posit_plan(kept, bound, requests).unwrap().0, later_bound, requests.take(k)) == Some(
            (Seq::<Posit>::empty(), posit_plan(kept, bound, requests.take(k)).unwrap().1),
        ),
    decreases k,
{
    let whole = posit_plan(kept, bound, requests).unwrap().0;
    let both = kept + whole;
    lemma_plan_prefix(kept, bound, requests, k);
    if k == 0 {
        assert(requests.take(0) =~= Seq::<Posit>::empty());
    } else {
        lemma_idempotent_prefix(kept, bound, requests, later_bound, k - 1);
        lemma_plan_prefix(kept, bound, requests, k - 1);
        let reqs = requests.take(k);
        assert(reqs.drop_last() =~= requests.take(k - 1));
        let (before, ids_before) = posit_plan(kept, bound, requests.take(k - 1))->0;
        let i = k - 1;
        let req = reqs.last();
        let old_candidate = with_identity(req, (bound + i + 1) as Thing);
        let new_candidate = with_identity(req, (later_bound + i + 1) as Thing);
        lemma_index_ignores_identity(kept, req, (bound + i + 1) as Thing, (later_bound + i + 1) as Thing);
        lemma_index_ignores_identity(before, req, (bound + i + 1) as Thing, (later_bound + i + 1) as Thing);
        lemma_index_ignores_identity(whole, req, (bound + i + 1) as Thing, (later_bound + i + 1) as Thing);
        lemma_index_concat(kept, whole, new_candidate);
        lemma_proposition_index(kept, new_candidate);
        lemma_proposition_index(before, new_candidate);
        lemma_proposition_index(whole, new_candidate);
        assert(whole.take(before.len() as int) == before);
        match proposition_index(kept, new_candidate) {
            Some(j) => {},
            None => {
                match proposition_index(before, new_candidate) {
                    Some(q) => {
                        let wq = proposition_index(whole, new_candidate)->0;
                        assert(whole[q] == before[q]);
                        if wq < q {
                            assert(before[wq] == whole[wq]);
                        }
                        assert(wq == q);
                    },
                    None => {
                        let (after, ids_after) = posit_plan(kept, bound, reqs)->0;
                        assert(after == before.push(old_candidate));
                        assert(whole.take(after.len() as int) == after);
                        assert(after[before.len() as int] == old_candidate);
                        assert(whole.take(after.len() as int)[before.len() as int] == whole[before.len() as int]);
                        assert(whole[before.len() as int] == old_candidate);
                        assert(same_proposition(old_candidate, new_candidate));
                        let wq = proposition_index(whole, new_candidate)->0;
                        if wq < before.len() {
                            assert(before[wq] == whole[wq]);
                        }
                        assert(wq == before.len());
                    },
                }
            },
        }
    }
}

proof fn lemma_posit_plan_failure_stays(kept: Seq<Posit>, bound: nat, requests: Seq<Posit>, k: int)
    requires
        0 <= k <= requests.len(),
        posit_plan(kept, bound, requests.take(k)) is None,
    ensures
        posit_plan(kept, bound, requests) is None,
    decreases requests.len() - k,
{
    if k < requests.len() {
        assert(requests.take(k + 1).drop_last() =~= requests.take(k));
        lemma_posit_plan_failure_stays(kept, bound, requests, k + 1);
    } else {
        assert(requests.take(k) =~= requests);
    }
}

/// A posit to create, or the kept posit it resolves to.
pub enum PositSource {
    Existing(Posit),
    New(usize),
}

/// The posits a batch of posit requests adds, and where each request
/// resolves.
pub struct PositPlan {
    prepared: Vec<Posit>,
    sources: Vec<PositSource>,
}

pub open spec fn posit_outcome(prepared: Seq<Posit>, s: PositSource) -> Posit {
    match s {
        PositSource::Existing(p) => p,
        PositSource::New(k) => prepared[k as int],
    }
}

pub open spec fn posit_outcomes(prepared: Seq<Posit>, sources: Seq<PositSource>) -> Seq<Posit> {
    sources.map_values(|s: PositSource| posit_outcome(prepared, s))
}

pub open spec fn identities_of(posits: Seq<Posit>) -> Seq<Thing> {
    posits.map_values(|p: Posit| p.identity())
}

impl PositPlan {
    #[verifier::type_invariant]
    spec fn sources_in_range(&self) -> bool {
        forall|i: int| 0 <= i < self.sources@.len() ==> (#[trigger] self.sources@[i] matches PositSource::New(k) ==> k
            < self.prepared@.len())
    }

    pub closed spec fn prepared_posits(&self) -> Seq<Posit> {
        self.prepared@
    }

    /// The posit each request resolves to.
    pub closed spec fn outcomes(&self) -> Seq<Posit> {
        posit_outcomes(self.prepared@, self.sources@)
    }

    /// The posits to add, in order.
    pub fn prepared(&self) -> (posits: &[Posit])
        ensures
            posits@ == self.prepared_posits(),
    {
        self.prepared.as_slice()
    }
}

// ---------------------------------------------------------------------------
// Restoring from a replayed store
// ---------------------------------------------------------------------------

pub open spec fn replayed_role_parts(r: ReplayedRole) -> RoleParts {
    (r.identity, nfc_text(r.name@), r.reserved)
}

pub open spec fn replayed_roles_parts(rs: Seq<ReplayedRole>) -> Seq<RoleParts> {
    rs.map_values(|r: ReplayedRole| replayed_role_parts(r))
}

/// The last role of `parts` named `name`.
pub open spec fn parts_named(parts: Seq<RoleParts>, name: Seq<char>) -> Option<RoleParts>
    decreases parts.len(),
{
    if parts.len() == 0 {
        None
    } else if parts.last().1 == name {
        Some(parts.last())
    } else {
        parts_named(parts.drop_last(), name)
    }
}

/// The last role of `parts` with identity `t`.
pub open spec fn parts_with(parts: Seq<RoleParts>, t: Thing) -> Option<RoleParts>
    decreases parts.len(),
{
    if parts.len() == 0 {
        None
    } else if parts.last().0 == t {
        Some(parts.last())
    } else {
        parts_with(parts.drop_last(), t)
    }
}

/// No two roles share a name.
pub open spec fn names_unique(parts: Seq<RoleParts>) -> bool {
    forall|i: int, j: int| 0 <= i < j < parts.len() ==> (#[trigger] parts[i]).1 != (#[trigger] parts[j]).1
}

/// The catalog `parts` can take the built-in role `name` at `identity`:
/// the name is reserved at that identity, or neither is taken.
pub open spec fn builtin_ok(parts: Seq<RoleParts>, identity: Thing, name: Seq<char>) -> bool {
    match parts_named(parts, name) {
        Some(existing) => existing.0 == identity && existing.2,
        None => parts_with(parts, identity) is None,
    }
}

/// The catalog `parts` with the built-in role `name` added where missing.
pub open spec fn with_builtin(parts: Seq<RoleParts>, identity: Thing, name: Seq<char>) -> Seq<RoleParts> {
    if parts_named(parts, name) is Some {
        parts
    } else {
        parts.push((identity, name, true))
    }
}

/// Some role of `parts` has identity `t`.
pub open spec fn role_listed_in(parts: Seq<RoleParts>, t: Thing) -> bool {
    exists|i: int| 0 <= i < parts.len() && (#[trigger] parts[i]).0 == t
}

/// No role appears twice among `pairs`.
pub open spec fn pair_roles_distinct(pairs: Seq<(Thing, Thing)>) -> bool {
    forall|i: int, j: int| 0 <= i < j < pairs.len() ==> (#[trigger] pairs[i]).0 != (#[trigger] pairs[j]).0
}

/// Two replayed posits state the same proposition.
pub open spec fn replayed_same_proposition(p: ReplayedPosit, q: ReplayedPosit) -> bool {
    &&& p.appearances@.to_multiset() == q.appearances@.to_multiset()
    &&& p.value.token_spec() == q.value.token_spec()
    &&& p.time == q.time
}

/// Replayed posits that can be kept against the roles `parts`.
pub open spec fn posits_restorable(parts: Seq<RoleParts>, ps: Seq<ReplayedPosit>) -> bool {
    &&& forall|k: int, a: int|
        0 <= k < ps.len() && 0 <= a < ps[k].appearances@.len() ==> role_listed_in(
            parts,
            (#[trigger] ps[k].appearances@[a]).0,
        )
    &&& forall|k: int| 0 <= k < ps.len() ==> pair_roles_distinct((#[trigger] ps[k]).appearances@)
    &&& forall|k: int, l: int| 0 <= k < l < ps.len() ==> !replayed_same_proposition(#[trigger] ps[k], #[trigger] ps[l])
}

/// A replayed store the database can be restored from.
pub open spec fn restorable(store: ReplayedStore) -> bool {
    let parts = replayed_roles_parts(store.roles@);
    &&& store.has_required_codecs
    &&& names_unique(parts)
    &&& posits_restorable(parts, store.posits@)
    &&& builtin_ok(parts, POSIT_ROLE_ID, "posit"@)
    &&& builtin_ok(with_builtin(parts, POSIT_ROLE_ID, "posit"@), ASCERTAINS_ROLE_ID, "ascertains"@)
}

/// A replayed store with nothing in it is new.
pub open spec fn needs_bootstrap(store: ReplayedStore) -> bool {
    store.roles@.len() == 0 && store.posits@.len() == 0 && !store.has_required_codecs
}

/// The kept posit `p` restores the replayed posit `q`.
pub open spec fn restores(p: Posit, q: ReplayedPosit) -> bool {
    &&& p.identity() == q.identity
    &&& keys_ordered(appearance_keys(p.members()))
    &&& appearance_keys(p.members()).to_multiset() == q.appearances@.to_multiset()
    &&& p.value_token() == q.value.token_spec()
    &&& p.value_family() == q.value.family_spec()
    &&& p.time_spec() == q.time
}

proof fn lemma_parts_named(roles: Seq<Role>, name: Seq<char>)
    ensures
        role_named(roles, name) matches Some(r) ==> parts_named(roles_parts(roles), name) == Some(role_parts(r)),
        role_named(roles, name) is None ==> parts_named(roles_parts(roles), name) is None,
    decreases roles.len(),
{
    if roles.len() > 0 {
        lemma_parts_named(roles.drop_last(), name);
        assert(roles_parts(roles).drop_last() =~= roles_parts(roles.drop_last()));
    }
}

proof fn lemma_parts_with(roles: Seq<Role>, t: Thing)
    ensures
        last_role_with(roles, t) matches Some(r) ==> parts_with(roles_parts(roles), t) == Some(role_parts(r))
            && r.identity() == t,
        last_role_with(roles, t) is None ==> parts_with(roles_parts(roles), t) is None,
    decreases roles.len(),
{
    if roles.len() > 0 {
        lemma_parts_with(roles.drop_last(), t);
        assert(roles_parts(roles).drop_last() =~= roles_parts(roles.drop_last()));
    }
}

proof fn lemma_parts_named_exists(parts: Seq<RoleParts>, name: Seq<char>)
    ensures
        parts_named(parts, name) is Some <==> exists|i: int| 0 <= i < parts.len() && (#[trigger] parts[i]).1 == name,
    decreases parts.len(),
{
    if parts.len() > 0 {
        lemma_parts_named_exists(parts.drop_last(), name);
        if exists|i: int| 0 <= i < parts.len() && (#[trigger] parts[i]).1 == name {
            let i = choose|i: int| 0 <= i < parts.len() && (#[trigger] parts[i]).1 == name;
            if i < parts.len() - 1 {
                assert(parts.drop_last()[i] == parts[i]);
            }
        }
        if exists|i: int| 0 <= i < parts.len() - 1 && (#[trigger] parts.drop_last()[i]).1 == name {
            let i = choose|i: int| 0 <= i < parts.len() - 1 && (#[trigger] parts.drop_last()[i]).1 == name;
            assert(parts[i] == parts.drop_last()[i]);
        }
    }
}

proof fn lemma_parts_with_exists(parts: Seq<RoleParts>, t: Thing)
    ensures
        parts_with(parts, t) is Some <==> role_listed_in(parts, t),
    decreases parts.len(),
{
    if parts.len() > 0 {
        lemma_parts_with_exists(parts.drop_last(), t);
        if role_listed_in(parts, t) {
            let i = choose|i: int| 0 <= i < parts.len() && (#[trigger] parts[i]).0 == t;
            if i < parts.len() - 1 {
                assert(parts.drop_last()[i] == parts[i]);
            }
        }
        if role_listed_in(parts.drop_last(), t) {
            let i = choose|i: int| 0 <= i < parts.len() - 1 && (#[trigger] parts.drop_last()[i]).0 == t;
            assert(parts[i] == parts.drop_last()[i]);
        }
    }
}

proof fn lemma_posits_restorable_prefix(parts: Seq<RoleParts>, ps: Seq<ReplayedPosit>, k: int)
    requires
        0 <= k <= ps.len(),
        !posits_restorable(parts, ps.take(k)),
    ensures
        !posits_restorable(parts, ps),
{
    if posits_restorable(parts, ps) {
        assert forall|q: int, a: int|
            0 <= q < ps.take(k).len() && 0 <= a < ps.take(k)[q].appearances@.len() implies role_listed_in(
            parts,
            (#[trigger] ps.take(k)[q].appearances@[a]).0,
        ) by {
            assert(ps.take(k)[q] == ps[q]);
        }
        assert forall|q: int| 0 <= q < ps.take(k).len() implies pair_roles_distinct((#[trigger] ps.take(k)[q]).appearances@) by {
            assert(ps.take(k)[q] == ps[q]);
        }
        assert forall|q: int, l: int| 0 <= q < l < ps.take(k).len() implies !replayed_same_proposition(
            #[trigger] ps.take(k)[q],
            #[trigger] ps.take(k)[l],
        ) by {
            assert(ps.take(k)[q] == ps[q]);
            assert(ps.take(k)[l] == ps[l]);
        }
    }
}

/// No kept posit states the proposition of the replayed posit `p`.
pub open spec fn proposition_new(kept: Seq<Posit>, p: ReplayedPosit) -> bool {
    forall|q: int|
        0 <= q < kept.len() ==> !(appearance_keys((#[trigger] kept[q]).members()).to_multiset()
            == p.appearances@.to_multiset() && kept[q].value_token() == p.value.token_spec() && kept[q].time_spec()
            == p.time)
}

/// The conditions for restoring one posit.
pub open spec fn posit_restorable(parts: Seq<RoleParts>, kept: Seq<Posit>, p: ReplayedPosit) -> bool {
    &&& forall|a: int| 0 <= a < p.appearances@.len() ==> role_listed_in(parts, (#[trigger] p.appearances@[a]).0)
    &&& pair_roles_distinct(p.appearances@)
    &&& proposition_new(kept, p)
}

/// One step of restoring posits: the posit `ps[k]` keeps the prefix
/// restorable exactly when the single-posit conditions hold.
proof fn lemma_posit_step(parts: Seq<RoleParts>, ps: Seq<ReplayedPosit>, k: int, kept: Seq<Posit>)
    requires
        0 <= k < ps.len(),
        kept.len() == k,
        posits_restorable(parts, ps.take(k)),
        forall|q: int| 0 <= q < k ==> restores(#[trigger] kept[q], ps[q]),
    ensures
        posits_restorable(parts, ps.take(k + 1)) <==> posit_restorable(parts, kept, ps[k]),
{
    let next = ps.take(k + 1);
    assert(next =~= ps.take(k).push(ps[k]));
    assert forall|q: int| 0 <= q < k implies (appearance_keys((#[trigger] kept[q]).members()).to_multiset()
        == ps[k].appearances@.to_multiset() && kept[q].value_token() == ps[k].value.token_spec() && kept[q].time_spec()
        == ps[k].time) == replayed_same_proposition(ps[q], ps[k]) by {}
    if posits_restorable(parts, next) {
        assert(next[k] == ps[k]);
        assert forall|a: int| 0 <= a < ps[k].appearances@.len() implies role_listed_in(
            parts,
            (#[trigger] ps[k].appearances@[a]).0,
        ) by {
            assert(next[k].appearances@[a] == ps[k].appearances@[a]);
        }
        assert(pair_roles_distinct(next[k].appearances@));
        assert forall|q: int| 0 <= q < k implies !replayed_same_proposition(ps[q], ps[k]) by {
            assert(next[q] == ps[q]);
            assert(!replayed_same_proposition(next[q], next[k]));
        }
    }
    if posit_restorable(parts, kept, ps[k]) {
        assert forall|q: int, a: int|
            0 <= q < next.len() && 0 <= a < next[q].appearances@.len() implies role_listed_in(
            parts,
            (#[trigger] next[q].appearances@[a]).0,
        ) by {
            if q < k {
                assert(next[q] == ps.take(k)[q]);
            }
        }
        assert forall|q: int| 0 <= q < next.len() implies pair_roles_distinct((#[trigger] next[q]).appearances@) by {
            if q < k {
                assert(next[q] == ps.take(k)[q]);
            }
        }
        assert forall|q: int, l: int| 0 <= q < l < next.len() implies !replayed_same_proposition(
            #[trigger] next[q],
            #[trigger] next[l],
        ) by {
            assert(next[q] == ps.take(k)[q]);
            if l < k {
                assert(next[l] == ps.take(k)[l]);
            } else {
                assert(next[l] == ps[k]);
                assert(ps.take(k)[q] == ps[q]);
                assert(restores(kept[q], ps[q]));
                assert(!(appearance_keys(kept[q].members()).to_multiset() == ps[k].appearances@.to_multiset()
                    && kept[q].value_token() == ps[k].value.token_spec() && kept[q].time_spec() == ps[k].time));
            }
        }
    }
}

impl Database {
    /// A fresh thing, handed out by the generator; fails once every
    /// identity is spent.
    pub fn create_thing(&mut self) -> (r: Result<Thing, DatabaseError>)
        ensures
            final(self).posits() == old(self).posits(),
            final(self).roles() == old(self).roles(),
            old(self).generator().bound() < u64::MAX ==> (r matches Ok(t) && generates(
                old(self).generator(),
                final(self).generator(),
                t,
            )),
            old(self).generator().bound() == u64::MAX ==> (r matches Err(e) && e is Invariant && final(self).generator()
                == old(self).generator()),
    {
        if !self.thing_generator.can_generate() {
            return Err(DatabaseError::Invariant(String::from_str("Thing identities are exhausted")));
        }
        Ok(self.thing_generator.generate())
    }

    pub closed spec fn generator(&self) -> ThingGenerator {
        self.thing_generator
    }

    pub closed spec fn roles(&self) -> Seq<Role> {
        self.role_keeper.roles()
    }

    pub closed spec fn posits(&self) -> Seq<Posit> {
        self.posit_keeper.posits()
    }

    fn empty() -> (d: Self)
        ensures
            d.generator().bound() == GENESIS,
            d.generator().retained() == Set::<Thing>::empty(),
            d.roles() == Seq::<Role>::empty(),
            d.posits() == Seq::<Posit>::empty(),
    {
        Database { thing_generator: ThingGenerator::new(), role_keeper: RoleKeeper::new(), posit_keeper: PositKeeper::new() }
    }

    /// The kept posits.
    pub fn posit_keeper(&self) -> (k: &PositKeeper)
        ensures
            k.posits() == self.posits(),
    {
        &self.posit_keeper
    }

    /// The kept roles.
    pub fn role_keeper(&self) -> (k: &RoleKeeper)
        ensures
            k.roles() == self.roles(),
    {
        &self.role_keeper
    }

    /// The identity generator.
    pub fn thing_generator(&self) -> (g: &ThingGenerator)
        ensures
            *g == self.generator(),
    {
        &self.thing_generator
    }

    /// Keeps the built-in role `name` at `identity` unless it is there;
    /// refuses a catalog where the name or the identity is taken otherwise.
    fn ensure_builtin_role(&mut self, identity: Thing, name: &str) -> (r: Result<(), DatabaseError>)
        ensures
            ascii_text(name@) ==> nfc_text(name@) == name@,
            final(self).posits() == old(self).posits(),
            match role_named(old(self).roles(), nfc_text(name@)) {
                Some(existing) => if existing.identity() == identity && existing.is_reserved() {
                    r is Ok && *final(self) == *old(self)
                } else {
                    r matches Err(DatabaseError::DataCorruption { .. }) && *final(self) == *old(self)
                },
                None => match last_role_with(old(self).roles(), identity) {
                    Some(_) => r matches Err(DatabaseError::DataCorruption { .. }) && *final(self) == *old(self),
                    None => {
                        &&& r is Ok
                        &&& roles_parts(final(self).roles()) == roles_parts(old(self).roles()).push(
                            (identity, nfc_text(name@), true),
                        )
                        &&& final(self).generator().retained() == old(self).generator().retained().insert(identity)
                        &&& final(self).generator().bound() == if identity > old(self).generator().bound() {
                            identity
                        } else {
                            old(self).generator().bound()
                        }
                    },
                },
            },
    {
        let canonical = canonical_text(name);
        if let Some(existing) = self.role_keeper.get(canonical.as_str()) {
            if existing.role() != identity || !existing.reserved() {
                return Err(
                    DatabaseError::DataCorruption { message: text("built-in role is not reserved at its identity") },
                );
            }
            return Ok(());
        }
        if let Some(_) = self.role_keeper.lookup(identity) {
            return Err(
                DatabaseError::DataCorruption { message: text("built-in role identity belongs to another role") },
            );
        }
        self.thing_generator.retain(identity);
        let role = Role::new(identity, canonical, true);
        let ghost before = self.role_keeper.roles();
        let _ = self.role_keeper.keep(role);
        proof {
            assert(roles_parts(self.role_keeper.roles()) =~= roles_parts(before).push((identity, nfc_text(name@), true)));
        }
        Ok(())
    }

    /// A database that lives in memory only, with the two built-in roles.
    pub fn in_memory() -> (r: Result<Database, DatabaseError>)
        ensures
            r matches Ok(d) && d.posits() == Seq::<Posit>::empty() && roles_parts(d.roles()) == seq![
                (POSIT_ROLE_ID, "posit"@, true),
                (ASCERTAINS_ROLE_ID, "ascertains"@, true),
            ] && d.generator().bound() == ASCERTAINS_ROLE_ID && d.generator().retained() == set![
                POSIT_ROLE_ID,
                ASCERTAINS_ROLE_ID,
            ],
    {
        proof {
            reveal_strlit("posit");
            reveal_strlit("ascertains");
        }
        let mut d = Database::empty();
        let ghost d0 = d;
        d.ensure_builtin_role(POSIT_ROLE_ID, "posit")?;
        let ghost d1 = d;
        proof {
            assert(roles_parts(d1.roles()) =~= seq![(POSIT_ROLE_ID, "posit"@, true)]);
            assert(d1.roles().len() == 1);
            assert(roles_parts(d1.roles())[0] == role_parts(d1.roles()[0]));
            assert(d1.roles()[0].name_text() == "posit"@);
            assert(d1.roles().last() == d1.roles()[0]);
            assert(d1.roles().drop_last() =~= Seq::<Role>::empty());
            reveal_strlit("posit");
            reveal_strlit("ascertains");
            assert("posit"@.len() == 5);
            assert("ascertains"@.len() == 10);
            assert("posit"@ != "ascertains"@);
            assert(d1.roles()[0].identity() == POSIT_ROLE_ID);
            reveal_with_fuel(role_named, 2);
            reveal_with_fuel(last_role_with, 2);
            assert(role_named(d1.roles(), "ascertains"@) is None);
            assert(last_role_with(d1.roles(), ASCERTAINS_ROLE_ID) is None);
        }
        d.ensure_builtin_role(ASCERTAINS_ROLE_ID, "ascertains")?;
        proof {
            assert(roles_parts(d.roles()) =~= seq![(POSIT_ROLE_ID, "posit"@, true), (ASCERTAINS_ROLE_ID, "ascertains"@, true)]);
            assert(d.generator().retained() =~= set![POSIT_ROLE_ID, ASCERTAINS_ROLE_ID]);
        }
        Ok(d)
    }

    /// Prepares the roles `roles` (name, reserved) of one command: each
    /// resolves to the catalog role of its canonical name, to a role
    /// prepared earlier in the command, or to a new role with a fresh
    /// identity. Nothing is kept yet.
    pub fn plan_roles(&mut self, roles: Vec<(String, bool)>) -> (r: Result<RolePlan, DatabaseError>)
        ensures
            final(self).roles() == old(self).roles(),
            final(self).posits() == old(self).posits(),
            match role_plan(old(self).roles(), old(self).generator().bound() as nat, role_requests(roles@)) {
                Ok((prepared, outcomes)) => r matches Ok(plan) && plan.prepared_parts() == prepared && plan.outcomes()
                    == outcomes && final(self).generator().bound() == old(self).generator().bound() + prepared.len()
                    && final(self).generator().retained() == old(self).generator().retained().union(
                    role_identities(prepared),
                ),
                Err(f) => r matches Err(e) && role_failure_error(f, e),
            },
    {
        let ghost kept = self.roles();
        let ghost bound = self.generator().bound() as nat;
        let ghost retained = self.generator().retained();
        let ghost requests = role_requests(roles@);
        let mut prepared: Vec<Role> = Vec::new();
        let mut sources: Vec<RoleSource> = Vec::new();
        let mut i: usize = 0;
        assert(requests.take(0) =~= Seq::<(Seq<char>, bool)>::empty());
        assert(roles_parts(prepared@) =~= Seq::<RoleParts>::empty());
        assert(sources@.map_values(|s: RoleSource| role_outcome(prepared@, s)) =~= Seq::<(RoleParts, bool)>::empty());
        assert(role_identities(Seq::<RoleParts>::empty()) =~= Set::<Thing>::empty());
        assert(retained.union(Set::<Thing>::empty()) =~= retained);
        while i < roles.len()
            invariant
                i <= roles@.len(),
                requests == role_requests(roles@),
                kept == self.roles(),
                kept == old(self).roles(),
                bound == old(self).generator().bound(),
                retained == old(self).generator().retained(),
                self.posits() == old(self).posits(),
                role_plan(kept, bound, requests.take(i as int)) == Ok::<_, RoleFailure>(
                    (roles_parts(prepared@), sources@.map_values(|s: RoleSource| role_outcome(prepared@, s))),
                ),
                forall|j: int| 0 <= j < sources@.len() ==> (#[trigger] sources@[j] matches RoleSource::New(k) ==> k
                    < prepared@.len()),
                self.generator().bound() == bound + prepared@.len(),
                self.generator().retained() == retained.union(role_identities(roles_parts(prepared@))),
            decreases roles@.len() - i,
        {
            proof {
                assert(requests.take(i + 1).drop_last() =~= requests.take(i as int));
                assert(requests.take(i + 1).last() == (roles@[i as int].0@, roles@[i as int].1));
                lemma_role_plan_fresh(kept, bound, requests.take(i as int));
            }
            let reserved = roles[i].1;
            let canonical = canonical_text(roles[i].0.as_str());
            if canonical.as_str().unicode_len() == 0 {
                proof {
                    lemma_role_plan_failure_stays(kept, bound, requests, i + 1);
                }
                return Err(DatabaseError::Execution(text("role name cannot be empty")));
            }
            let ghost before_prepared = prepared@;
            let ghost before_sources = sources@;
            match self.role_keeper.get(canonical.as_str()) {
                Some(existing) => {
                    sources.push(RoleSource::Existing(existing));
                },
                None => {
                    let found = find_prepared(&prepared, &canonical);
                    match found {
                        Some(k) => {
                            assert(roles_parts(prepared@)[k as int] == role_parts(prepared@[k as int]));
                            if prepared[k].reserved != reserved {
                                let mut m = text("role '");
                                m.append(canonical.as_str());
                                m.append("' has conflicting reserved status in one command");
                                proof {
                                    lemma_role_plan_failure_stays(kept, bound, requests, i + 1);
                                }
                                return Err(DatabaseError::Execution(m));
                            }
                            sources.push(RoleSource::New(k));
                        },
                        None => {
                            if !self.thing_generator.can_generate() {
                                proof {
                                    lemma_role_plan_failure_stays(kept, bound, requests, i + 1);
                                }
                                return Err(DatabaseError::Invariant(text("the identity space is exhausted")));
                            }
                            let identity = self.thing_generator.generate();
                            prepared.push(Role::new(identity, canonical, reserved));
                            sources.push(RoleSource::New(prepared.len() - 1));
                            proof {
                                let p = roles_parts(before_prepared);
                                assert(roles_parts(prepared@) =~= p.push((identity, nfc_text(roles@[i as int].0@), reserved)));
                                assert(role_identities(roles_parts(prepared@)) =~= role_identities(p).insert(identity)) by {
                                    assert(roles_parts(prepared@).map_values(|q: RoleParts| q.0) =~= p.map_values(|q: RoleParts| q.0).push(identity));
                                }
                                assert(self.generator().retained() =~= retained.union(role_identities(roles_parts(prepared@))));
                            }
                        },
                    }
                },
            }
            proof {
                assert(sources@.map_values(|s: RoleSource| role_outcome(prepared@, s)) =~= before_sources.map_values(
                    |s: RoleSource| role_outcome(before_prepared, s),
                ).push(role_outcome(prepared@, sources@.last()))) by {
                    assert forall|j: int| 0 <= j < before_sources.len() implies role_outcome(prepared@, #[trigger] before_sources[j])
                        == role_outcome(before_prepared, before_sources[j]) by {
                        assert(sources@[j] == before_sources[j]);
                    }
                }
            }
            i = i + 1;
        }
        proof {
            assert(requests.take(i as int) =~= requests);
        }
        Ok(RolePlan { prepared, sources })
    }

    /// Keeps the prepared roles of `plan`; each request resolves to its role
    /// and whether it existed before.
    pub fn commit_roles(&mut self, plan: RolePlan) -> (out: Vec<(Role, bool)>)
        ensures
            final(self).generator() == old(self).generator(),
            final(self).posits() == old(self).posits(),
            fresh_roles(old(self).roles(), plan.prepared_parts()) ==> roles_parts(final(self).roles()) == roles_parts(
                old(self).roles(),
            ) + plan.prepared_parts() && created_roles(out@) == plan.outcomes(),
    {
        proof {
            use_type_invariant(&plan);
        }
        let ghost start = self.roles();
        let fresh = Ghost(fresh_roles(start, plan.prepared_parts()));
        let mut kept: Vec<Role> = Vec::new();
        let mut i: usize = 0;
        while i < plan.prepared.len()
            invariant
                i <= plan.prepared@.len(),
                kept@.len() == i,
                self.generator() == old(self).generator(),
                self.posits() == old(self).posits(),
                start == old(self).roles(),
                fresh@ == fresh_roles(start, plan.prepared_parts()),
                fresh@ ==> roles_parts(self.roles()) == roles_parts(start) + roles_parts(plan.prepared@.take(i as int)),
                fresh@ ==> self.roles() == start + plan.prepared@.take(i as int),
                fresh@ ==> forall|j: int| 0 <= j < i ==> #[trigger] kept@[j] == plan.prepared@[j],
            decreases plan.prepared@.len() - i,
        {
            let ghost before = self.roles();
            let (role, _existed) = self.role_keeper.keep(plan.prepared[i].clone());
            proof {
                if fresh@ {
                    assert(roles_parts(plan.prepared@)[i as int] == role_parts(plan.prepared@[i as int]));
                    assert(role_named(start, plan.prepared@[i as int].name_text()) is None);
                    assert forall|j: int| 0 <= j < before.len() implies (#[trigger] before[j]).name_text()
                        != plan.prepared@[i as int].name_text() by {
                        if j < start.len() {
                            lemma_role_named_finds(start, plan.prepared@[i as int].name_text(), j);
                        } else {
                            let a = j - start.len();
                            assert(before[j] == plan.prepared@[a]);
                            assert(roles_parts(plan.prepared@)[a] == role_parts(plan.prepared@[a]));
                        }
                    }
                    lemma_role_named_absent(before, plan.prepared@[i as int].name_text());
                    assert(plan.prepared@.take(i + 1) =~= plan.prepared@.take(i as int).push(plan.prepared@[i as int]));
                    assert(roles_parts(plan.prepared@.take(i + 1)) =~= roles_parts(plan.prepared@.take(i as int)).push(
                        role_parts(plan.prepared@[i as int]),
                    ));
                }
            }
            kept.push(role);
            i = i + 1;
        }
        proof {
            assert(plan.prepared@.take(i as int) =~= plan.prepared@);
        }
        let mut out: Vec<(Role, bool)> = Vec::new();
        let mut j: usize = 0;
        while j < plan.sources.len()
            invariant
                j <= plan.sources@.len(),
                kept@.len() == plan.prepared@.len(),
                forall|q: int| 0 <= q < plan.sources@.len() ==> (#[trigger] plan.sources@[q] matches RoleSource::New(k) ==> k
                    < plan.prepared@.len()),
                fresh@ ==> forall|q: int| 0 <= q < kept@.len() ==> #[trigger] kept@[q] == plan.prepared@[q],
                fresh@ ==> created_roles(out@) == plan.sources@.take(j as int).map_values(
                    |s: RoleSource| role_outcome(plan.prepared@, s),
                ),
            decreases plan.sources@.len() - j,
        {
            let ghost before = out@;
            match &plan.sources[j] {
                RoleSource::Existing(role) => out.push((role.clone(), true)),
                RoleSource::New(k) => out.push((kept[*k].clone(), false)),
            }
            proof {
                if fresh@ {
                    assert(plan.sources@.take(j + 1) =~= plan.sources@.take(j as int).push(plan.sources@[j as int]));
                    assert(created_roles(out@) =~= created_roles(before).push(role_outcome(plan.prepared@, plan.sources@[j as int])));
                }
            }
            j = j + 1;
        }
        proof {
            assert(plan.sources@.take(j as int) =~= plan.sources@);
        }
        out
    }

    /// Creates the roles `roles` (name, reserved) of one command: each
    /// resolves to the catalog role of its canonical name, to a role created
    /// earlier in the command, or to a new role with a fresh identity.
    pub fn create_roles(&mut self, roles: Vec<(String, bool)>) -> (r: Result<Vec<(Role, bool)>, DatabaseError>)
        ensures
            final(self).posits() == old(self).posits(),
            match role_plan(old(self).roles(), old(self).generator().bound() as nat, role_requests(roles@)) {
                Ok((prepared, outcomes)) => r matches Ok(out) && created_roles(out@) == outcomes && roles_parts(
                    final(self).roles(),
                ) == roles_parts(old(self).roles()) + prepared && final(self).generator().bound()
                    == old(self).generator().bound() + prepared.len() && final(self).generator().retained()
                    == old(self).generator().retained().union(role_identities(prepared)),
                Err(f) => r matches Err(e) && role_failure_error(f, e) && final(self).roles() == old(self).roles(),
            },
    {
        proof {
            lemma_role_plan_fresh(self.roles(), self.generator().bound() as nat, role_requests(roles@));
        }
        let plan = self.plan_roles(roles)?;
        Ok(self.commit_roles(plan))
    }

    /// Prepares the literal posits `posits` of one command: each draws a
    /// fresh identity and resolves to the kept posit of the same
    /// proposition, to one prepared earlier in the command (releasing the
    /// drawn identity), or to a new posit. Nothing is kept yet.
    pub fn plan_literal_posits(&mut self, posits: Vec<(AppearanceSet, LiteralValue, Time)>) -> (r: Result<
        PositPlan,
        DatabaseError,
    >)
        ensures
            final(self).roles() == old(self).roles(),
            final(self).posits() == old(self).posits(),
            match posit_plan(old(self).posits(), old(self).generator().bound() as nat, posit_requests(posits@)) {
                Some((prepared, ids)) => r matches Ok(plan) && plan.prepared_posits() == prepared
                    && identities_of(plan.outcomes()) == ids && (forall|i: int|
                    0 <= i < ids.len() ==> same_proposition(
                        #[trigger] plan.outcomes()[i],
                        posit_requests(posits@)[i],
                    )) && final(self).generator().bound() == old(self).generator().bound() + posits@.len()
                    && final(self).generator().retained() == old(self).generator().retained().union(
                    posit_identities(prepared),
                ),
                None => r matches Err(e) && e is Invariant,
            },
    {
        let ghost kept = self.posits();
        let ghost bound = self.generator().bound() as nat;
        let ghost retained = self.generator().retained();
        let ghost requests = posit_requests(posits@);
        let ghost all = posits@;
        let mut pending = posits;
        let n = pending.len();
        let mut prepared: Vec<Posit> = Vec::new();
        let mut sources: Vec<PositSource> = Vec::new();
        let mut i: usize = 0;
        assert(requests.take(0) =~= Seq::<Posit>::empty());
        assert(posit_outcomes(prepared@, sources@) =~= Seq::<Posit>::empty());
        assert(posit_identities(Seq::<Posit>::empty()) =~= Set::<Thing>::empty());
        assert(retained.union(Set::<Thing>::empty()) =~= retained);
        assert(all.skip(0) =~= all);
        while i < n
            invariant
                n == all.len(),
                i <= n,
                pending@ == all.skip(i as int),
                all == posits@,
                requests == posit_requests(all),
                kept == self.posits(),
                kept == old(self).posits(),
                self.roles() == old(self).roles(),
                bound == old(self).generator().bound(),
                retained == old(self).generator().retained(),
                posit_plan(kept, bound, requests.take(i as int)) == Some(
                    (prepared@, identities_of(posit_outcomes(prepared@, sources@))),
                ),
                forall|j: int| 0 <= j < i ==> same_proposition(
                    #[trigger] posit_outcomes(prepared@, sources@)[j],
                    requests[j],
                ),
                sources@.len() == i,
                forall|j: int| 0 <= j < sources@.len() ==> (#[trigger] sources@[j] matches PositSource::New(k) ==> k
                    < prepared@.len()),
                self.generator().bound() == bound + i,
                self.generator().retained() == retained.union(posit_identities(prepared@)),
            decreases n - i,
        {
            let ghost before_prepared = prepared@;
            let ghost before_sources = sources@;
            proof {
                assert(requests.take(i + 1).drop_last() =~= requests.take(i as int));
                assert(requests.take(i + 1).last() == posit_request(all[i as int]));
                lemma_posit_plan(kept, bound, requests.take(i as int));
            }
            if !self.thing_generator.can_generate() {
                proof {
                    assert(bound + i >= u64::MAX);
                    assert(posit_plan(kept, bound, requests.take(i + 1)) is None);
                    lemma_posit_plan_failure_stays(kept, bound, requests, i + 1);
                    assert(posit_plan(kept, bound, requests) is None);
                }
                return Err(DatabaseError::Invariant(text("the identity space is exhausted")));
            }
            let ghost g0 = self.thing_generator;
            let identity = self.thing_generator.generate();
            let (appearance_set, value, time) = pending.remove(0);
            let candidate = Posit { posit: identity, appearance_set, value, time };
            proof {
                assert(all.skip(i as int)[0] == all[i as int]);
                assert(pending@ =~= all.skip(i + 1));
                assert(candidate == with_identity(posit_request(all[i as int]), identity));
                lemma_proposition_index(kept, candidate);
                lemma_proposition_index(prepared@, candidate);
            }
            match self.posit_keeper.find(&candidate) {
                Some(j) => {
                    self.thing_generator.release(identity);
                    sources.push(PositSource::Existing(self.posit_keeper.kept[j].clone()));
                    proof {
                        assert(self.generator().retained() =~= retained.union(posit_identities(prepared@)));
                    }
                },
                None => {
                    let mut k: usize = 0;
                    let mut found: Option<usize> = None;
                    while k < prepared.len()
                        invariant_except_break
                            found is None,
                        invariant
                            k <= prepared@.len(),
                            forall|q: int| 0 <= q < k ==> !same_proposition(#[trigger] prepared@[q], candidate),
                        ensures
                            found matches Some(q) ==> q < prepared@.len() && same_proposition(prepared@[q as int], candidate)
                                && forall|x: int| 0 <= x < q ==> !same_proposition(#[trigger] prepared@[x], candidate),
                            found is None ==> forall|q: int| 0 <= q < prepared@.len() ==> !same_proposition(
                                #[trigger] prepared@[q],
                                candidate,
                            ),
                        decreases prepared@.len() - k,
                    {
                        if same_posit(&prepared[k], &candidate) {
                            found = Some(k);
                            break;
                        }
                        k = k + 1;
                    }
                    match found {
                        Some(q) => {
                            self.thing_generator.release(identity);
                            sources.push(PositSource::New(q));
                            proof {
                                assert(self.generator().retained() =~= retained.union(posit_identities(prepared@)));
                            }
                        },
                        None => {
                            prepared.push(candidate);
                            sources.push(PositSource::New(prepared.len() - 1));
                            proof {
                                assert(identities_of(prepared@) =~= identities_of(before_prepared).push(identity));
                                assert(posit_identities(prepared@) =~= posit_identities(before_prepared).insert(identity));
                                assert(self.generator().retained() =~= retained.union(posit_identities(prepared@)));
                            }
                        },
                    }
                },
            }
            proof {
                let outs = posit_outcomes(prepared@, sources@);
                let before_outs = posit_outcomes(before_prepared, before_sources);
                assert(outs =~= before_outs.push(posit_outcome(prepared@, sources@.last()))) by {
                    assert forall|j: int| 0 <= j < before_sources.len() implies posit_outcome(prepared@, #[trigger] before_sources[j])
                        == posit_outcome(before_prepared, before_sources[j]) by {
                        assert(sources@[j] == before_sources[j]);
                    }
                }
                assert(identities_of(outs) =~= identities_of(before_outs).push(
                    posit_outcome(prepared@, sources@.last()).identity(),
                ));
                assert forall|j: int| 0 <= j < i + 1 implies same_proposition(#[trigger] outs[j], requests[j]) by {
                    if j < i {
                        assert(outs[j] == before_outs[j]);
                    }
                }
            }
            i = i + 1;
        }
        proof {
            assert(requests.take(i as int) =~= requests);
        }
        Ok(PositPlan { prepared, sources })
    }

    /// Keeps the prepared posits of `plan`; each request resolves to its
    /// posit.
    pub fn commit_posits(&mut self, plan: PositPlan) -> (out: Vec<Posit>)
        ensures
            final(self).generator() == old(self).generator(),
            final(self).roles() == old(self).roles(),
            out@.len() == plan.outcomes().len(),
            forall|i: int| 0 <= i < out@.len() ==> same_proposition(#[trigger] out@[i], plan.outcomes()[i]),
            fresh_posits(old(self).posits(), plan.prepared_posits()) ==> final(self).posits() == old(self).posits()
                + plan.prepared_posits() && forall|i: int| 0 <= i < out@.len() ==> (#[trigger] out@[i]).identity()
                == plan.outcomes()[i].identity(),
    {
        proof {
            use_type_invariant(&plan);
        }
        let ghost start = self.posits();
        let ghost all = plan.prepared@;
        let ghost outcomes = plan.outcomes();
        let fresh = Ghost(fresh_posits(start, all));
        let PositPlan { prepared, sources } = plan;
        let mut prepared = prepared;
        let n = prepared.len();
        let mut kept: Vec<Posit> = Vec::new();
        let mut i: usize = 0;
        assert(all.skip(0) =~= all);
        while i < n
            invariant
                n == all.len(),
                i <= n,
                prepared@ == all.skip(i as int),
                kept@.len() == i,
                self.generator() == old(self).generator(),
                self.roles() == old(self).roles(),
                start == old(self).posits(),
                fresh@ == fresh_posits(start, all),
                forall|j: int| 0 <= j < i ==> same_proposition(#[trigger] kept@[j], all[j]),
                fresh@ ==> self.posits() == start + all.take(i as int),
                fresh@ ==> forall|j: int| 0 <= j < i ==> (#[trigger] kept@[j]).identity() == all[j].identity(),
            decreases n - i,
        {
            let ghost before = self.posits();
            let posit = prepared.remove(0);
            proof {
                assert(all.skip(i as int)[0] == all[i as int]);
                assert(prepared@ =~= all.skip(i + 1));
                if fresh@ {
                    lemma_proposition_index(start, all[i as int]);
                    lemma_proposition_index(before, all[i as int]);
                    assert forall|j: int| 0 <= j < before.len() implies !same_proposition(#[trigger] before[j], all[i as int]) by {
                        if j >= start.len() {
                            let a = j - start.len();
                            assert(before[j] == all[a]);
                            lemma_same_proposition_symmetric(all[i as int], all[a]);
                        }
                    }
                    lemma_proposition_index_absent(before, all[i as int]);
                }
            }
            let (copy, _existed) = self.posit_keeper.keep(posit);
            proof {
                if fresh@ {
                    assert(all.take(i + 1) =~= all.take(i as int).push(all[i as int]));
                }
            }
            kept.push(copy);
            i = i + 1;
        }
        proof {
            assert(all.take(i as int) =~= all);
        }
        let mut out: Vec<Posit> = Vec::new();
        let mut j: usize = 0;
        while j < sources.len()
            invariant
                j <= sources@.len(),
                kept@.len() == all.len(),
                outcomes == posit_outcomes(all, sources@),
                forall|q: int| 0 <= q < sources@.len() ==> (#[trigger] sources@[q] matches PositSource::New(k) ==> k
                    < all.len()),
                forall|q: int| 0 <= q < kept@.len() ==> same_proposition(#[trigger] kept@[q], all[q]),
                fresh@ ==> forall|q: int| 0 <= q < kept@.len() ==> (#[trigger] kept@[q]).identity() == all[q].identity(),
                out@.len() == j,
                forall|q: int| 0 <= q < j ==> same_proposition(#[trigger] out@[q], outcomes[q]),
                fresh@ ==> forall|q: int| 0 <= q < j ==> (#[trigger] out@[q]).identity() == outcomes[q].identity(),
            decreases sources@.len() - j,
        {
            assert(outcomes[j as int] == posit_outcome(all, sources@[j as int]));
            match &sources[j] {
                PositSource::Existing(p) => out.push(p.clone()),
                PositSource::New(k) => out.push(kept[*k].clone()),
            }
            j = j + 1;
        }
        out
    }

    /// Creates the literal posits `posits` of one command; each resolves to
    /// the posit of its proposition, kept before or new.
    pub fn create_literal_posits(&mut self, posits: Vec<(AppearanceSet, LiteralValue, Time)>) -> (r: Result<
        Vec<Posit>,
        DatabaseError,
    >)
        ensures
            final(self).roles() == old(self).roles(),
            match posit_plan(old(self).posits(), old(self).generator().bound() as nat, posit_requests(posits@)) {
                Some((prepared, ids)) => r matches Ok(out) && out@.len() == ids.len() && (forall|i: int|
                    0 <= i < ids.len() ==> (#[trigger] out@[i]).identity() == ids[i] && same_proposition(
                        out@[i],
                        posit_requests(posits@)[i],
                    )) && final(self).posits() == old(self).posits() + prepared && final(self).generator().bound()
                    == old(self).generator().bound() + posits@.len() && final(self).generator().retained()
                    == old(self).generator().retained().union(posit_identities(prepared)),
                None => r matches Err(e) && e is Invariant && final(self).posits() == old(self).posits(),
            },
    {
        let ghost requests = posit_requests(posits@);
        proof {
            lemma_posit_plan(self.posits(), self.generator().bound() as nat, requests);
        }
        let plan = self.plan_literal_posits(posits)?;
        let ghost outcomes = plan.outcomes();
        let out = self.commit_posits(plan);
        proof {
            assert forall|i: int| 0 <= i < out@.len() implies (#[trigger] out@[i]).identity() == identities_of(outcomes)[i] && same_proposition(out@[i], requests[i]) by {
                lemma_same_proposition_transitive(out@[i], outcomes[i], requests[i]);
            }
        }
        Ok(out)
    }

    /// Keeps the replayed roles in an empty catalog, refusing two with one
    /// canonical name.
    fn restore_roles(&mut self, roles: &Vec<ReplayedRole>) -> (r: Result<(), DatabaseError>)
        requires
            old(self).roles() == Seq::<Role>::empty(),
        ensures
            final(self).posits() == old(self).posits(),
            r is Ok <==> names_unique(replayed_roles_parts(roles@)),
            r matches Err(e) ==> e is DataCorruption,
            r is Ok ==> roles_parts(final(self).roles()) == replayed_roles_parts(roles@),
            forall|t: Thing| #[trigger] old(self).generator().retained().contains(t) ==> final(self).generator().retained().contains(t),
            r is Ok ==> forall|i: int| 0 <= i < roles@.len() ==> final(self).generator().retained().contains(
                (#[trigger] roles@[i]).identity,
            ),
    {
        let ghost parts = replayed_roles_parts(roles@);
        let mut i: usize = 0;
        while i < roles.len()
            invariant
                i <= roles@.len(),
                parts == replayed_roles_parts(roles@),
                self.posits() == old(self).posits(),
                roles_parts(self.roles()) == parts.take(i as int),
                names_unique(parts.take(i as int)),
                forall|t: Thing| #[trigger] old(self).generator().retained().contains(t) ==> self.generator().retained().contains(t),
                forall|j: int| 0 <= j < i ==> self.generator().retained().contains((#[trigger] roles@[j]).identity),
            decreases roles@.len() - i,
        {
            self.thing_generator.retain(roles[i].identity);
            let role = Role::new(roles[i].identity, roles[i].name.clone(), roles[i].reserved);
            let ghost before = self.roles();
            proof {
                lemma_parts_named(before, role.name_text());
                lemma_parts_named_exists(parts.take(i as int), role.name_text());
                assert(parts[i as int] == replayed_role_parts(roles@[i as int]));
                assert(parts.take(i + 1) =~= parts.take(i as int).push(parts[i as int]));
            }
            let (_, existed) = self.role_keeper.keep(role);
            if existed {
                proof {
                    let j = choose|j: int| 0 <= j < parts.take(i as int).len() && (#[trigger] parts.take(i as int)[j]).1
                        == role.name_text();
                    assert(parts[j] == parts.take(i as int)[j]);
                    assert(!names_unique(parts));
                }
                return Err(DatabaseError::DataCorruption { message: text("duplicate Role survived logical replay") });
            }
            proof {
                assert(roles_parts(self.roles()) =~= roles_parts(before).push(role_parts(role)));
                assert forall|a: int, b: int| 0 <= a < b < parts.take(i + 1).len() implies (#[trigger] parts.take(i + 1)[a]).1
                    != (#[trigger] parts.take(i + 1)[b]).1 by {
                    if b == i {
                        assert(parts.take(i + 1)[a] == parts.take(i as int)[a]);
                    } else {
                        assert(parts.take(i + 1)[a] == parts.take(i as int)[a]);
                        assert(parts.take(i + 1)[b] == parts.take(i as int)[b]);
                    }
                }
            }
            i = i + 1;
        }
        proof {
            assert(parts.take(i as int) =~= parts);
        }
        Ok(())
    }

    /// Keeps one replayed posit, with its appearances in catalog roles.
    fn restore_posit(&mut self, posit: &ReplayedPosit) -> (r: Result<(), DatabaseError>)
        requires
            names_unique(roles_parts(old(self).roles())),
            forall|q: int| 0 <= q < old(self).posits().len() ==> keys_ordered(appearance_keys((#[trigger] old(self).posits()[q]).members())),
        ensures
            final(self).roles() == old(self).roles(),
            forall|t: Thing| #[trigger] old(self).generator().retained().contains(t) ==> final(self).generator().retained().contains(t),
            r is Ok <==> posit_restorable(roles_parts(old(self).roles()), old(self).posits(), *posit),
            r matches Err(e) ==> e is DataCorruption || e is InvalidAppearanceSet,
            r is Ok ==> final(self).posits().len() == old(self).posits().len() + 1 && final(self).posits().drop_last()
                == old(self).posits() && restores(final(self).posits().last(), *posit),
            r is Ok ==> final(self).generator().retained().contains(posit.identity) && forall|a: int|
                0 <= a < posit.appearances@.len() ==> final(self).generator().retained().contains(
                    (#[trigger] posit.appearances@[a]).1,
                ),
    {
        let ghost parts = roles_parts(self.roles());
        let ghost pairs = posit.appearances@;
        let mut appearances: Vec<Appearance> = Vec::new();
        let mut a: usize = 0;
        while a < posit.appearances.len()
            invariant
                a <= pairs.len(),
                pairs == posit.appearances@,
                parts == roles_parts(self.roles()),
                self.roles() == old(self).roles(),
                self.posits() == old(self).posits(),
                appearance_keys(appearances@) == pairs.take(a as int),
                forall|b: int| 0 <= b < a ==> role_listed_in(parts, (#[trigger] pairs[b]).0),
                forall|t: Thing| #[trigger] old(self).generator().retained().contains(t) ==> self.generator().retained().contains(t),
                forall|b: int| 0 <= b < a ==> self.generator().retained().contains((#[trigger] pairs[b]).1),
            decreases pairs.len() - a,
        {
            let (role_identity, thing) = posit.appearances[a];
            proof {
                lemma_parts_with(self.roles(), role_identity);
                lemma_parts_with_exists(parts, role_identity);
            }
            let role = match self.role_keeper.lookup(role_identity) {
                Some(role) => role,
                None => {
                    let mut m = text("missing replayed Role ");
                    push_decimal(&mut m, role_identity);
                    return Err(DatabaseError::DataCorruption { message: m });
                },
            };
            self.thing_generator.retain(thing);
            let ghost before = appearances@;
            appearances.push(Appearance::new(thing, role));
            proof {
                assert(appearance_keys(appearances@) =~= appearance_keys(before).push((role_identity, thing)));
                assert(pairs.take(a + 1) =~= pairs.take(a as int).push(pairs[a as int]));
            }
            a = a + 1;
        }
        proof {
            assert(pairs.take(a as int) =~= pairs);
            assert(roles_distinct(appearances@) <==> pair_roles_distinct(pairs)) by {
                assert forall|i: int, j: int| 0 <= i < appearances@.len() && 0 <= j < appearances@.len() && i != j
                    implies (#[trigger] appearances@[i].role_spec().identity() == #[trigger] appearances@[j].role_spec().identity()
                    <==> pairs[i].0 == pairs[j].0) by {
                    assert(appearance_keys(appearances@)[i] == pairs[i]);
                    assert(appearance_keys(appearances@)[j] == pairs[j]);
                }
            }
        }
        let set = match AppearanceSet::new(appearances) {
            Some(set) => set,
            None => {
                return Err(
                    DatabaseError::InvalidAppearanceSet(
                        text("an appearance set may contain at most one Thing for each Role"),
                    ),
                );
            },
        };
        self.thing_generator.retain(posit.identity);
        let candidate = Posit::new(posit.identity, set, posit.value.clone(), posit.time);
        let ghost kept = self.posits();
        proof {
            lemma_ordered_keys(candidate.members());
            lemma_appearance_keys_multiset(appearances@, candidate.members());
            lemma_proposition_index(kept, candidate);
            assert forall|q: int| 0 <= q < kept.len() implies same_proposition(#[trigger] kept[q], candidate) == (
            appearance_keys(kept[q].members()).to_multiset() == pairs.to_multiset() && kept[q].value_token()
                == posit.value.token_spec() && kept[q].time_spec() == posit.time) by {
                if appearance_keys(kept[q].members()).to_multiset() == pairs.to_multiset() {
                    lemma_ordered_keys_unique(appearance_keys(kept[q].members()), appearance_keys(candidate.members()));
                }
            }
        }
        let (_, existed) = self.posit_keeper.keep(candidate);
        if existed {
            return Err(DatabaseError::DataCorruption { message: text("duplicate Posit survived logical replay") });
        }
        proof {
            assert(self.posits().drop_last() =~= kept);
        }
        Ok(())
    }

    /// Restores a database from the logical content of a store, then adds
    /// the built-in roles where they are missing.
    pub fn restored(replayed: ReplayedStore) -> (r: Result<Database, DatabaseError>)
        ensures
            r is Ok <==> restorable(replayed),
            r matches Err(e) ==> e is DataCorruption || e is InvalidAppearanceSet,
            r matches Ok(d) ==> {
                &&& roles_parts(d.roles()) == with_builtin(
                    with_builtin(replayed_roles_parts(replayed.roles@), POSIT_ROLE_ID, "posit"@),
                    ASCERTAINS_ROLE_ID,
                    "ascertains"@,
                )
                &&& d.posits().len() == replayed.posits@.len()
                &&& forall|k: int| 0 <= k < d.posits().len() ==> restores(#[trigger] d.posits()[k], replayed.posits@[k])
                &&& forall|i: int| 0 <= i < replayed.roles@.len() ==> d.generator().retained().contains(
                    (#[trigger] replayed.roles@[i]).identity,
                )
                &&& forall|k: int| 0 <= k < replayed.posits@.len() ==> d.generator().retained().contains(
                    (#[trigger] replayed.posits@[k]).identity,
                )
            },
    {
        if !replayed.has_required_codecs {
            return Err(
                DatabaseError::DataCorruption { message: text("append-only store lacks the mandatory raw codec") },
            );
        }
        let ghost parts = replayed_roles_parts(replayed.roles@);
        let ghost ps = replayed.posits@;
        let mut d = Database::empty();
        d.restore_roles(&replayed.roles)?;
        let mut k: usize = 0;
        while k < replayed.posits.len()
            invariant
                k <= ps.len(),
                ps == replayed.posits@,
                parts == replayed_roles_parts(replayed.roles@),
                roles_parts(d.roles()) == parts,
                names_unique(parts),
                d.posits().len() == k,
                posits_restorable(parts, ps.take(k as int)),
                forall|q: int| 0 <= q < k ==> restores(#[trigger] d.posits()[q], ps[q]),
                forall|i: int| 0 <= i < replayed.roles@.len() ==> d.generator().retained().contains(
                    (#[trigger] replayed.roles@[i]).identity,
                ),
                forall|q: int| 0 <= q < k ==> d.generator().retained().contains((#[trigger] ps[q]).identity),
            decreases ps.len() - k,
        {
            let ghost before = d.posits();
            let res = d.restore_posit(&replayed.posits[k]);
            proof {
                assert(ps.take(k + 1) =~= ps.take(k as int).push(ps[k as int]));
                lemma_posit_step(parts, ps, k as int, before);
            }
            match res {
                Err(e) => {
                    proof {
                        lemma_posits_restorable_prefix(parts, ps, k + 1);
                    }
                    return Err(e);
                },
                Ok(()) => {},
            }
            proof {
                assert forall|q: int| 0 <= q < k + 1 implies restores(#[trigger] d.posits()[q], ps[q]) by {
                    if q < k {
                        assert(d.posits()[q] == before[q]);
                    }
                }
            }
            k = k + 1;
        }
        proof {
            assert(ps.take(k as int) =~= ps);
            lemma_parts_named(d.roles(), "posit"@);
            lemma_parts_with(d.roles(), POSIT_ROLE_ID);
        }
        let ghost d1 = d;
        let first = d.ensure_builtin_role(POSIT_ROLE_ID, "posit");
        proof {
            reveal_strlit("posit");
            reveal_strlit("ascertains");
            assert(ascii_text("posit"@));
            assert(ascii_text("ascertains"@));
        }
        first?;
        proof {
            assert(roles_parts(d.roles()) == with_builtin(parts, POSIT_ROLE_ID, "posit"@));
            lemma_parts_named(d.roles(), "ascertains"@);
            lemma_parts_with(d.roles(), ASCERTAINS_ROLE_ID);
        }
        d.ensure_builtin_role(ASCERTAINS_ROLE_ID, "ascertains")?;
        Ok(d)
    }

    /// The database of a replayed store: a store with no roles, no posits
    /// and no codecs is new and gets the built-in roles (its caller appends
    /// the records that start it); any other is restored.
    pub fn from_replay(replayed: ReplayedStore) -> (r: Result<Database, DatabaseError>)
        ensures
            needs_bootstrap(replayed) ==> (r matches Ok(d) && d.posits() == Seq::<Posit>::empty() && roles_parts(
                d.roles(),
            ) == seq![(POSIT_ROLE_ID, "posit"@, true), (ASCERTAINS_ROLE_ID, "ascertains"@, true)]),
            !needs_bootstrap(replayed) ==> {
                &&& (r is Ok <==> restorable(replayed))
                &&& (r matches Err(e) ==> e is DataCorruption || e is InvalidAppearanceSet)
                &&& (r matches Ok(d) ==> {
                    &&& roles_parts(d.roles()) == with_builtin(
                        with_builtin(replayed_roles_parts(replayed.roles@), POSIT_ROLE_ID, "posit"@),
                        ASCERTAINS_ROLE_ID,
                        "ascertains"@,
                    )
                    &&& d.posits().len() == replayed.posits@.len()
                    &&& forall|k: int| 0 <= k < d.posits().len() ==> restores(#[trigger] d.posits()[k], replayed.posits@[k])
                })
            },
    {
        if replayed.roles.len() == 0 && replayed.posits.len() == 0 && !replayed.has_required_codecs {
            Database::in_memory()
        } else {
            Database::restored(replayed)
        }
    }

    /// Whether the catalog holds a role with the canonical form of `name`.
    pub fn contains_role(&self, name: &str) -> (r: Result<bool, DatabaseError>)
        ensures
            r == Ok::<bool, DatabaseError>(role_named(self.roles(), nfc_text(name@)) is Some),
    {
        Ok(self.role_keeper.get(name).is_some())
    }

    /// The number of roles in the catalog, built-in roles included.
    pub fn role_count(&self) -> (r: Result<usize, DatabaseError>)
        ensures
            r == Ok::<usize, DatabaseError>(self.roles().len() as usize),
    {
        Ok(self.role_keeper.len())
    }
}

} // verus!
