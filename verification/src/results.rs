//! Result sets of the Traqula engine: finite sets of things with the set
//! operations that searches combine them with, and the posits a thing
//! takes part in.

use crate::construct::{appearance_keys, Database, Posit, Thing};
use crate::maintenance::{increasing, insert_sorted};
use crate::traqula::ResultSetMode;
use vstd::prelude::*;

verus! {

/// A finite set of things, kept in increasing order.
#[derive(Debug)]
pub struct ResultSet {
    things: Vec<Thing>,
}

/// Whether `t` is among the strictly increasing `things`.
fn holds(things: &Vec<Thing>, t: Thing) -> (b: bool)
    ensures
        b == things@.contains(t),
{
    let mut i: usize = 0;
    while i < things.len()
        invariant
            i <= things@.len(),
            forall|k: int| 0 <= k < i ==> things@[k] != t,
        decreases things@.len() - i,
    {
        if things[i] == t {
            return true;
        }
        i = i + 1;
    }
    false
}

impl ResultSet {
    /// The things of the set.
    pub closed spec fn members(&self) -> Set<Thing> {
        self.things@.to_set()
    }

    /// The things of the set in increasing order.
    pub closed spec fn sequence(&self) -> Seq<Thing> {
        self.things@
    }

    /// The sequence holds the members.
    pub proof fn sequence_holds_members(&self)
        ensures
            self.sequence().to_set() == self.members(),
    {
    }

    #[verifier::type_invariant]
    spec fn ordered(&self) -> bool {
        increasing(self.things@)
    }

    /// The empty set.
    pub fn new() -> (r: Self)
        ensures
            r.members() == Set::<Thing>::empty(),
    {
        let r = ResultSet { things: Vec::new() };
        assert(r.things@.to_set() =~= Set::<Thing>::empty());
        r
    }

    /// The number of things in the set.
    pub fn len(&self) -> (n: usize)
        ensures
            n == self.members().len(),
    {
        proof {
            use_type_invariant(self);
            lemma_increasing_set_len(self.things@);
        }
        self.things.len()
    }

    pub fn is_empty(&self) -> (b: bool)
        ensures
            b == (self.members() == Set::<Thing>::empty()),
    {
        proof {
            use_type_invariant(self);
            lemma_increasing_set_len(self.things@);
            if self.things@.len() > 0 {
                assert(self.members().contains(self.things@[0]));
            } else {
                assert(self.members() =~= Set::<Thing>::empty());
            }
        }
        self.things.len() == 0
    }

    /// Empty, one thing, or more.
    pub fn mode(&self) -> (m: ResultSetMode)
        ensures
            m == (if self.members().len() == 0 {
                ResultSetMode::Empty
            } else if self.members().len() == 1 {
                ResultSetMode::Thing
            } else {
                ResultSetMode::Multi
            }),
    {
        let n = self.len();
        if n == 0 {
            ResultSetMode::Empty
        } else if n == 1 {
            ResultSetMode::Thing
        } else {
            ResultSetMode::Multi
        }
    }

    /// Whether `t` is in the set.
    pub fn contains(&self, t: Thing) -> (b: bool)
        ensures
            b == self.members().contains(t),
    {
        holds(&self.things, t)
    }

    /// The things in increasing order.
    pub fn things(&self) -> (v: Vec<Thing>)
        ensures
            v@ == self.sequence(),
            v@.to_set() == self.members(),
            increasing(v@),
    {
        proof {
            use_type_invariant(self);
        }
        let mut v: Vec<Thing> = Vec::new();
        let mut i: usize = 0;
        while i < self.things.len()
            invariant
                i <= self.things@.len(),
                v@ == self.things@.take(i as int),
            decreases self.things@.len() - i,
        {
            v.push(self.things[i]);
            assert(self.things@.take(i + 1) =~= self.things@.take(i as int).push(self.things@[i as int]));
            i = i + 1;
        }
        assert(self.things@.take(self.things@.len() as int) =~= self.things@);
        v
    }

    /// Adds one thing.
    pub fn insert(&mut self, t: Thing)
        ensures
            final(self).members() == old(self).members().insert(t),
    {
        proof {
            use_type_invariant(&*self);
        }
        let mut things: Vec<Thing> = Vec::new();
        std::mem::swap(&mut things, &mut self.things);
        insert_sorted(&mut things, t);
        self.things = things;
    }

    /// Adds every thing of `more`.
    pub fn insert_many(&mut self, more: &[Thing])
        ensures
            final(self).members() == old(self).members().union(more@.to_set()),
    {
        let mut i: usize = 0;
        while i < more.len()
            invariant
                i <= more@.len(),
                self.members() == old(self).members().union(more@.take(i as int).to_set()),
            decreases more@.len() - i,
        {
            self.insert(more[i]);
            proof {
                let prefix = more@.take(i as int);
                let longer = more@.take(i + 1);
                assert(longer =~= prefix.push(more@[i as int]));
                assert(longer.to_set() =~= prefix.to_set().insert(more@[i as int])) by {
                    assert forall|x: Thing| longer.to_set().contains(x) <==> prefix.to_set().insert(more@[i as int]).contains(x) by {
                        if longer.contains(x) {
                            let k = choose|k: int| 0 <= k < longer.len() && longer[k] == x;
                            if k < prefix.len() {
                                assert(prefix[k] == x);
                            }
                        }
                        if prefix.contains(x) {
                            let k = choose|k: int| 0 <= k < prefix.len() && prefix[k] == x;
                            assert(longer[k] == x);
                        }
                        if x == more@[i as int] {
                            assert(longer[i as int] == x);
                        }
                    }
                }
                assert(self.members() =~= old(self).members().union(longer.to_set()));
            }
            i = i + 1;
        }
        assert(more@.take(more@.len() as int) =~= more@);
    }

    /// Keeps only the things also in `other`.
    pub fn intersect_with(&mut self, other: &ResultSet)
        ensures
            final(self).members() == old(self).members().intersect(other.members()),
    {
        proof {
            use_type_invariant(&*self);
        }
        let kept = self.filtered(other, true);
        self.things = kept;
    }

    /// Adds the things of `other`.
    pub fn union_with(&mut self, other: &ResultSet)
        ensures
            final(self).members() == old(self).members().union(other.members()),
    {
        self.insert_many(other.things.as_slice());
    }

    /// Removes the things in `other`.
    pub fn difference_with(&mut self, other: &ResultSet)
        ensures
            final(self).members() == old(self).members().difference(other.members()),
    {
        proof {
            use_type_invariant(&*self);
        }
        let kept = self.filtered(other, false);
        self.things = kept;
    }

    /// Keeps the things in exactly one of the two sets.
    pub fn symmetric_difference_with(&mut self, other: &ResultSet)
        ensures
            final(self).members() == old(self).members().difference(other.members()).union(
                other.members().difference(old(self).members()),
            ),
    {
        let only_other = other.filtered(self, false);
        self.difference_with(other);
        self.insert_many(only_other.as_slice());
    }

    /// The things of `self` that are in `other` (when `inside`) or not.
    fn filtered(&self, other: &ResultSet, inside: bool) -> (v: Vec<Thing>)
        ensures
            increasing(v@),
            v@.to_set() == (if inside {
                self.members().intersect(other.members())
            } else {
                self.members().difference(other.members())
            }),
    {
        proof {
            use_type_invariant(self);
        }
        let mut v: Vec<Thing> = Vec::new();
        let mut i: usize = 0;
        while i < self.things.len()
            invariant
                i <= self.things@.len(),
                increasing(self.things@),
                increasing(v@),
                forall|k: int| 0 <= k < v@.len() ==> exists|j: int| 0 <= j < i && #[trigger] v@[k] == self.things@[j],
                forall|t: Thing| #[trigger] v@.contains(t) <==> (exists|j: int|
                    0 <= j < i && self.things@[j] == t) && (other.members().contains(t) == inside),
            decreases self.things@.len() - i,
        {
            let t = self.things[i];
            if other.contains(t) == inside {
                let ghost before = v@;
                proof {
                    assert forall|k: int| 0 <= k < before.len() implies before[k] < t by {
                        let j = choose|j: int| 0 <= j < i && before[k] == self.things@[j];
                    }
                }
                v.push(t);
                proof {
                    assert forall|a: int, b: int| 0 <= a < b < v@.len() implies (#[trigger] v@[a]) < (#[trigger] v@[b]) by {
                        if b < before.len() {
                            assert(v@[a] == before[a] && v@[b] == before[b]);
                        } else {
                            assert(v@[a] == before[a]);
                        }
                    }
                    assert forall|k: int| 0 <= k < v@.len() implies exists|j: int| 0 <= j < i + 1 && #[trigger] v@[k] == self.things@[j] by {
                        if k < before.len() {
                            assert(v@[k] == before[k]);
                            let j = choose|j: int| 0 <= j < i && before[k] == self.things@[j];
                            assert(0 <= j < i + 1 && v@[k] == self.things@[j]);
                        } else {
                            assert(v@[k] == self.things@[i as int]);
                        }
                    }
                    assert forall|x: Thing| #[trigger] v@.contains(x) <==> (exists|j: int|
                        0 <= j < i + 1 && self.things@[j] == x) && (other.members().contains(x) == inside) by {
                        if v@.contains(x) {
                            let k = choose|k: int| 0 <= k < v@.len() && v@[k] == x;
                            if k < before.len() {
                                assert(before[k] == x);
                                assert(before.contains(x));
                            }
                        }
                        if (exists|j: int| 0 <= j < i + 1 && self.things@[j] == x) && (other.members().contains(x) == inside) {
                            let j = choose|j: int| 0 <= j < i + 1 && self.things@[j] == x;
                            if j < i {
                                assert(before.contains(x));
                                let k = choose|k: int| 0 <= k < before.len() && before[k] == x;
                                assert(v@[k] == x);
                            } else {
                                assert(v@[before.len() as int] == x);
                            }
                        }
                    }
                }
            } else {
                proof {
                    assert forall|x: Thing| #[trigger] v@.contains(x) <==> (exists|j: int|
                        0 <= j < i + 1 && self.things@[j] == x) && (other.members().contains(x) == inside) by {
                        if (exists|j: int| 0 <= j < i + 1 && self.things@[j] == x) && (other.members().contains(x) == inside) {
                            let j = choose|j: int| 0 <= j < i + 1 && self.things@[j] == x;
                            assert(j < i);
                        }
                    }
                    assert forall|k: int| 0 <= k < v@.len() implies exists|j: int| 0 <= j < i + 1 && #[trigger] v@[k] == self.things@[j] by {
                        let j = choose|j: int| 0 <= j < i && v@[k] == self.things@[j];
                        assert(0 <= j < i + 1);
                    }
                }
            }
            i = i + 1;
        }
        proof {
            let target = if inside {
                self.members().intersect(other.members())
            } else {
                self.members().difference(other.members())
            };
            assert forall|x: Thing| v@.to_set().contains(x) <==> target.contains(x) by {
                if target.contains(x) {
                    let j = choose|j: int| 0 <= j < self.things@.len() && self.things@[j] == x;
                }
            }
            assert(v@.to_set() =~= target);
        }
        v
    }
}

impl Default for ResultSet {
    fn default() -> (r: Self)
        ensures
            r.members() == Set::<Thing>::empty(),
    {
        ResultSet::new()
    }
}

/// The length of the set of a strictly increasing sequence is its length.
proof fn lemma_increasing_set_len(s: Seq<Thing>)
    requires
        increasing(s),
    ensures
        s.to_set().len() == s.len(),
{
    assert(s.no_duplicates()) by {
        assert forall|i: int, j: int| 0 <= i < s.len() && 0 <= j < s.len() && i != j implies s[i] != s[j] by {
            if i < j {
                assert(s[i] < s[j]);
            } else {
                assert(s[j] < s[i]);
            }
        }
    }
    s.unique_seq_to_set();
}

/// The identities of the posits whose appearances include `thing`.
pub open spec fn posits_with_thing(posits: Seq<Posit>, thing: Thing) -> Set<Thing> {
    Set::new(
        |p: Thing|
            exists|i: int, k: int|
                0 <= i < posits.len() && 0 <= k < posits[i].members().len() && posits[i].identity() == p
                    && #[trigger] appearance_keys(posits[i].members())[k].1 == thing,
    )
}

/// The posits in which `thing` appears, by their identities.
pub fn posits_involving_thing(database: &Database, thing: Thing) -> (r: ResultSet)
    ensures
        r.members() == posits_with_thing(database.posits(), thing),
{
    let keeper = database.posit_keeper();
    let ghost ps = database.posits();
    let n = keeper.len();
    let mut r = ResultSet::new();
    let mut i: usize = 0;
    while i < n
        invariant
            ps == database.posits(),
            ps == keeper.posits(),
            n == ps.len(),
            i <= n,
            r.members() == posits_with_thing(ps.take(i as int), thing),
        decreases n - i,
    {
        let posit = keeper.get(i);
        let set = posit.appearance_set();
        let members = set.appearances();
        let mut found = false;
        let mut k: usize = 0;
        while k < members.len()
            invariant
                k <= members@.len(),
                members@ == posit.members(),
                found == exists|q: int| 0 <= q < k && #[trigger] appearance_keys(posit.members())[q].1 == thing,
            decreases members@.len() - k,
        {
            if members[k].thing() == thing {
                assert(appearance_keys(posit.members())[k as int].1 == thing);
                found = true;
            }
            k = k + 1;
        }
        let ghost before = r.members();
        if found {
            r.insert(posit.posit());
        }
        proof {
            let next = ps.take(i + 1);
            assert(ps.take(i + 1)[i as int] == ps[i as int]);
            assert(r.members() =~= posits_with_thing(next, thing)) by {
                assert forall|p: Thing| r.members().contains(p) <==> posits_with_thing(next, thing).contains(p) by {
                    if posits_with_thing(next, thing).contains(p) {
                        let (a, b) = choose|a: int, b: int|
                            0 <= a < next.len() && 0 <= b < next[a].members().len() && next[a].identity() == p
                                && #[trigger] appearance_keys(next[a].members())[b].1 == thing;
                        if a < i {
                            assert(ps.take(i as int)[a] == next[a]);
                            assert(posits_with_thing(ps.take(i as int), thing).contains(p));
                        }
                    }
                    if before.contains(p) {
                        let (a, b) = choose|a: int, b: int|
                            0 <= a < ps.take(i as int).len() && 0 <= b < ps.take(i as int)[a].members().len()
                                && ps.take(i as int)[a].identity() == p
                                && #[trigger] appearance_keys(ps.take(i as int)[a].members())[b].1 == thing;
                        assert(next[a] == ps.take(i as int)[a]);
                    }
                    if found && p == posit.identity() {
                        let q = choose|q: int| 0 <= q < k && #[trigger] appearance_keys(posit.members())[q].1 == thing;
                        assert(next[i as int] == *posit);
                    }
                }
            }
        }
        i = i + 1;
    }
    assert(ps.take(n as int) =~= ps);
    r
}

} // verus!
