//! The expansion of an `add posit` command: the candidate things of each
//! appearance, taken in order of ascending cardinality, and every
//! combination of them, in the order in which the posits are created.

use crate::construct::{
    appearance_keys, generates, keys_ordered, lemma_appearance_keys_multiset, lemma_ordered_keys, posit_plan,
    posit_request_parts, posit_requests, role_named, Appearance, AppearanceSet, Database, Posit, Role, Thing,
};
use crate::datatype::Time;
use crate::error::DatabaseError;
use crate::literal::LiteralValue;
use crate::maintenance::increasing;
use crate::results::ResultSet;
use crate::unicode::nfc_text;
use vstd::prelude::*;

verus! {

broadcast use vstd::seq_lib::group_seq_properties;

// ---------------------------------------------------------------------------
// Combinations
// ---------------------------------------------------------------------------

/// Each tuple of `ts` extended by each thing of `l`, the thing varying
/// fastest.
pub open spec fn extend_tuples(ts: Seq<Seq<Thing>>, l: Seq<Thing>) -> Seq<Seq<Thing>>
    decreases ts.len(),
{
    if ts.len() == 0 {
        Seq::empty()
    } else {
        extend_tuples(ts.drop_last(), l) + l.map_values(|x: Thing| ts.last().push(x))
    }
}

/// Every combination of one thing from each list, the last list varying
/// fastest.
pub open spec fn tuples(lists: Seq<Seq<Thing>>) -> Seq<Seq<Thing>>
    decreases lists.len(),
{
    if lists.len() == 0 {
        seq![Seq::<Thing>::empty()]
    } else {
        extend_tuples(tuples(lists.drop_last()), lists.last())
    }
}

/// The views of a vector of vectors.
pub open spec fn lists_view(v: Seq<Vec<Thing>>) -> Seq<Seq<Thing>> {
    v.map_values(|x: Vec<Thing>| x@)
}

/// Every combination of one thing from each list, the last list varying
/// fastest.
pub fn cartesian_tuples(lists: &Vec<Vec<Thing>>) -> (r: Vec<Vec<Thing>>)
    ensures
        lists_view(r@) == tuples(lists_view(lists@)),
{
    let ghost all = lists_view(lists@);
    let mut cur: Vec<Vec<Thing>> = Vec::new();
    cur.push(Vec::new());
    assert(lists_view(cur@) =~= tuples(all.take(0)));
    let mut k: usize = 0;
    while k < lists.len()
        invariant
            k <= lists@.len(),
            all == lists_view(lists@),
            lists_view(cur@) == tuples(all.take(k as int)),
        decreases lists@.len() - k,
    {
        let list = &lists[k];
        let ghost ts = lists_view(cur@);
        let ghost l = list@;
        assert(all[k as int] == l);
        let mut next: Vec<Vec<Thing>> = Vec::new();
        let mut a: usize = 0;
        assert(lists_view(next@) =~= extend_tuples(ts.take(0), l));
        while a < cur.len()
            invariant
                a <= cur@.len(),
                ts == lists_view(cur@),
                l == list@,
                lists_view(next@) == extend_tuples(ts.take(a as int), l),
            decreases cur@.len() - a,
        {
            let ghost before = lists_view(next@);
            let mut b: usize = 0;
            while b < list.len()
                invariant
                    a < cur@.len(),
                    b <= list@.len(),
                    ts == lists_view(cur@),
                    l == list@,
                    lists_view(next@) == before + l.take(b as int).map_values(|x: Thing| ts[a as int].push(x)),
                decreases list@.len() - b,
            {
                let mut t = vstd::slice::slice_to_vec(cur[a].as_slice());
                t.push(list[b]);
                let ghost was = lists_view(next@);
                next.push(t);
                proof {
                    assert(ts[a as int] == cur@[a as int]@);
                    assert(lists_view(next@) =~= was.push(ts[a as int].push(l[b as int])));
                    assert(l.take(b + 1).map_values(|x: Thing| ts[a as int].push(x)) =~= l.take(b as int).map_values(
                        |x: Thing| ts[a as int].push(x),
                    ).push(ts[a as int].push(l[b as int])));
                    assert(lists_view(next@) =~= before + l.take(b + 1).map_values(|x: Thing| ts[a as int].push(x)));
                }
                b = b + 1;
            }
            proof {
                assert(l.take(l.len() as int) =~= l);
                assert(ts.take(a + 1).drop_last() =~= ts.take(a as int));
                assert(ts.take(a + 1).last() == ts[a as int]);
            }
            a = a + 1;
        }
        proof {
            assert(ts.take(ts.len() as int) =~= ts);
            assert(all.take(k + 1).drop_last() =~= all.take(k as int));
            assert(all.take(k + 1).last() == l);
        }
        cur = next;
        k = k + 1;
    }
    assert(all.take(all.len() as int) =~= all);
    cur
}

// ---------------------------------------------------------------------------
// Order of appearances
// ---------------------------------------------------------------------------

/// Position `a` comes before position `b`: fewer candidates, or as many and
/// an earlier position.
pub open spec fn fewer_first(lens: Seq<usize>, a: int, b: int) -> bool {
    lens[a] < lens[b] || (lens[a] == lens[b] && a < b)
}

/// `order` lists the positions `0..lens.len()` once each, those with fewer
/// candidates first and, among equals, in their own order.
pub open spec fn cardinality_order(lens: Seq<usize>, order: Seq<usize>) -> bool {
    &&& order.len() == lens.len()
    &&& forall|i: int| 0 <= i < order.len() ==> #[trigger] order[i] < lens.len()
    &&& forall|i: int, j: int| 0 <= i < j < order.len() ==> fewer_first(lens, #[trigger] order[i] as int, #[trigger] order[j] as int)
}

/// The positions in ascending order of their number of candidates, a stable
/// order among equals.
pub fn order_by_cardinality(lens: &Vec<usize>) -> (order: Vec<usize>)
    ensures
        cardinality_order(lens@, order@),
{
    let mut order: Vec<usize> = Vec::new();
    let mut j: usize = 0;
    while j < lens.len()
        invariant
            j <= lens@.len(),
            order@.len() == j,
            forall|i: int| 0 <= i < order@.len() ==> #[trigger] order@[i] < j,
            forall|i: int, k: int| 0 <= i < k < order@.len() ==> fewer_first(lens@, #[trigger] order@[i] as int, #[trigger] order@[k] as int),
        decreases lens@.len() - j,
    {
        let mut p: usize = 0;
        while p < order.len() && lens[order[p]] <= lens[j]
            invariant
                p <= order@.len(),
                forall|i: int| 0 <= i < order@.len() ==> #[trigger] order@[i] < j,
                j < lens@.len(),
                forall|i: int| 0 <= i < p ==> lens@[#[trigger] order@[i] as int] <= lens@[j as int],
            decreases order@.len() - p,
        {
            p = p + 1;
        }
        let ghost before = order@;
        order.insert(p, j);
        proof {
            assert(order@ == before.insert(p as int, j));
            assert forall|i: int, k: int| 0 <= i < k < order@.len() implies fewer_first(lens@, #[trigger] order@[i] as int, #[trigger] order@[k] as int) by {
                if k < p {
                    assert(order@[i] == before[i] && order@[k] == before[k]);
                } else if k == p {
                    assert(order@[i] == before[i]);
                    assert(lens@[before[i] as int] <= lens@[j as int]);
                } else if i < p {
                    assert(order@[i] == before[i] && order@[k] == before[k - 1]);
                } else if i == p {
                    assert(order@[k] == before[k - 1]);
                    assert(lens@[before[p as int] as int] > lens@[j as int]);
                    if k - 1 > p {
                        assert(fewer_first(lens@, before[p as int] as int, before[k - 1] as int));
                    }
                } else {
                    assert(order@[i] == before[i - 1] && order@[k] == before[k - 1]);
                }
            }
            assert forall|i: int| 0 <= i < order@.len() implies #[trigger] order@[i] < j + 1 by {
                if i < p {
                    assert(order@[i] == before[i]);
                } else if i > p {
                    assert(order@[i] == before[i - 1]);
                }
            }
        }
        j = j + 1;
    }
    order
}

// ---------------------------------------------------------------------------
// Variable bindings
// ---------------------------------------------------------------------------

/// What each variable of a script stands for.
pub type BindingMap = Map<Seq<char>, Set<Thing>>;

/// `b` with `t` added to the things of `name`.
pub open spec fn bind_thing(b: BindingMap, name: Seq<char>, t: Thing) -> BindingMap {
    b.insert(name, if b.contains_key(name) { b[name].insert(t) } else { Set::<Thing>::empty().insert(t) })
}

/// Where the entry of `name` stands, the last one counting.
pub open spec fn last_entry(names: Seq<Seq<char>>, name: Seq<char>) -> Option<int>
    decreases names.len(),
{
    if names.len() == 0 {
        None
    } else if names.last() == name {
        Some(names.len() - 1)
    } else {
        last_entry(names.drop_last(), name)
    }
}

proof fn lemma_last_entry(names: Seq<Seq<char>>, name: Seq<char>)
    ensures
        match last_entry(names, name) {
            Some(i) => 0 <= i < names.len() && names[i] == name,
            None => forall|i: int| 0 <= i < names.len() ==> names[i] != name,
        },
    decreases names.len(),
{
    if names.len() > 0 && names.last() != name {
        lemma_last_entry(names.drop_last(), name);
        match last_entry(names.drop_last(), name) {
            Some(i) => {
                assert(names.drop_last()[i] == names[i]);
            },
            None => {
                assert forall|i: int| 0 <= i < names.len() implies names[i] != name by {
                    if i < names.len() - 1 {
                        assert(names.drop_last()[i] == names[i]);
                    }
                }
            },
        }
    }
}

/// The variables bound so far and the things each stands for.
#[derive(Debug)]
pub struct Bindings {
    entries: Vec<(String, ResultSet)>,
}

impl Bindings {
    pub closed spec fn names_view(&self) -> Seq<Seq<char>> {
        self.entries@.map_values(|e: (String, ResultSet)| e.0@)
    }

    /// Each bound variable and its things.
    pub closed spec fn map(&self) -> BindingMap {
        Map::new(
            |k: Seq<char>| last_entry(self.names_view(), k) is Some,
            |k: Seq<char>| self.entries@[last_entry(self.names_view(), k)->0].1.members(),
        )
    }

    /// No variable bound.
    pub fn new() -> (b: Self)
        ensures
            b.map() == Map::<Seq<char>, Set<Thing>>::empty(),
    {
        let b = Bindings { entries: Vec::new() };
        assert(b.map() =~= Map::<Seq<char>, Set<Thing>>::empty());
        b
    }

    fn find(&self, name: &str) -> (r: Option<usize>)
        ensures
            r matches Some(i) ==> last_entry(self.names_view(), name@) == Some(i as int) && i < self.entries@.len(),
            r is None ==> last_entry(self.names_view(), name@) is None,
    {
        let ghost names = self.names_view();
        let mut i: usize = self.entries.len();
        while i > 0
            invariant
                i <= self.entries@.len(),
                names == self.names_view(),
                last_entry(names, name@) == last_entry(names.take(i as int), name@),
            decreases i,
        {
            let j = i - 1;
            assert(names.take(i as int).last() == self.entries@[j as int].0@);
            if crate::terrain::same_text(self.entries[j].0.as_str(), name) {
                return Some(j);
            }
            assert(names.take(i as int).drop_last() =~= names.take(j as int));
            i = j;
        }
        assert(names.take(0) =~= Seq::<Seq<char>>::empty());
        None
    }

    /// The things `name` stands for, in increasing order, if it is bound.
    pub fn lookup(&self, name: &str) -> (r: Option<Vec<Thing>>)
        ensures
            r is Some <==> self.map().contains_key(name@),
            r matches Some(v) ==> v@.to_set() == self.map()[name@] && crate::maintenance::increasing(v@),
    {
        match self.find(name) {
            Some(i) => Some(self.entries[i].1.things()),
            None => None,
        }
    }

    /// Makes `name` a variable standing for no thing yet, unless it is
    /// bound already.
    pub fn declare(&mut self, name: &str)
        ensures
            final(self).map() == if old(self).map().contains_key(name@) {
                old(self).map()
            } else {
                old(self).map().insert(name@, Set::<Thing>::empty())
            },
    {
        let ghost old_map = self.map();
        let ghost before = self.names_view();
        match self.find(name) {
            Some(i) => {},
            None => {
                let set = ResultSet::new();
                self.entries.push((crate::text::text(name), set));
                proof {
                    assert(self.names_view() =~= before.push(name@));
                    assert(self.names_view().drop_last() =~= before);
                    assert forall|k: Seq<char>| k != name@ implies #[trigger] last_entry(self.names_view(), k) == last_entry(before, k) by {}
                    assert(self.map() =~= old_map.insert(name@, Set::<Thing>::empty())) by {
                        assert forall|k: Seq<char>| self.map().contains_key(k) implies self.map()[k] == old_map.insert(name@, Set::<Thing>::empty())[k] by {
                            if k != name@ {
                                lemma_last_entry(before, k);
                                let j = last_entry(before, k)->0;
                                assert(self.entries@[j] == old(self).entries@[j]);
                            }
                        }
                    }
                }
            },
        }
    }

    /// Adds `t` to the things `name` stands for.
    pub fn bind(&mut self, name: &str, t: Thing)
        ensures
            final(self).map() == bind_thing(old(self).map(), name@, t),
    {
        let ghost old_map = self.map();
        let ghost before = self.names_view();
        match self.find(name) {
            Some(i) => {
                let mut set = ResultSet::new();
                set.union_with(&self.entries[i].1);
                set.insert(t);
                proof {
                    lemma_last_entry(before, name@);
                }
                self.entries.set(i, (crate::text::text(name), set));
                proof {
                    assert(self.names_view() =~= before);
                    assert(self.map() =~= bind_thing(old_map, name@, t)) by {
                        assert forall|k: Seq<char>| self.map().contains_key(k) implies self.map()[k] == bind_thing(old_map, name@, t)[k] by {
                            lemma_last_entry(before, k);
                            if k != name@ {
                                let j = last_entry(before, k)->0;
                                assert(j != i);
                                assert(self.entries@[j] == old(self).entries@[j]);
                            }
                        }
                    }
                }
            },
            None => {
                let mut set = ResultSet::new();
                set.insert(t);
                self.entries.push((crate::text::text(name), set));
                proof {
                    assert(self.names_view() =~= before.push(name@));
                    assert(self.names_view().drop_last() =~= before);
                    assert forall|k: Seq<char>| k != name@ implies #[trigger] last_entry(self.names_view(), k) == last_entry(before, k) by {}
                    assert(self.map() =~= bind_thing(old_map, name@, t)) by {
                        assert forall|k: Seq<char>| self.map().contains_key(k) implies self.map()[k] == bind_thing(old_map, name@, t)[k] by {
                            if k != name@ {
                                lemma_last_entry(before, k);
                                let j = last_entry(before, k)->0;
                                assert(self.entries@[j] == old(self).entries@[j]);
                            }
                        }
                    }
                }
            },
        }
    }
}

// ---------------------------------------------------------------------------
// The `add posit` command
// ---------------------------------------------------------------------------

/// Whether an appearance brings a new thing (`+x`) or recalls the things a
/// variable stands for (`?x`).
#[derive(Debug, Clone, Copy, PartialEq, Eq, Structural)]
pub enum TermKind {
    Insert,
    Recall,
}

/// One appearance of a posit structure: a variable in a role.
#[derive(Debug)]
pub struct AppearanceTerm {
    pub kind: TermKind,
    pub variable: String,
    pub role: String,
}

/// One posit structure of an `add posit` command: its appearances, value
/// and time (absent where the text gave none that reads), and the variable
/// that the created posits are bound to, if any.
#[derive(Debug)]
pub struct PositStructure {
    pub variable: Option<String>,
    pub appearances: Vec<AppearanceTerm>,
    pub value: Option<LiteralValue>,
    pub time: Option<Time>,
}

/// An `add posit` command.
#[derive(Debug)]
pub struct AddPositCommand {
    pub structures: Vec<PositStructure>,
}

/// An appearance: whether it inserts, its variable and its role name.
pub open spec fn term_view(t: AppearanceTerm) -> (bool, Seq<char>, Seq<char>) {
    (t.kind == TermKind::Insert, t.variable@, t.role@)
}

pub open spec fn terms_view(ts: Seq<AppearanceTerm>) -> Seq<(bool, Seq<char>, Seq<char>)> {
    ts.map_values(|t: AppearanceTerm| term_view(t))
}

/// The bindings and the generator bound after the inserting appearances
/// each take a fresh thing, in order.
pub open spec fn inserted(terms: Seq<(bool, Seq<char>, Seq<char>)>, b: BindingMap, g: nat) -> (BindingMap, nat)
    decreases terms.len(),
{
    if terms.len() == 0 {
        (b, g)
    } else {
        let (b1, g1) = inserted(terms.drop_last(), b, g);
        if terms.last().0 {
            (bind_thing(b1, terms.last().1, (g1 + 1) as Thing), g1 + 1)
        } else {
            (b1, g1)
        }
    }
}

/// How many appearances use the variable `v`.
pub open spec fn count_var(terms: Seq<(bool, Seq<char>, Seq<char>)>, v: Seq<char>) -> nat
    decreases terms.len(),
{
    if terms.len() == 0 {
        0
    } else {
        count_var(terms.drop_last(), v) + if terms.last().1 == v { 1nat } else { 0nat }
    }
}

/// `q` repeated `m` times.
pub open spec fn repeat(q: Seq<Thing>, m: nat) -> Seq<Thing>
    decreases m,
{
    if m == 0 { Seq::empty() } else { repeat(q, (m - 1) as nat) + q }
}

/// The increasing enumeration of a finite set of things.
pub open spec fn increasing_of(s: Set<Thing>) -> Seq<Thing> {
    choose|q: Seq<Thing>| increasing(q) && q.to_set() == s
}

/// The candidates of each appearance: the things of its variable in
/// increasing order, once for each appearance of the variable in the
/// structure.
pub open spec fn candidate_lists(terms: Seq<(bool, Seq<char>, Seq<char>)>, b: BindingMap) -> Seq<Seq<Thing>> {
    Seq::new(terms.len(), |k: int| repeat(increasing_of(b[terms[k].1]), count_var(terms, terms[k].1)))
}

pub open spec fn list_lengths(lists: Seq<Seq<Thing>>) -> Seq<usize> {
    lists.map_values(|l: Seq<Thing>| l.len() as usize)
}

/// The (role, thing) pairs of one combination, each role found by name.
pub open spec fn tuple_pairs(roles: Seq<Role>, names: Seq<Seq<char>>, tuple: Seq<Thing>) -> Seq<(Thing, Thing)> {
    Seq::new(tuple.len(), |i: int| (role_named(roles, nfc_text(names[i]))->0.identity(), tuple[i]))
}

/// `p` is the posit request of the pairs, value and time.
pub open spec fn request_of(p: Posit, pairs: Seq<(Thing, Thing)>, value: LiteralValue, time: Time) -> bool {
    &&& keys_ordered(appearance_keys(p.members()))
    &&& appearance_keys(p.members()).to_multiset() == pairs.to_multiset()
    &&& p.value_token() == value.token_spec()
    &&& p.value_family() == value.family_spec()
    &&& p.time_spec() == time
}

/// A posit structure: the variable it binds, its appearances, value and time.
pub open spec fn structure_view(st: PositStructure) -> (
    Option<Seq<char>>,
    Seq<(bool, Seq<char>, Seq<char>)>,
    Option<LiteralValue>,
    Option<Time>,
) {
    (
        match st.variable {
            Some(v) => Some(v@),
            None => None,
        },
        terms_view(st.appearances@),
        st.value,
        st.time,
    )
}

/// The requests of a structure under the bindings `b` (its inserts made),
/// its appearances taken in the cardinality order `order`: one for each
/// combination of candidates, the last appearance varying fastest.
pub open spec fn structure_requests(
    terms: Seq<(bool, Seq<char>, Seq<char>)>,
    value: LiteralValue,
    time: Time,
    roles: Seq<Role>,
    b: BindingMap,
    order: Seq<usize>,
    reqs: Seq<Posit>,
) -> bool {
    let lists = candidate_lists(terms, b);
    let ts = tuples(order.map_values(|i: usize| lists[i as int]));
    let names = order.map_values(|i: usize| terms[i as int].2);
    &&& reqs.len() == ts.len()
    &&& forall|j: int| 0 <= j < ts.len() ==> request_of(#[trigger] reqs[j], tuple_pairs(roles, names, ts[j]), value, time)
}

/// What one posit structure does: its inserts take fresh things, taking the
/// bindings from `b0` to `b1` and the generator bound from `g0` to `g1`, and
/// it asks for the posits `reqs`.
pub open spec fn structure_outcome(
    sv: (Option<Seq<char>>, Seq<(bool, Seq<char>, Seq<char>)>, Option<LiteralValue>, Option<Time>),
    roles: Seq<Role>,
    b0: BindingMap,
    g0: nat,
    b1: BindingMap,
    g1: nat,
    reqs: Seq<Posit>,
) -> bool {
    let (bi, gi) = inserted(sv.1, b0, g0);
    &&& b1 == bi
    &&& g1 == gi
    &&& sv.2 is Some
    &&& sv.3 is Some
    &&& forall|k: int| 0 <= k < sv.1.len() ==> bi.contains_key(#[trigger] sv.1[k].1)
    &&& exists|order: Seq<usize>|
        cardinality_order(list_lengths(candidate_lists(sv.1, bi)), order) && structure_requests(
            sv.1,
            sv.2->0,
            sv.3->0,
            roles,
            bi,
            order,
            reqs,
        )
}

/// The role names of the appearances.
pub open spec fn role_names(terms: Seq<(bool, Seq<char>, Seq<char>)>) -> Seq<Seq<char>> {
    terms.map_values(|t: (bool, Seq<char>, Seq<char>)| t.2)
}

/// A posit structure goes through from the bindings `b` and the generator
/// bound `g`: the generator has a fresh thing for each inserting appearance,
/// every variable is bound once the inserts are made, where every appearance
/// has a candidate its role names are those of kept roles of distinct
/// identities, and the structure has a value and a time.
pub open spec fn structure_admits(
    sv: (Option<Seq<char>>, Seq<(bool, Seq<char>, Seq<char>)>, Option<LiteralValue>, Option<Time>),
    roles: Seq<Role>,
    b: BindingMap,
    g: nat,
) -> bool {
    let (bi, gi) = inserted(sv.1, b, g);
    &&& gi <= u64::MAX
    &&& forall|k: int| 0 <= k < sv.1.len() ==> bi.contains_key(#[trigger] sv.1[k].1)
    &&& (forall|k: int| 0 <= k < sv.1.len() ==> #[trigger] candidate_lists(sv.1, bi)[k].len() > 0) ==> names_resolve(
        roles,
        role_names(sv.1),
    )
    &&& sv.2 is Some
    &&& sv.3 is Some
}

// --- helpers ---------------------------------------------------------------

/// Extending gives combinations only where there are tuples and things.
proof fn lemma_extend_nonempty(ts: Seq<Seq<Thing>>, l: Seq<Thing>)
    ensures
        extend_tuples(ts, l).len() > 0 ==> ts.len() > 0 && l.len() > 0,
    decreases ts.len(),
{
    if ts.len() > 0 {
        lemma_extend_nonempty(ts.drop_last(), l);
    }
}

/// There is a combination only where every list has a thing.
proof fn lemma_tuples_nonempty(ls: Seq<Seq<Thing>>)
    ensures
        tuples(ls).len() > 0 ==> forall|i: int| 0 <= i < ls.len() ==> #[trigger] ls[i].len() > 0,
    decreases ls.len(),
{
    if ls.len() > 0 {
        lemma_tuples_nonempty(ls.drop_last());
        lemma_extend_nonempty(tuples(ls.drop_last()), ls.last());
        if tuples(ls).len() > 0 {
            assert forall|i: int| 0 <= i < ls.len() implies #[trigger] ls[i].len() > 0 by {
                if i < ls.len() - 1 {
                    assert(ls[i] == ls.drop_last()[i]);
                }
            }
        }
    }
}

/// A cardinality order lists every position.
proof fn lemma_order_covers(lens: Seq<usize>, order: Seq<usize>, k: int)
    requires
        cardinality_order(lens, order),
        0 <= k < lens.len(),
    ensures
        exists|i: int| 0 <= i < order.len() && order[i] == k,
{
    let s = order.map_values(|x: usize| x as int);
    assert(s.no_duplicates()) by {
        assert forall|i: int, j: int| 0 <= i < s.len() && 0 <= j < s.len() && i != j implies s[i] != s[j] by {
            if i < j {
                assert(fewer_first(lens, order[i] as int, order[j] as int));
            } else {
                assert(fewer_first(lens, order[j] as int, order[i] as int));
            }
        }
    }
    s.unique_seq_to_set();
    vstd::set_lib::lemma_int_range(0, lens.len() as int);
    let full = vstd::set_lib::set_int_range(0, lens.len() as int);
    assert(s.to_set().subset_of(full)) by {
        assert forall|x: int| s.to_set().contains(x) implies full.contains(x) by {
            assert(s.contains(x));
            let i = choose|i: int| 0 <= i < s.len() && s[i] == x;
            assert(order[i] < lens.len());
        }
    }
    vstd::seq_lib::seq_to_set_is_finite(s);
    vstd::set_lib::lemma_subset_equality(s.to_set(), full);
    assert(full.contains(k));
    assert(s.to_set().contains(k));
    assert(s.contains(k));
    let i = choose|i: int| 0 <= i < s.len() && s[i] == k;
    assert(order[i] == k);
}

/// The generator bound only grows as more appearances insert.
proof fn lemma_inserted_grows(terms: Seq<(bool, Seq<char>, Seq<char>)>, b: BindingMap, g: nat, j: int)
    requires
        0 <= j <= terms.len(),
    ensures
        inserted(terms.take(j), b, g).1 <= inserted(terms, b, g).1,
    decreases terms.len(),
{
    if j == terms.len() {
        assert(terms.take(j) =~= terms);
    } else {
        assert(terms.take(j) =~= terms.drop_last().take(j));
        lemma_inserted_grows(terms.drop_last(), b, g, j);
    }
}

pub proof fn lemma_increasing_of(q: Seq<Thing>)
    requires
        increasing(q),
    ensures
        increasing_of(q.to_set()) == q,
{
    let r = increasing_of(q.to_set());
    assert(increasing(r) && r.to_set() == q.to_set());
    let before = |a: Thing, b: Thing| a < b;
    assert(crate::frames::sorted_by(q, before)) by {
        assert forall|a: int, b: int| 0 <= a < b < q.len() implies before(#[trigger] q[a], #[trigger] q[b]) by {}
    }
    assert(crate::frames::sorted_by(r, before)) by {
        assert forall|a: int, b: int| 0 <= a < b < r.len() implies before(#[trigger] r[a], #[trigger] r[b]) by {}
    }
    crate::frames::lemma_sorted_by_unique(r, q, before);
}

/// Takes a fresh thing for each inserting appearance and binds it.
fn insert_things(db: &mut Database, terms: &Vec<AppearanceTerm>, bindings: &mut Bindings) -> (r: Result<(), DatabaseError>)
    ensures
        final(db).posits() == old(db).posits(),
        final(db).roles() == old(db).roles(),
        r is Ok ==> (final(bindings).map(), final(db).generator().bound() as nat) == inserted(
            terms_view(terms@),
            old(bindings).map(),
            old(db).generator().bound() as nat,
        ),
        inserted(terms_view(terms@), old(bindings).map(), old(db).generator().bound() as nat).1 <= u64::MAX ==> r is Ok,
{
    let ghost tv = terms_view(terms@);
    let ghost fits = inserted(tv, old(bindings).map(), old(db).generator().bound() as nat).1 <= u64::MAX;
    let mut k: usize = 0;
    while k < terms.len()
        invariant
            k <= terms@.len(),
            tv == terms_view(terms@),
            db.posits() == old(db).posits(),
            db.roles() == old(db).roles(),
            fits == (inserted(tv, old(bindings).map(), old(db).generator().bound() as nat).1 <= u64::MAX),
            (bindings.map(), db.generator().bound() as nat) == inserted(tv.take(k as int), old(bindings).map(), old(db).generator().bound() as nat),
        decreases terms@.len() - k,
    {
        proof {
            assert(tv.take(k + 1).drop_last() =~= tv.take(k as int));
            assert(tv.take(k + 1).last() == term_view(terms@[k as int]));
            lemma_inserted_grows(tv, old(bindings).map(), old(db).generator().bound() as nat, k + 1);
        }
        if terms[k].kind == TermKind::Insert {
            assert(fits ==> db.generator().bound() < u64::MAX);
            let t = db.create_thing()?;
            bindings.bind(terms[k].variable.as_str(), t);
        }
        k = k + 1;
    }
    assert(tv.take(terms@.len() as int) =~= tv);
    Ok(())
}

/// The candidates of each appearance; fails on a variable bound nowhere.
#[verifier::spinoff_prover]
#[verifier::rlimit(40)]
fn candidates(terms: &Vec<AppearanceTerm>, bindings: &Bindings) -> (r: Result<Vec<Vec<Thing>>, DatabaseError>)
    ensures
        r is Ok <==> forall|k: int| 0 <= k < terms@.len() ==> bindings.map().contains_key(#[trigger] terms@[k].variable@),
        r matches Ok(ls) ==> lists_view(ls@) == candidate_lists(terms_view(terms@), bindings.map()),
        r matches Err(e) ==> e is UnknownVariable,
{
    let ghost tv = terms_view(terms@);
    let ghost b = bindings.map();
    let mut out: Vec<Vec<Thing>> = Vec::new();
    let mut k: usize = 0;
    while k < terms.len()
        invariant
            k <= terms@.len(),
            tv == terms_view(terms@),
            b == bindings.map(),
            out@.len() == k,
            forall|j: int| 0 <= j < k ==> b.contains_key(#[trigger] terms@[j].variable@),
            forall|j: int| 0 <= j < k ==> #[trigger] out@[j]@ == candidate_lists(tv, b)[j],
        decreases terms@.len() - k,
    {
        let var = terms[k].variable.as_str();
        let seq = match bindings.lookup(var) {
            Some(v) => v,
            None => {
                return Err(DatabaseError::UnknownVariable(crate::text::text(var)));
            },
        };
        proof {
            lemma_increasing_of(seq@);
        }
        let mut count: usize = 0;
        let mut q: usize = 0;
        while q < terms.len()
            invariant
                q <= terms@.len(),
                k < terms@.len(),
                tv == terms_view(terms@),
                count as nat == count_var(tv.take(q as int), terms@[k as int].variable@),
                count <= q,
                var@ == terms@[k as int].variable@,
            decreases terms@.len() - q,
        {
            proof {
                assert(tv.take(q + 1).drop_last() =~= tv.take(q as int));
                assert(tv.take(q + 1).last() == term_view(terms@[q as int]));
            }
            if crate::terrain::same_text(terms[q].variable.as_str(), var) {
                count = count + 1;
            }
            q = q + 1;
        }
        assert(tv.take(terms@.len() as int) =~= tv);
        let mut list: Vec<Thing> = Vec::new();
        let mut m: usize = 0;
        while m < count
            invariant
                m <= count,
                list@ == repeat(seq@, m as nat),
            decreases count - m,
        {
            let mut x: usize = 0;
            let ghost start = list@;
            while x < seq.len()
                invariant
                    x <= seq@.len(),
                    list@ == start + seq@.take(x as int),
                decreases seq@.len() - x,
            {
                list.push(seq[x]);
                assert(seq@.take(x + 1) =~= seq@.take(x as int).push(seq@[x as int]));
                x = x + 1;
            }
            assert(seq@.take(seq@.len() as int) =~= seq@);
            m = m + 1;
        }
        proof {
            assert(tv[k as int].1 == terms@[k as int].variable@);
            assert(list@ == candidate_lists(tv, b)[k as int]);
        }
        out.push(list);
        k = k + 1;
    }
    assert(lists_view(out@) =~= candidate_lists(tv, b));
    Ok(out)
}

/// An appearance set holds exactly the pairs, in role order.
pub open spec fn set_of(s: AppearanceSet, pairs: Seq<(Thing, Thing)>) -> bool {
    keys_ordered(appearance_keys(s.members())) && appearance_keys(s.members()).to_multiset() == pairs.to_multiset()
}

/// Each name is that of a kept role, and no two of them name roles of one
/// identity.
pub open spec fn names_resolve(roles: Seq<Role>, names: Seq<Seq<char>>) -> bool {
    &&& forall|i: int| 0 <= i < names.len() ==> role_named(roles, nfc_text(#[trigger] names[i])) is Some
    &&& forall|i: int, j: int|
        0 <= i < names.len() && 0 <= j < names.len() && i != j ==> role_named(roles, nfc_text(#[trigger] names[i]))->0.identity()
            != role_named(roles, nfc_text(#[trigger] names[j]))->0.identity()
}

/// The appearance set of each combination, each role found by name.
fn appearance_sets(db: &Database, names: &Vec<String>, combos: &Vec<Vec<Thing>>) -> (r: Result<Vec<AppearanceSet>, DatabaseError>)
    requires
        forall|j: int| 0 <= j < combos@.len() ==> (#[trigger] combos@[j])@.len() == names@.len(),
    ensures
        (combos@.len() > 0 ==> names_resolve(db.roles(), names@.map_values(|n: String| n@))) ==> r is Ok,
        r matches Ok(sets) ==> sets@.len() == combos@.len() && forall|j: int|
            0 <= j < combos@.len() ==> set_of(#[trigger] sets@[j], tuple_pairs(
                db.roles(),
                names@.map_values(|n: String| n@),
                combos@[j]@,
            )),
{
    let ghost nv = names@.map_values(|n: String| n@);
    let ghost ok = combos@.len() > 0 ==> names_resolve(db.roles(), nv);
    let keeper = db.role_keeper();
    let mut out: Vec<AppearanceSet> = Vec::new();
    let mut j: usize = 0;
    while j < combos.len()
        invariant
            j <= combos@.len(),
            nv == names@.map_values(|n: String| n@),
            ok == (combos@.len() > 0 ==> names_resolve(db.roles(), nv)),
            keeper.roles() == db.roles(),
            forall|q: int| 0 <= q < combos@.len() ==> (#[trigger] combos@[q])@.len() == names@.len(),
            out@.len() == j,
            forall|q: int| 0 <= q < j ==> set_of(#[trigger] out@[q], tuple_pairs(db.roles(), nv, combos@[q]@)),
        decreases combos@.len() - j,
    {
        let combo = &combos[j];
        let mut apps: Vec<Appearance> = Vec::new();
        let mut i: usize = 0;
        while i < combo.len()
            invariant
                i <= combo@.len(),
                combo@.len() == names@.len(),
                nv == names@.map_values(|n: String| n@),
                j < combos@.len(),
                ok == (combos@.len() > 0 ==> names_resolve(db.roles(), nv)),
                keeper.roles() == db.roles(),
                apps@.len() == i,
                forall|a: int| 0 <= a < i ==> (#[trigger] appearance_keys(apps@)[a]) == tuple_pairs(db.roles(), nv, combo@)[a],
            decreases combo@.len() - i,
        {
            assert(nv[i as int] == names@[i as int]@);
            let role = match keeper.get(names[i].as_str()) {
                Some(role) => role,
                None => {
                    assert(!ok);
                    return Err(DatabaseError::UnknownRole(names[i].clone()));
                },
            };
            let ghost before = apps@;
            apps.push(Appearance::new(combo[i], role));
            proof {
                assert(nv[i as int] == names@[i as int]@);
                assert forall|a: int| 0 <= a < i + 1 implies (#[trigger] appearance_keys(apps@)[a]) == tuple_pairs(db.roles(), nv, combo@)[a] by {
                    if a < i {
                        assert(apps@[a] == before[a]);
                        assert(appearance_keys(before)[a] == tuple_pairs(db.roles(), nv, combo@)[a]);
                    }
                }
            }
            i = i + 1;
        }
        proof {
            if ok {
                assert forall|a: int, c: int|
                    0 <= a < apps@.len() && 0 <= c < apps@.len() && a != c implies #[trigger] apps@[a].role_spec().identity()
                        != #[trigger] apps@[c].role_spec().identity() by {
                    assert(appearance_keys(apps@)[a] == tuple_pairs(db.roles(), nv, combo@)[a]);
                    assert(appearance_keys(apps@)[c] == tuple_pairs(db.roles(), nv, combo@)[c]);
                }
            }
        }
        let set = match AppearanceSet::new(apps) {
            Some(set) => set,
            None => {
                return Err(DatabaseError::InvalidAppearanceSet(crate::text::text("an appearance set may contain at most one Thing for each Role")));
            },
        };
        proof {
            assert(appearance_keys(apps@) =~= tuple_pairs(db.roles(), nv, combo@));
            lemma_ordered_keys(set.members());
            lemma_appearance_keys_multiset(set.members(), apps@);
        }
        out.push(set);
        proof {
            assert forall|q: int| 0 <= q < j + 1 implies set_of(#[trigger] out@[q], tuple_pairs(db.roles(), nv, combos@[q]@)) by {}
        }
        j = j + 1;
    }
    Ok(out)
}

/// The request carries the appearance set, value and time.
pub open spec fn carries(p: Posit, s: AppearanceSet, value: LiteralValue, time: Time) -> bool {
    &&& p.members() == s.members()
    &&& p.value_token() == value.token_spec()
    &&& p.value_family() == value.family_spec()
    &&& p.time_spec() == time
}

proof fn lemma_extend_lengths(ts: Seq<Seq<Thing>>, l: Seq<Thing>, n: nat)
    requires
        forall|j: int| 0 <= j < ts.len() ==> (#[trigger] ts[j]).len() == n,
    ensures
        forall|j: int| 0 <= j < extend_tuples(ts, l).len() ==> (#[trigger] extend_tuples(ts, l)[j]).len() == n + 1,
    decreases ts.len(),
{
    if ts.len() > 0 {
        assert forall|j: int| 0 <= j < ts.drop_last().len() implies (#[trigger] ts.drop_last()[j]).len() == n by {
            assert(ts.drop_last()[j] == ts[j]);
        }
        lemma_extend_lengths(ts.drop_last(), l, n);
        let front = extend_tuples(ts.drop_last(), l);
        let back = l.map_values(|x: Thing| ts.last().push(x));
        assert(extend_tuples(ts, l) == front + back);
        assert forall|j: int| 0 <= j < extend_tuples(ts, l).len() implies (#[trigger] extend_tuples(ts, l)[j]).len() == n + 1 by {
            if j < front.len() {
                assert(extend_tuples(ts, l)[j] == front[j]);
            } else {
                assert(extend_tuples(ts, l)[j] == back[j - front.len()]);
                assert(ts[ts.len() - 1].len() == n);
            }
        }
    }
}

/// Every combination takes one thing from each list.
proof fn lemma_tuple_lengths(ls: Seq<Seq<Thing>>)
    ensures
        forall|j: int| 0 <= j < tuples(ls).len() ==> (#[trigger] tuples(ls)[j]).len() == ls.len(),
    decreases ls.len(),
{
    if ls.len() > 0 {
        lemma_tuple_lengths(ls.drop_last());
        lemma_extend_lengths(tuples(ls.drop_last()), ls.last(), ls.drop_last().len());
    }
}

/// The requests of one posit structure, appended to `pending`.
fn expand_structure(
    db: &mut Database,
    st: &PositStructure,
    bindings: &mut Bindings,
    pending: &mut Vec<(AppearanceSet, LiteralValue, Time)>,
) -> (r: Result<(), DatabaseError>)
    ensures
        final(db).posits() == old(db).posits(),
        final(db).roles() == old(db).roles(),
        r is Ok ==> final(pending)@.len() >= old(pending)@.len() && final(pending)@.take(old(pending)@.len() as int)
            == old(pending)@ && structure_outcome(
            structure_view(*st),
            old(db).roles(),
            old(bindings).map(),
            old(db).generator().bound() as nat,
            final(bindings).map(),
            final(db).generator().bound() as nat,
            posit_requests(final(pending)@.skip(old(pending)@.len() as int)),
        ),
        structure_admits(structure_view(*st), old(db).roles(), old(bindings).map(), old(db).generator().bound() as nat)
            ==> r is Ok,
{
    let ghost sv = structure_view(*st);
    let ghost ok = structure_admits(sv, db.roles(), bindings.map(), db.generator().bound() as nat);
    let ghost tv = terms_view(st.appearances@);
    let ghost b0 = bindings.map();
    let ghost g0 = db.generator().bound() as nat;
    let ghost roles = db.roles();
    let ghost start0 = pending@;
    insert_things(db, &st.appearances, bindings)?;
    let ghost bi = bindings.map();
    assert((bi, db.generator().bound() as nat) == inserted(tv, b0, g0));
    proof {
        if ok {
            assert forall|k: int| 0 <= k < st.appearances@.len() implies bindings.map().contains_key(
                #[trigger] st.appearances@[k].variable@,
            ) by {
                assert(sv.1[k].1 == st.appearances@[k].variable@);
            }
        }
    }
    let lists = candidates(&st.appearances, bindings)?;
    let ghost lv = lists_view(lists@);
    let mut lens: Vec<usize> = Vec::new();
    let mut k: usize = 0;
    while k < lists.len()
        invariant
            k <= lists@.len(),
            lv == lists_view(lists@),
            lens@ == list_lengths(lv).take(k as int),
        decreases lists@.len() - k,
    {
        lens.push(lists[k].len());
        assert(list_lengths(lv).take(k + 1) =~= list_lengths(lv).take(k as int).push(lists@[k as int]@.len() as usize));
        k = k + 1;
    }
    assert(list_lengths(lv).take(lists@.len() as int) =~= list_lengths(lv));
    let order = order_by_cardinality(&lens);
    let ghost ol = order@.map_values(|i: usize| lv[i as int]);
    let ghost onames = order@.map_values(|i: usize| tv[i as int].2);
    let mut ordered: Vec<Vec<Thing>> = Vec::new();
    let mut names: Vec<String> = Vec::new();
    let mut i: usize = 0;
    while i < order.len()
        invariant
            i <= order@.len(),
            lv == lists_view(lists@),
            tv == terms_view(st.appearances@),
            lists@.len() == st.appearances@.len(),
            cardinality_order(lens@, order@),
            lens@.len() == lists@.len(),
            ol == order@.map_values(|i: usize| lv[i as int]),
            onames == order@.map_values(|i: usize| tv[i as int].2),
            lists_view(ordered@) == ol.take(i as int),
            names@.map_values(|n: String| n@) == onames.take(i as int),
        decreases order@.len() - i,
    {
        let p = order[i];
        let ghost before_ordered = lists_view(ordered@);
        let ghost before_names = names@.map_values(|n: String| n@);
        ordered.push(vstd::slice::slice_to_vec(lists[p].as_slice()));
        let role_name = st.appearances[p].role.clone();
        names.push(role_name);
        proof {
            assert(p < lens@.len());
            assert(ol[i as int] == lv[p as int]);
            assert(lv[p as int] == lists@[p as int]@);
            assert(onames[i as int] == tv[p as int].2);
            assert(tv[p as int] == term_view(st.appearances@[p as int]));
            assert(lists_view(ordered@) =~= before_ordered.push(lists@[p as int]@));
            assert(names@.map_values(|n: String| n@) =~= before_names.push(role_name@));
            assert(lists_view(ordered@) =~= ol.take(i + 1));
            assert(names@.map_values(|n: String| n@) =~= onames.take(i + 1));
        }
        i = i + 1;
    }
    assert(ol.take(order@.len() as int) =~= ol);
    assert(onames.take(order@.len() as int) =~= onames);
    let combos = cartesian_tuples(&ordered);
    proof {
        lemma_tuple_lengths(ol);
        assert forall|j: int| 0 <= j < combos@.len() implies (#[trigger] combos@[j])@.len() == names@.len() by {
            assert(lists_view(combos@)[j] == combos@[j]@);
            assert(tuples(ol)[j].len() == ol.len());
        }
    }
    proof {
        if ok && combos@.len() > 0 {
            assert(lists_view(combos@) == tuples(ol));
            lemma_tuples_nonempty(ol);
            assert(lv == candidate_lists(tv, bi));
            assert forall|k: int| 0 <= k < sv.1.len() implies #[trigger] candidate_lists(sv.1, bi)[k].len() > 0 by {
                lemma_order_covers(lens@, order@, k);
                let i = choose|i: int| 0 <= i < order@.len() && order@[i] == k;
                assert(ol[i] == lv[k]);
            }
            let rn = role_names(tv);
            assert(names_resolve(roles, rn));
            assert(names@.map_values(|n: String| n@) == onames);
            assert forall|i: int| 0 <= i < onames.len() implies #[trigger] onames[i] == rn[order@[i] as int] by {}
            assert(names_resolve(roles, onames)) by {
                assert forall|i: int| 0 <= i < onames.len() implies role_named(roles, nfc_text(#[trigger] onames[i])) is Some by {
                    assert(onames[i] == rn[order@[i] as int]);
                }
                assert forall|i: int, j: int|
                    0 <= i < onames.len() && 0 <= j < onames.len() && i != j implies role_named(roles, nfc_text(#[trigger] onames[i]))->0.identity()
                        != role_named(roles, nfc_text(#[trigger] onames[j]))->0.identity() by {
                    assert(onames[i] == rn[order@[i] as int]);
                    assert(onames[j] == rn[order@[j] as int]);
                    if i < j {
                        assert(fewer_first(lens@, order@[i] as int, order@[j] as int));
                    } else {
                        assert(fewer_first(lens@, order@[j] as int, order@[i] as int));
                    }
                }
            }
        }
    }
    let sets = appearance_sets(db, &names, &combos)?;
    let time = match st.time {
        Some(t) => t,
        None => {
            return Err(DatabaseError::Execution(crate::text::text("add posit requires a valid appearance time")));
        },
    };
    let value = match &st.value {
        Some(v) => v,
        None => {
            return Err(DatabaseError::Execution(crate::text::text("add posit requires a valid appearing value")));
        },
    };
    let ghost start = pending@;
    let mut j: usize = 0;
    while j < sets.len()
        invariant
            j <= sets@.len(),
            pending@.len() == start.len() + j,
            pending@.take(start.len() as int) == start,
            forall|q: int| 0 <= q < j ==> carries(#[trigger] posit_requests(pending@.skip(start.len() as int))[q], sets@[q], *value, time),
        decreases sets@.len() - j,
    {
        let ghost before = pending@;
        let item = (sets[j].clone(), value.clone(), time);
        pending.push(item);
        proof {
            assert(pending@.take(start.len() as int) =~= before.take(start.len() as int));
            assert forall|q: int| 0 <= q < j + 1 implies carries(#[trigger] posit_requests(pending@.skip(start.len() as int))[q], sets@[q], *value, time) by {
                assert(pending@.skip(start.len() as int)[q] == pending@[start.len() + q]);
                assert(posit_requests(pending@.skip(start.len() as int))[q] == crate::construct::posit_request(pending@[start.len() + q]));
                posit_request_parts(pending@[start.len() + q]);
                if q < j {
                    assert(pending@[start.len() + q] == before[start.len() + q]);
                    assert(before.skip(start.len() as int)[q] == before[start.len() + q]);
                    assert(posit_requests(before.skip(start.len() as int))[q] == crate::construct::posit_request(before[start.len() + q]));
                } else {
                    assert(pending@[start.len() + q] == item);
                }
            }
        }
        j = j + 1;
    }
    proof {
        let reqs = posit_requests(pending@.skip(start.len() as int));
        assert(lists_view(combos@) == tuples(ol));
        assert(candidate_lists(tv, bi) == lv);
        assert(structure_requests(tv, *value, time, old(db).roles(), bi, order@, reqs)) by {
            assert forall|q: int| 0 <= q < tuples(ol).len() implies request_of(#[trigger] reqs[q], tuple_pairs(old(db).roles(), onames, tuples(ol)[q]), *value, time) by {
                assert(lists_view(combos@)[q] == combos@[q]@);
                assert(names@.map_values(|n: String| n@) == onames);
                assert(carries(reqs[q], sets@[q], *value, time));
                assert(set_of(sets@[q], tuple_pairs(old(db).roles(), onames, combos@[q]@)));
            }
        }
        assert(sv.1 == tv);
        assert(sv.2 == Some(*value));
        assert(sv.3 == Some(time));
        assert(list_lengths(candidate_lists(sv.1, bi)) =~= lens@);
        assert(forall|k: int| 0 <= k < sv.1.len() ==> bi.contains_key(#[trigger] sv.1[k].1)) by {
            assert forall|k: int| 0 <= k < sv.1.len() implies bi.contains_key(#[trigger] sv.1[k].1) by {
                assert(sv.1[k].1 == st.appearances@[k].variable@);
            }
        }
        assert(cardinality_order(list_lengths(candidate_lists(sv.1, bi)), order@) && structure_requests(
            sv.1,
            sv.2->0,
            sv.3->0,
            old(db).roles(),
            bi,
            order@,
            reqs,
        ));
        assert(start == start0);
        assert(structure_outcome(sv, roles, b0, g0, bindings.map(), db.generator().bound() as nat, reqs));
    }
    Ok(())
}

/// The requests of the structures, one structure after another.
pub open spec fn flatten(rs: Seq<Seq<Posit>>) -> Seq<Posit>
    decreases rs.len(),
{
    if rs.len() == 0 {
        Seq::empty()
    } else {
        flatten(rs.drop_last()) + rs.last()
    }
}

/// `b` with each of `ts` added to the things of `v`, in order.
pub open spec fn bind_all(b: BindingMap, v: Seq<char>, ts: Seq<Thing>) -> BindingMap
    decreases ts.len(),
{
    if ts.len() == 0 {
        b
    } else {
        bind_thing(bind_all(b, v, ts.drop_last()), v, ts.last())
    }
}

/// The bindings after the variables of the first `i` structures are bound to
/// the identities of the posits their requests resolved to.
pub open spec fn bind_results(
    b: BindingMap,
    svs: Seq<(Option<Seq<char>>, Seq<(bool, Seq<char>, Seq<char>)>, Option<LiteralValue>, Option<Time>)>,
    rs: Seq<Seq<Posit>>,
    ids: Seq<Thing>,
    i: nat,
) -> BindingMap
    decreases i,
{
    if i == 0 {
        b
    } else {
        let prev = bind_results(b, svs, rs, ids, (i - 1) as nat);
        let off = flatten(rs.take(i - 1)).len() as int;
        match svs[i - 1].0 {
            Some(v) => bind_all(prev, v, ids.subrange(off, off + rs[i - 1].len())),
            None => prev,
        }
    }
}

/// The structures, one after another, take the bindings through `bs` and
/// the generator bound through `gs`, and ask for the posits `rs`.
pub open spec fn command_run(
    svs: Seq<(Option<Seq<char>>, Seq<(bool, Seq<char>, Seq<char>)>, Option<LiteralValue>, Option<Time>)>,
    roles: Seq<Role>,
    b0: BindingMap,
    g0: nat,
    bs: Seq<BindingMap>,
    gs: Seq<nat>,
    rs: Seq<Seq<Posit>>,
) -> bool {
    &&& bs.len() == svs.len() + 1
    &&& gs.len() == svs.len() + 1
    &&& rs.len() == svs.len()
    &&& bs[0] == b0
    &&& gs[0] == g0
    &&& forall|i: int| 0 <= i < svs.len() ==> structure_outcome(#[trigger] svs[i], roles, bs[i], gs[i], bs[i + 1], gs[i + 1], rs[i])
}

/// What an `add posit` command does: its structures ask for posits in turn,
/// the posits are created as one command (each request resolving to the
/// posit of its proposition, kept before or new), and each structure's
/// variable is bound to the identities its requests resolved to.
pub open spec fn add_posit_outcome(
    svs: Seq<(Option<Seq<char>>, Seq<(bool, Seq<char>, Seq<char>)>, Option<LiteralValue>, Option<Time>)>,
    roles: Seq<Role>,
    posits0: Seq<Posit>,
    b0: BindingMap,
    g0: nat,
    posits1: Seq<Posit>,
    g1: nat,
    b1: BindingMap,
    kept: Seq<Posit>,
) -> bool {
    exists|bs: Seq<BindingMap>, gs: Seq<nat>, rs: Seq<Seq<Posit>>|
        #[trigger] command_run(svs, roles, b0, g0, bs, gs, rs) && match posit_plan(posits0, gs.last(), flatten(rs)) {
            Some((prepared, ids)) => {
                &&& posits1 == posits0 + prepared
                &&& g1 == gs.last() + flatten(rs).len()
                &&& kept.len() == ids.len()
                &&& forall|i: int| 0 <= i < ids.len() ==> (#[trigger] kept[i]).identity() == ids[i]
                &&& b1 == bind_results(bs.last(), svs, rs, ids, svs.len())
            },
            None => false,
        }
}

/// The bindings and the generator bound before structure `i`: each earlier
/// structure's inserts made in turn.
pub open spec fn bindings_chain(
    svs: Seq<(Option<Seq<char>>, Seq<(bool, Seq<char>, Seq<char>)>, Option<LiteralValue>, Option<Time>)>,
    b0: BindingMap,
    g0: nat,
    i: nat,
) -> (BindingMap, nat)
    decreases i,
{
    if i == 0 {
        (b0, g0)
    } else {
        let (b, g) = bindings_chain(svs, b0, g0, (i - 1) as nat);
        inserted(svs[i - 1].1, b, g)
    }
}

/// An `add posit` command goes through: each structure goes through from
/// where the ones before it left the bindings and the generator, and the
/// generator has an identity for each posit the structures ask for.
pub open spec fn add_posit_admits(
    svs: Seq<(Option<Seq<char>>, Seq<(bool, Seq<char>, Seq<char>)>, Option<LiteralValue>, Option<Time>)>,
    roles: Seq<Role>,
    b0: BindingMap,
    g0: nat,
) -> bool {
    &&& forall|i: int|
        0 <= i < svs.len() ==> structure_admits(
            #[trigger] svs[i],
            roles,
            bindings_chain(svs, b0, g0, i as nat).0,
            bindings_chain(svs, b0, g0, i as nat).1,
        )
    &&& forall|bs: Seq<BindingMap>, gs: Seq<nat>, rs: Seq<Seq<Posit>>|
        #[trigger] command_run(svs, roles, b0, g0, bs, gs, rs) ==> gs.last() + flatten(rs).len() <= u64::MAX
}

/// Runs an `add posit` command: fresh things for its inserting appearances,
/// a posit for each combination of candidates of each structure, created
/// together, and its variables bound to the resulting posits.
pub fn add_posit(db: &mut Database, command: &AddPositCommand, bindings: &mut Bindings) -> (r: Result<
    Vec<Posit>,
    DatabaseError,
>)
    ensures
        final(db).roles() == old(db).roles(),
        r is Err ==> final(db).posits() == old(db).posits(),
        r matches Ok(kept) ==> add_posit_outcome(
            command.structures@.map_values(|st: PositStructure| structure_view(st)),
            old(db).roles(),
            old(db).posits(),
            old(bindings).map(),
            old(db).generator().bound() as nat,
            final(db).posits(),
            final(db).generator().bound() as nat,
            final(bindings).map(),
            kept@,
        ),
        add_posit_admits(
            command.structures@.map_values(|st: PositStructure| structure_view(st)),
            old(db).roles(),
            old(bindings).map(),
            old(db).generator().bound() as nat,
        ) ==> r is Ok,
{
    let ghost svs = command.structures@.map_values(|st: PositStructure| structure_view(st));
    let ghost roles = db.roles();
    let ghost posits0 = db.posits();
    let ghost mut bs: Seq<BindingMap> = seq![bindings.map()];
    let ghost mut gs: Seq<nat> = seq![db.generator().bound() as nat];
    let ghost mut rs: Seq<Seq<Posit>> = Seq::empty();
    let ghost okc = add_posit_admits(svs, roles, bindings.map(), db.generator().bound() as nat);
    let mut pending: Vec<(AppearanceSet, LiteralValue, Time)> = Vec::new();
    let mut counts: Vec<usize> = Vec::new();
    let n = command.structures.len();
    let mut i: usize = 0;
    assert(posit_requests(pending@) =~= flatten(rs));
    while i < n
        invariant
            n == command.structures@.len(),
            i <= n,
            svs == command.structures@.map_values(|st: PositStructure| structure_view(st)),
            db.roles() == roles,
            db.posits() == posits0,
            roles == old(db).roles(),
            posits0 == old(db).posits(),
            bs.len() == i + 1,
            gs.len() == i + 1,
            rs.len() == i,
            counts@.len() == i,
            bs[0] == old(bindings).map(),
            gs[0] == old(db).generator().bound() as nat,
            bs.last() == bindings.map(),
            gs.last() == db.generator().bound() as nat,
            forall|q: int| 0 <= q < i ==> structure_outcome(#[trigger] svs[q], roles, bs[q], gs[q], bs[q + 1], gs[q + 1], rs[q]),
            forall|q: int| 0 <= q < i ==> (#[trigger] counts@[q]) as nat == rs[q].len(),
            flatten(rs) == posit_requests(pending@),
            okc == add_posit_admits(svs, roles, old(bindings).map(), old(db).generator().bound() as nat),
            (bindings.map(), db.generator().bound() as nat) == bindings_chain(
                svs,
                old(bindings).map(),
                old(db).generator().bound() as nat,
                i as nat,
            ),
        decreases n - i,
    {
        let before_len = pending.len();
        let ghost before = pending@;
        assert(svs[i as int] == structure_view(command.structures@[i as int]));
        assert(okc ==> structure_admits(svs[i as int], roles, bindings.map(), db.generator().bound() as nat));
        expand_structure(db, &command.structures[i], bindings, &mut pending)?;
        let count = pending.len() - before_len;
        counts.push(count);
        proof {
            let part = posit_requests(pending@.skip(before_len as int));
            assert(pending@ =~= before + pending@.skip(before_len as int));
            assert(posit_requests(pending@) =~= posit_requests(before) + part);
            assert(svs[i as int] == structure_view(command.structures@[i as int]));
            let old_rs = rs;
            let old_bs = bs;
            let old_gs = gs;
            rs = rs.push(part);
            bs = bs.push(bindings.map());
            gs = gs.push(db.generator().bound() as nat);
            assert(rs.drop_last() =~= old_rs);
            assert(flatten(rs) == flatten(old_rs) + part);
            assert forall|q: int| 0 <= q < i + 1 implies structure_outcome(#[trigger] svs[q], roles, bs[q], gs[q], bs[q + 1], gs[q + 1], rs[q]) by {
                if q < i {
                    assert(bs[q] == old_bs[q] && bs[q + 1] == old_bs[q + 1] && gs[q] == old_gs[q] && gs[q + 1] == old_gs[q + 1] && rs[q] == old_rs[q]);
                }
            }
            assert forall|q: int| 0 <= q < i + 1 implies (#[trigger] counts@[q]) as nat == rs[q].len() by {
                if q < i {
                    assert(rs[q] == old_rs[q]);
                }
            }
        }
        i = i + 1;
    }
    let ghost gfinal = db.generator().bound() as nat;
    let ghost bfinal = bindings.map();
    let ghost pending_requests = posit_requests(pending@);
    proof {
        assert(command_run(svs, roles, old(bindings).map(), old(db).generator().bound() as nat, bs, gs, rs));
        if okc {
            lemma_plan_fits(posits0, gfinal, pending_requests);
        }
    }
    let kept = db.create_literal_posits(pending)?;
    let ghost ids = match posit_plan(posits0, gfinal, pending_requests) {
        Some((prepared, ids)) => ids,
        None => Seq::empty(),
    };
    proof {
        lemma_plan_ids_len(posits0, gfinal, pending_requests);
    }
    let total = kept.len();
    let mut off: usize = 0;
    let mut s: usize = 0;
    assert(rs.take(0) =~= Seq::<Seq<Posit>>::empty());
    while s < n
        invariant
            n == command.structures@.len(),
            s <= n,
            svs == command.structures@.map_values(|st: PositStructure| structure_view(st)),
            rs.len() == n,
            counts@.len() == n,
            forall|q: int| 0 <= q < n ==> (#[trigger] counts@[q]) as nat == rs[q].len(),
            kept@.len() == ids.len(),
            total == kept@.len(),
            ids.len() == flatten(rs).len(),
            forall|q: int| 0 <= q < ids.len() ==> (#[trigger] kept@[q]).identity() == ids[q],
            off as nat == flatten(rs.take(s as int)).len(),
            flatten(rs.take(s as int)).len() <= flatten(rs).len(),
            bindings.map() == bind_results(bfinal, svs, rs, ids, s as nat),
        decreases n - s,
    {
        assert(rs.take(s + 1).drop_last() =~= rs.take(s as int));
        assert(rs.take(s + 1).last() == rs[s as int]);
        proof {
            lemma_flatten_prefix(rs, s as int + 1);
        }
        let count = counts[s];
        assert(off + count <= kept@.len());
        assert(svs[s as int] == structure_view(command.structures@[s as int]));
        match &command.structures[s].variable {
            Some(v) => {
                let ghost prev = bindings.map();
                let mut k: usize = 0;
                assert(ids.subrange(off as int, off as int + 0) =~= Seq::<Thing>::empty());
                while k < count
                    invariant
                        k <= count,
                        off + count <= kept@.len(),
                        total == kept@.len(),
                        kept@.len() == ids.len(),
                        forall|q: int| 0 <= q < ids.len() ==> (#[trigger] kept@[q]).identity() == ids[q],
                        bindings.map() == bind_all(prev, v@, ids.subrange(off as int, off + k)),
                    decreases count - k,
                {
                    let t = kept[off + k].posit();
                    bindings.bind(v.as_str(), t);
                    proof {
                        let now = ids.subrange(off as int, off + k + 1);
                        assert(now.drop_last() =~= ids.subrange(off as int, off + k));
                        assert(now.last() == ids[off + k]);
                    }
                    k = k + 1;
                }
            },
            None => {},
        }
        off = off + count;
        s = s + 1;
    }
    proof {
        assert(rs.take(n as int) =~= rs);
        assert(command_run(svs, roles, old(bindings).map(), old(db).generator().bound() as nat, bs, gs, rs));
    }
    Ok(kept)
}

/// A plan exists where the generator has an identity for each request.
proof fn lemma_plan_fits(kept: Seq<Posit>, bound: nat, requests: Seq<Posit>)
    requires
        bound + requests.len() <= u64::MAX,
    ensures
        posit_plan(kept, bound, requests) is Some,
    decreases requests.len(),
{
    if requests.len() > 0 {
        lemma_plan_fits(kept, bound, requests.drop_last());
    }
}

/// A plan resolves each request to one identity.
proof fn lemma_plan_ids_len(kept: Seq<Posit>, bound: nat, requests: Seq<Posit>)
    ensures
        posit_plan(kept, bound, requests) matches Some((prepared, ids)) ==> ids.len() == requests.len(),
    decreases requests.len(),
{
    if requests.len() > 0 {
        lemma_plan_ids_len(kept, bound, requests.drop_last());
    }
}

/// The requests of the first `j` structures come first.
proof fn lemma_flatten_prefix(rs: Seq<Seq<Posit>>, j: int)
    requires
        0 <= j <= rs.len(),
    ensures
        flatten(rs.take(j)).len() <= flatten(rs).len(),
        j > 0 ==> flatten(rs.take(j)).len() == flatten(rs.take(j - 1)).len() + rs[j - 1].len(),
    decreases rs.len(),
{
    if j > 0 {
        assert(rs.take(j).drop_last() =~= rs.take(j - 1));
        assert(rs.take(j).last() == rs[j - 1]);
    }
    if j == rs.len() {
        assert(rs.take(j) =~= rs);
    } else {
        assert(rs.take(j) =~= rs.drop_last().take(j));
        lemma_flatten_prefix(rs.drop_last(), j);
        if j > 0 {
            assert(rs.take(j - 1) =~= rs.drop_last().take(j - 1));
            assert(rs.drop_last()[j - 1] == rs[j - 1]);
        }
    }
}

} // verus!
