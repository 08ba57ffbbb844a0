//! The `where` conditions of a search on the values bound to its variables.

use crate::construct::{identity_index, Database, Posit, Thing};
use crate::literal::{nominal_outcome, semantic_outcome, LiteralFamily, LiteralValue};
use crate::search::{row_view, rows_view, RowView, SearchRow, TimePairCondition};
use std::cmp::Ordering;
use vstd::prelude::*;

verus! {

/// How a value must compare with a literal.
#[derive(Debug, Clone, Copy, PartialEq, Eq, Structural)]
pub enum ValueOperator {
    /// `<`
    Less,
    /// `<=`
    AtMost,
    /// `>`
    Greater,
    /// `>=`
    AtLeast,
    /// `===`: the same token.
    Exactly,
    /// `?=`: possibly equal.
    Possibly,
    /// `=` or `==`: nominally equal.
    Nominally,
}

/// A `where` condition on the value bound to a variable.
#[derive(Debug)]
pub struct ValueCondition {
    pub variable: String,
    pub operator: ValueOperator,
    pub value: LiteralValue,
}

/// The family and token of the value of the posit with identity `t`.
pub open spec fn literal_of_identity(ps: Seq<Posit>, t: Thing) -> Option<(LiteralFamily, Seq<char>)> {
    match identity_index(ps, t) {
        Some(i) => Some((ps[i].value_family(), ps[i].value_token())),
        None => None,
    }
}

/// Whether the first literal compares with the second as the operator asks;
/// `None` where they cannot be compared so.
pub open spec fn value_compare(
    af: LiteralFamily,
    at: Seq<char>,
    op: ValueOperator,
    bf: LiteralFamily,
    bt: Seq<char>,
) -> Option<bool> {
    match op {
        ValueOperator::Exactly => Some(at == bt),
        ValueOperator::Possibly => nominal_outcome(af, at, bf, bt),
        ValueOperator::Nominally => nominal_outcome(af, at, bf, bt),
        _ => match semantic_outcome(af, at, bf, bt) {
            Some(o) => Some(
                match op {
                    ValueOperator::Less => o == Ordering::Less,
                    ValueOperator::AtMost => o != Ordering::Greater,
                    ValueOperator::Greater => o == Ordering::Greater,
                    _ => o != Ordering::Less,
                },
            ),
            None => None,
        },
    }
}

/// The order operators answer by the semantic order: an equal value meets
/// `<=` and `>=` but neither `<` nor `>`; a smaller one meets `<` and `<=`
/// only; a greater one `>` and `>=` only.
pub proof fn order_operators_follow_the_order(af: LiteralFamily, at: Seq<char>, bf: LiteralFamily, bt: Seq<char>)
    ensures
        semantic_outcome(af, at, bf, bt) == Some(Ordering::Equal) ==> value_compare(af, at, ValueOperator::AtMost, bf, bt)
            == Some(true) && value_compare(af, at, ValueOperator::AtLeast, bf, bt) == Some(true) && value_compare(
            af,
            at,
            ValueOperator::Less,
            bf,
            bt,
        ) == Some(false) && value_compare(af, at, ValueOperator::Greater, bf, bt) == Some(false),
        semantic_outcome(af, at, bf, bt) == Some(Ordering::Less) ==> value_compare(af, at, ValueOperator::AtMost, bf, bt)
            == Some(true) && value_compare(af, at, ValueOperator::Less, bf, bt) == Some(true) && value_compare(
            af,
            at,
            ValueOperator::AtLeast,
            bf,
            bt,
        ) == Some(false) && value_compare(af, at, ValueOperator::Greater, bf, bt) == Some(false),
        semantic_outcome(af, at, bf, bt) == Some(Ordering::Greater) ==> value_compare(af, at, ValueOperator::AtLeast, bf, bt)
            == Some(true) && value_compare(af, at, ValueOperator::Greater, bf, bt) == Some(true) && value_compare(
            af,
            at,
            ValueOperator::AtMost,
            bf,
            bt,
        ) == Some(false) && value_compare(af, at, ValueOperator::Less, bf, bt) == Some(false),
        semantic_outcome(af, at, bf, bt) is None ==> value_compare(af, at, ValueOperator::AtMost, bf, bt) is None
            && value_compare(af, at, ValueOperator::AtLeast, bf, bt) is None,
{
}

/// A certainty compared with itself meets `<=` and `>=`, and neither `<`
/// nor `>`.
pub proof fn certainties_are_at_most_and_at_least_themselves(t: Seq<char>)
    ensures
        value_compare(LiteralFamily::Certainty, t, ValueOperator::AtMost, LiteralFamily::Certainty, t) == Some(true),
        value_compare(LiteralFamily::Certainty, t, ValueOperator::AtLeast, LiteralFamily::Certainty, t) == Some(true),
        value_compare(LiteralFamily::Certainty, t, ValueOperator::Less, LiteralFamily::Certainty, t) == Some(false),
        value_compare(LiteralFamily::Certainty, t, ValueOperator::Greater, LiteralFamily::Certainty, t) == Some(false),
{
}

/// A literal is exactly, nominally and possibly equal to itself where its
/// family compares with itself plainly (certainties, strings, times); exact
/// equality holds only between equal tokens.
pub proof fn equality_operators_are_reflexive(f: LiteralFamily, t: Seq<char>, bf: LiteralFamily, bt: Seq<char>)
    ensures
        value_compare(f, t, ValueOperator::Exactly, bf, t) == Some(true),
        value_compare(f, t, ValueOperator::Exactly, bf, bt) == Some(true) ==> t == bt,
        (f == LiteralFamily::Certainty || f == LiteralFamily::String || f == LiteralFamily::Time) ==> value_compare(
            f,
            t,
            ValueOperator::Nominally,
            f,
            t,
        ) == Some(true) && value_compare(f, t, ValueOperator::Possibly, f, t) == Some(true),
        value_compare(f, t, ValueOperator::Nominally, bf, bt) == value_compare(f, t, ValueOperator::Possibly, bf, bt),
{
}

/// What a condition answers for a row: `None` where the row does not bind
/// the variable as a value, `false` where the value's posit is not kept,
/// else the comparison, `None` where it cannot be made.
pub open spec fn condition_outcome(e: RowView, ps: Seq<Posit>, c: ValueCondition) -> Option<bool> {
    if !e.2.contains_key(c.variable@) || !e.3.contains_key(c.variable@) || e.3[c.variable@] != 0 {
        None
    } else {
        match literal_of_identity(ps, e.2[c.variable@]) {
            None => Some(false),
            Some((f, t)) => value_compare(f, t, c.operator, c.value.family_spec(), c.value.token_spec()),
        }
    }
}

/// The conditions in turn for a row: the first that fails or cannot be
/// answered decides; `true` where all hold.
pub open spec fn row_outcome(e: RowView, ps: Seq<Posit>, conditions: Seq<ValueCondition>) -> Option<bool>
    decreases conditions.len(),
{
    if conditions.len() == 0 {
        Some(true)
    } else {
        match condition_outcome(e, ps, conditions[0]) {
            None => None,
            Some(false) => Some(false),
            Some(true) => row_outcome(e, ps, conditions.drop_first()),
        }
    }
}

/// The rows every condition holds for, in order; `None` where a condition
/// cannot be answered for some row.
pub open spec fn value_filter(rows: Seq<RowView>, ps: Seq<Posit>, conditions: Seq<ValueCondition>) -> Option<Seq<RowView>>
    decreases rows.len(),
{
    if rows.len() == 0 {
        Some(Seq::empty())
    } else {
        match (value_filter(rows.drop_last(), ps, conditions), row_outcome(rows.last(), ps, conditions)) {
            (Some(kept), Some(true)) => Some(kept.push(rows.last())),
            (Some(kept), Some(false)) => Some(kept),
            _ => None,
        }
    }
}

/// Compares two literals as the operator asks.
fn compare_values(a: &LiteralValue, op: ValueOperator, b: &LiteralValue) -> (r: Option<bool>)
    ensures
        r == value_compare(a.family_spec(), a.token_spec(), op, b.family_spec(), b.token_spec()),
{
    match op {
        ValueOperator::Exactly => Some(a.exactly_equals(b)),
        ValueOperator::Possibly => match a.possibly_equals(b) {
            Ok(x) => Some(x),
            Err(_) => None,
        },
        ValueOperator::Nominally => match a.nominally_equals(b) {
            Ok(x) => Some(x),
            Err(_) => None,
        },
        _ => match a.semantic_cmp(b) {
            Ok(o) => {
                let less = match o {
                    Ordering::Less => true,
                    _ => false,
                };
                let greater = match o {
                    Ordering::Greater => true,
                    _ => false,
                };
                Some(
                    match op {
                        ValueOperator::Less => less,
                        ValueOperator::AtMost => !greater,
                        ValueOperator::Greater => greater,
                        _ => !less,
                    },
                )
            },
            Err(_) => None,
        },
    }
}

/// What the condition answers for the row.
fn condition_for(database: &Database, row: &SearchRow, c: &ValueCondition) -> (r: Option<bool>)
    ensures
        r == condition_outcome(row_view(*row), database.posits(), *c),
{
    let pid = match row.slots.get(c.variable.as_str()) {
        Some(pid) => pid,
        None => {
            return None;
        },
    };
    match row.slot_kinds.get(c.variable.as_str()) {
        Some(kind) => {
            if kind != 0 {
                return None;
            }
        },
        None => {
            return None;
        },
    }
    let posits = database.posit_keeper();
    let ghost ps = database.posits();
    let mut i = posits.len();
    assert(ps.take(ps.len() as int) =~= ps);
    while i > 0
        invariant
            i <= ps.len(),
            ps == posits.posits(),
            ps == database.posits(),
            identity_index(ps, pid) == identity_index(ps.take(i as int), pid),
            row_view(*row).2.contains_key(c.variable@),
            row_view(*row).2[c.variable@] == pid,
            row_view(*row).3.contains_key(c.variable@),
            row_view(*row).3[c.variable@] == 0,
        decreases i,
    {
        let posit = posits.get(i - 1);
        assert(ps.take(i as int).last() == ps[i - 1]);
        if posit.posit() == pid {
            assert(identity_index(ps, pid) == Some(i - 1));
            return compare_values(posit.value(), c.operator, &c.value);
        }
        assert(ps.take(i as int).drop_last() =~= ps.take(i - 1));
        i = i - 1;
    }
    assert(ps.take(0) =~= Seq::<Posit>::empty());
    Some(false)
}

/// What the conditions answer for the row.
fn row_answer(database: &Database, row: &SearchRow, conditions: &Vec<ValueCondition>) -> (r: Option<bool>)
    ensures
        r == row_outcome(row_view(*row), database.posits(), conditions@),
{
    let n = conditions.len();
    let mut k: usize = 0;
    assert(conditions@.subrange(0, n as int) =~= conditions@);
    while k < n
        invariant
            k <= n,
            n == conditions@.len(),
            row_outcome(row_view(*row), database.posits(), conditions@) == row_outcome(
                row_view(*row),
                database.posits(),
                conditions@.subrange(k as int, n as int),
            ),
        decreases n - k,
    {
        let ghost rest = conditions@.subrange(k as int, n as int);
        assert(rest[0] == conditions@[k as int]);
        assert(rest.drop_first() =~= conditions@.subrange(k + 1, n as int));
        match condition_for(database, row, &conditions[k]) {
            None => {
                return None;
            },
            Some(false) => {
                return Some(false);
            },
            Some(true) => {},
        }
        k = k + 1;
    }
    Some(true)
}

/// The rows every value condition holds for, in order; `None` where a
/// condition cannot be answered for one of them (a variable not bound as a
/// value, or values that cannot be compared so).
pub fn filter_rows_by_value(database: &Database, rows: Vec<SearchRow>, conditions: &Vec<ValueCondition>) -> (r: Option<
    Vec<SearchRow>,
>)
    ensures
        match value_filter(rows_view(rows@), database.posits(), conditions@) {
            Some(kept) => r matches Some(out) && rows_view(out@) == kept,
            None => r is None,
        },
{
    let ghost rv = rows_view(rows@);
    let ghost ps = database.posits();
    let mut out: Vec<SearchRow> = Vec::new();
    let mut remaining = rows;
    let n = remaining.len();
    let mut i: usize = 0;
    assert(rv.take(0) =~= Seq::<RowView>::empty());
    assert(rows_view(remaining@) =~= rv.skip(0));
    while i < n
        invariant
            i <= n,
            n == rv.len(),
            ps == database.posits(),
            remaining@.len() == n - i,
            rows_view(remaining@) == rv.skip(i as int),
            value_filter(rv.take(i as int), ps, conditions@) == Some(rows_view(out@)),
            rv == rows_view(rows@),
        decreases n - i,
    {
        let ghost was = remaining@;
        let row = remaining.remove(0);
        proof {
            assert(rows_view(was)[0] == rv.skip(i as int)[0]);
            assert(row_view(row) == rv[i as int]);
            assert(rows_view(remaining@) =~= rv.skip(i + 1)) by {
                assert(remaining@ =~= was.subrange(1, was.len() as int));
                assert forall|j: int| 0 <= j < rows_view(remaining@).len() implies rows_view(remaining@)[j] == rv.skip(i + 1)[j] by {
                    assert(rows_view(was)[j + 1] == rv.skip(i as int)[j + 1]);
                }
            }
            assert(rv.take(i + 1).drop_last() =~= rv.take(i as int));
            assert(rv.take(i + 1).last() == rv[i as int]);
        }
        match row_answer(database, &row, conditions) {
            None => {
                proof {
                    assert(row_outcome(rv.take(i + 1).last(), ps, conditions@) is None);
                    assert(value_filter(rv.take(i + 1), ps, conditions@) is None);
                    lemma_filter_failure_stays(rv, ps, conditions@, i + 1);
                    assert(value_filter(rv, ps, conditions@) is None);
                }
                return None;
            },
            Some(true) => {
                let ghost before = out@;
                out.push(row);
                assert(rows_view(out@) =~= rows_view(before).push(row_view(row)));
            },
            Some(false) => {},
        }
        i = i + 1;
    }
    assert(rv.take(n as int) =~= rv);
    Some(out)
}

/// Once a row cannot be answered, the filter fails.
proof fn lemma_filter_failure_stays(rows: Seq<RowView>, ps: Seq<Posit>, conditions: Seq<ValueCondition>, j: int)
    requires
        0 <= j <= rows.len(),
        value_filter(rows.take(j), ps, conditions) is None,
    ensures
        value_filter(rows, ps, conditions) is None,
    decreases rows.len(),
{
    if j == rows.len() {
        assert(rows.take(j) =~= rows);
    } else {
        assert(rows.take(j) =~= rows.drop_last().take(j));
        lemma_filter_failure_stays(rows.drop_last(), ps, conditions, j);
    }
}

/// What a condition between two variables answers for a row as values:
/// `None` where the row does not bind both, `true` where either is a time
/// (the condition is one between times then), `false` where a value's
/// posit is not kept, else the comparison, `None` where it cannot be made.
pub open spec fn pair_outcome(e: RowView, ps: Seq<Posit>, c: TimePairCondition) -> Option<bool> {
    if !e.2.contains_key(c.left@) || !e.3.contains_key(c.left@) || !e.2.contains_key(c.right@) || !e.3.contains_key(
        c.right@,
    ) {
        None
    } else if e.3[c.left@] == 1 || e.3[c.right@] == 1 {
        Some(true)
    } else {
        match (literal_of_identity(ps, e.2[c.left@]), literal_of_identity(ps, e.2[c.right@])) {
            (Some((af, at)), Some((bf, bt))) => value_compare(af, at, c.operator, bf, bt),
            _ => Some(false),
        }
    }
}

/// The conditions between variables in turn for a row.
pub open spec fn row_pair_outcome(e: RowView, ps: Seq<Posit>, conditions: Seq<TimePairCondition>) -> Option<bool>
    decreases conditions.len(),
{
    if conditions.len() == 0 {
        Some(true)
    } else {
        match pair_outcome(e, ps, conditions[0]) {
            None => None,
            Some(false) => Some(false),
            Some(true) => row_pair_outcome(e, ps, conditions.drop_first()),
        }
    }
}

/// The rows every condition between values holds for, in order; `None`
/// where one cannot be answered for some row.
pub open spec fn pair_filter(rows: Seq<RowView>, ps: Seq<Posit>, conditions: Seq<TimePairCondition>) -> Option<Seq<RowView>>
    decreases rows.len(),
{
    if rows.len() == 0 {
        Some(Seq::empty())
    } else {
        match (pair_filter(rows.drop_last(), ps, conditions), row_pair_outcome(rows.last(), ps, conditions)) {
            (Some(kept), Some(true)) => Some(kept.push(rows.last())),
            (Some(kept), Some(false)) => Some(kept),
            _ => None,
        }
    }
}

/// The index of the kept posit with identity `t`, the last one counting.
fn posit_index(database: &Database, t: Thing) -> (r: Option<usize>)
    ensures
        r matches Some(i) ==> i < database.posits().len() && identity_index(database.posits(), t) == Some(i as int),
        r is None ==> identity_index(database.posits(), t) is None,
{
    let posits = database.posit_keeper();
    let ghost ps = database.posits();
    let mut i = posits.len();
    assert(ps.take(ps.len() as int) =~= ps);
    while i > 0
        invariant
            i <= ps.len(),
            ps == posits.posits(),
            ps == database.posits(),
            identity_index(ps, t) == identity_index(ps.take(i as int), t),
        decreases i,
    {
        let posit = posits.get(i - 1);
        assert(ps.take(i as int).last() == ps[i - 1]);
        if posit.posit() == t {
            return Some(i - 1);
        }
        assert(ps.take(i as int).drop_last() =~= ps.take(i - 1));
        i = i - 1;
    }
    assert(ps.take(0) =~= Seq::<Posit>::empty());
    None
}

/// What the condition between two variables answers for the row as values.
fn pair_for(database: &Database, row: &SearchRow, c: &TimePairCondition) -> (r: Option<bool>)
    ensures
        r == pair_outcome(row_view(*row), database.posits(), *c),
{
    let lp = match row.slots.get(c.left.as_str()) {
        Some(pid) => pid,
        None => {
            return None;
        },
    };
    let lk = match row.slot_kinds.get(c.left.as_str()) {
        Some(k) => k,
        None => {
            return None;
        },
    };
    let rp = match row.slots.get(c.right.as_str()) {
        Some(pid) => pid,
        None => {
            return None;
        },
    };
    let rk = match row.slot_kinds.get(c.right.as_str()) {
        Some(k) => k,
        None => {
            return None;
        },
    };
    if lk == 1 || rk == 1 {
        return Some(true);
    }
    let posits = database.posit_keeper();
    let ghost ps = database.posits();
    match posit_index(database, lp) {
        Some(a) => match posit_index(database, rp) {
            Some(b) => {
                assert(literal_of_identity(ps, lp) == Some((ps[a as int].value_family(), ps[a as int].value_token())));
                assert(literal_of_identity(ps, rp) == Some((ps[b as int].value_family(), ps[b as int].value_token())));
                compare_values(posits.get(a).value(), c.operator, posits.get(b).value())
            },
            None => Some(false),
        },
        None => Some(false),
    }
}

/// What the conditions between variables answer for the row.
fn row_pair_answer(database: &Database, row: &SearchRow, conditions: &Vec<TimePairCondition>) -> (r: Option<bool>)
    ensures
        r == row_pair_outcome(row_view(*row), database.posits(), conditions@),
{
    let n = conditions.len();
    let mut k: usize = 0;
    assert(conditions@.subrange(0, n as int) =~= conditions@);
    while k < n
        invariant
            k <= n,
            n == conditions@.len(),
            row_pair_outcome(row_view(*row), database.posits(), conditions@) == row_pair_outcome(
                row_view(*row),
                database.posits(),
                conditions@.subrange(k as int, n as int),
            ),
        decreases n - k,
    {
        let ghost rest = conditions@.subrange(k as int, n as int);
        assert(rest[0] == conditions@[k as int]);
        assert(rest.drop_first() =~= conditions@.subrange(k + 1, n as int));
        match pair_for(database, row, &conditions[k]) {
            None => {
                return None;
            },
            Some(false) => {
                return Some(false);
            },
            Some(true) => {},
        }
        k = k + 1;
    }
    Some(true)
}

/// The rows every condition between values holds for, in order; `None`
/// where one cannot be answered for one of them.
pub fn filter_rows_by_value_pairs(database: &Database, rows: Vec<SearchRow>, conditions: &Vec<TimePairCondition>) -> (r: Option<
    Vec<SearchRow>,
>)
    ensures
        match pair_filter(rows_view(rows@), database.posits(), conditions@) {
            Some(kept) => r matches Some(out) && rows_view(out@) == kept,
            None => r is None,
        },
{
    let ghost rv = rows_view(rows@);
    let ghost ps = database.posits();
    let mut out: Vec<SearchRow> = Vec::new();
    let mut remaining = rows;
    let n = remaining.len();
    let mut i: usize = 0;
    assert(rv.take(0) =~= Seq::<RowView>::empty());
    assert(rows_view(remaining@) =~= rv.skip(0));
    while i < n
        invariant
            i <= n,
            n == rv.len(),
            ps == database.posits(),
            remaining@.len() == n - i,
            rows_view(remaining@) == rv.skip(i as int),
            pair_filter(rv.take(i as int), ps, conditions@) == Some(rows_view(out@)),
            rv == rows_view(rows@),
        decreases n - i,
    {
        let ghost was = remaining@;
        let row = remaining.remove(0);
        proof {
            assert(rows_view(was)[0] == rv.skip(i as int)[0]);
            assert(row_view(row) == rv[i as int]);
            assert(rows_view(remaining@) =~= rv.skip(i + 1)) by {
                assert(remaining@ =~= was.subrange(1, was.len() as int));
                assert forall|j: int| 0 <= j < rows_view(remaining@).len() implies rows_view(remaining@)[j] == rv.skip(i + 1)[j] by {
                    assert(rows_view(was)[j + 1] == rv.skip(i as int)[j + 1]);
                }
            }
            assert(rv.take(i + 1).drop_last() =~= rv.take(i as int));
            assert(rv.take(i + 1).last() == rv[i as int]);
        }
        match row_pair_answer(database, &row, conditions) {
            None => {
                proof {
                    assert(row_pair_outcome(rv.take(i + 1).last(), ps, conditions@) is None);
                    assert(pair_filter(rv.take(i + 1), ps, conditions@) is None);
                    lemma_pair_failure_stays(rv, ps, conditions@, i + 1);
                }
                return None;
            },
            Some(true) => {
                let ghost before = out@;
                out.push(row);
                assert(rows_view(out@) =~= rows_view(before).push(row_view(row)));
            },
            Some(false) => {},
        }
        i = i + 1;
    }
    assert(rv.take(n as int) =~= rv);
    Some(out)
}

proof fn lemma_pair_failure_stays(rows: Seq<RowView>, ps: Seq<Posit>, conditions: Seq<TimePairCondition>, j: int)
    requires
        0 <= j <= rows.len(),
        pair_filter(rows.take(j), ps, conditions) is None,
    ensures
        pair_filter(rows, ps, conditions) is None,
    decreases rows.len(),
{
    if j == rows.len() {
        assert(rows.take(j) =~= rows);
    } else {
        assert(rows.take(j) =~= rows.drop_last().take(j));
        lemma_pair_failure_stays(rows.drop_last(), ps, conditions, j);
    }
}

} // verus!
