//! Running a script over its command tree: `add role`, `add posit` and
//! `search` commands in turn, each search collected as a result set within
//! its row limit.

use crate::command::{add_posit, add_posit_admits, add_posit_outcome, structure_view, AddPositCommand, BindingMap, Bindings, PositStructure};
use crate::construct::{role_plan, roles_parts, Database, Posit};
use crate::datatype::Time;
use crate::literal::LiteralValue;
use crate::error::DatabaseError;
use crate::script::{effective_limit, limit_of};
use crate::search::{cells_view, search, search_rows, SearchCommand};
use crate::traqula::{ResultCell, ResultCellKind};
use vstd::prelude::*;

verus! {

/// A command of a script, as its command tree gives it.
#[derive(Debug)]
pub enum ScriptCommand {
    /// `add role`: the names of the roles.
    AddRole(Vec<String>),
    /// `add posit`.
    AddPosit(AddPositCommand),
    /// `search`, with the row limit its `limit` clause gives, if any.
    Search(SearchCommand, Option<usize>),
}

/// The rows one search collected: its columns, the rows within its limit,
/// and whether the limit cut rows off.
#[derive(Debug)]
pub struct CollectedSearch {
    pub columns: Vec<String>,
    pub rows: Vec<Vec<ResultCell>>,
    pub limited: bool,
}

pub type CollectedView = (Seq<Seq<char>>, Seq<Seq<(ResultCellKind, Seq<char>)>>, bool);

/// What a search yields before its limit: its columns, all its rows, and its
/// row limit.
pub type SearchOutput = (Seq<Seq<char>>, Seq<Seq<(ResultCellKind, Seq<char>)>>, Option<usize>);

pub open spec fn collected_view(c: CollectedSearch) -> CollectedView {
    (
        c.columns@.map_values(|s: String| s@),
        c.rows@.map_values(|cells: Vec<ResultCell>| cells_view(cells@)),
        c.limited,
    )
}

/// The posit structures of an `add posit` command.
pub open spec fn structures_of(c: AddPositCommand) -> Seq<
    (Option<Seq<char>>, Seq<(bool, Seq<char>, Seq<char>)>, Option<LiteralValue>, Option<Time>),
> {
    c.structures@.map_values(|st: PositStructure| structure_view(st))
}

/// The role requests of `add role`: each name, none of them reserved.
pub open spec fn role_names_request(names: Seq<String>) -> Seq<(Seq<char>, bool)> {
    names.map_values(|n: String| (n@, false))
}

/// The rows within the limit, and whether the limit cut rows off.
pub open spec fn within_limit(
    rows: Seq<Seq<(ResultCellKind, Seq<char>)>>,
    limit: Option<usize>,
) -> (Seq<Seq<(ResultCellKind, Seq<char>)>>, bool) {
    match limit {
        Some(l) => if rows.len() > l {
            (rows.take(l as int), true)
        } else {
            (rows, false)
        },
        None => (rows, false),
    }
}

/// A collected search never holds more rows than its limit, and is marked
/// limited exactly where rows were cut off.
pub proof fn collected_rows_stay_within_limit(rows: Seq<Seq<(ResultCellKind, Seq<char>)>>, limit: Option<usize>)
    ensures
        limit matches Some(l) ==> within_limit(rows, limit).0.len() <= l,
        within_limit(rows, limit).1 <==> (limit matches Some(l) && rows.len() > l),
        within_limit(rows, limit).0 == rows.take(within_limit(rows, limit).0.len() as int),
{
    match limit {
        Some(l) => {},
        None => {
            assert(rows.take(rows.len() as int) =~= rows);
        },
    }
    if !within_limit(rows, limit).1 {
        assert(rows.take(rows.len() as int) =~= rows);
    }
}

/// What a command does from the database `d0` and the variables `b0`,
/// leaving `d1` and `b1`, and what it yields: roles added as one command,
/// posits added with the variables of the script, or the rows of a search
/// over the database with variables of its own, with its row limit.
pub open spec fn command_effect(
    c: ScriptCommand,
    maximum: Option<usize>,
    d0: Database,
    b0: BindingMap,
    d1: Database,
    b1: BindingMap,
    out: Option<SearchOutput>,
) -> bool {
    match c {
        ScriptCommand::AddRole(names) => {
            &&& out is None
            &&& b1 == b0
            &&& d1.posits() == d0.posits()
            &&& match role_plan(d0.roles(), d0.generator().bound() as nat, role_names_request(names@)) {
                Ok((prepared, _)) => roles_parts(d1.roles()) == roles_parts(d0.roles()) + prepared
                    && d1.generator().bound() == d0.generator().bound() + prepared.len(),
                Err(_) => false,
            }
        },
        ScriptCommand::AddPosit(command) => {
            &&& out is None
            &&& d1.roles() == d0.roles()
            &&& exists|kept: Seq<Posit>|
                #[trigger] add_posit_outcome(
                    structures_of(command),
                    d0.roles(),
                    d0.posits(),
                    b0,
                    d0.generator().bound() as nat,
                    d1.posits(),
                    d1.generator().bound() as nat,
                    b1,
                    kept,
                )
        },
        ScriptCommand::Search(s, query_limit) => {
            &&& d1 == d0
            &&& b1 == b0
            &&& match search_rows(d0.posits(), d0.roles(), s, Map::empty()) {
                Some(rows) => out == Some((s.columns@.map_values(|c: String| c@), rows, limit_of(query_limit, maximum))),
                None => false,
            }
        },
    }
}

/// The command fails from the database `d0` and the variables `b0`.
pub open spec fn command_refused(c: ScriptCommand, d0: Database, b0: BindingMap) -> bool {
    match c {
        ScriptCommand::AddRole(names) => role_plan(
            d0.roles(),
            d0.generator().bound() as nat,
            role_names_request(names@),
        ) is Err,
        ScriptCommand::AddPosit(command) => !add_posit_admits(
            structures_of(command),
            d0.roles(),
            b0,
            d0.generator().bound() as nat,
        ),
        ScriptCommand::Search(s, _) => search_rows(d0.posits(), d0.roles(), s, Map::empty()) is None,
    }
}

/// The first `k` commands take the database through `ds` and the variables
/// through `bs`, collecting `outs`.
pub open spec fn script_prefix(
    commands: Seq<ScriptCommand>,
    maximum: Option<usize>,
    ds: Seq<Database>,
    bs: Seq<BindingMap>,
    outs: Seq<Option<SearchOutput>>,
    k: int,
) -> bool {
    &&& 0 <= k <= commands.len()
    &&& ds.len() == k + 1
    &&& bs.len() == k + 1
    &&& outs.len() == k
    &&& bs[0] == Map::<Seq<char>, Set<u64>>::empty()
    &&& forall|i: int| 0 <= i < k ==> command_effect(#[trigger] commands[i], maximum, ds[i], bs[i], ds[i + 1], bs[i + 1], outs[i])
}

/// The result sets collected, in order, each within its limit.
pub open spec fn collected(outs: Seq<Option<SearchOutput>>) -> Seq<CollectedView>
    decreases outs.len(),
{
    if outs.len() == 0 {
        Seq::empty()
    } else {
        match outs.last() {
            Some((columns, rows, limit)) => collected(outs.drop_last()).push(
                (columns, within_limit(rows, limit).0, within_limit(rows, limit).1),
            ),
            None => collected(outs.drop_last()),
        }
    }
}

/// The rows of all searches collected together: the columns of the first
/// search, its rows and those of later searches appended while the count
/// stays below each search's own limit, how many searches ran, and whether
/// a limit refused a row.
pub open spec fn accumulated(outs: Seq<Option<SearchOutput>>) -> (
    Option<Seq<Seq<char>>>,
    Seq<Seq<(ResultCellKind, Seq<char>)>>,
    nat,
    bool,
)
    decreases outs.len(),
{
    if outs.len() == 0 {
        (None, Seq::empty(), 0, false)
    } else {
        let (columns, rows, searches, limited) = accumulated(outs.drop_last());
        match outs.last() {
            Some((cols, more, limit)) => {
                let room: int = match limit {
                    Some(l) => if l >= rows.len() {
                        l - rows.len()
                    } else {
                        0
                    },
                    None => more.len() as int,
                };
                let taken = if more.len() <= room {
                    more
                } else {
                    more.take(room)
                };
                (
                    match columns {
                        Some(c) => Some(c),
                        None => Some(cols),
                    },
                    rows + taken,
                    searches + 1,
                    limited || more.len() > room,
                )
            },
            None => (columns, rows, searches, limited),
        }
    }
}

/// The role requests of `add role`.
fn role_requests_of(names: &Vec<String>) -> (r: Vec<(String, bool)>)
    ensures
        crate::construct::role_requests(r@) == role_names_request(names@),
{
    let mut out: Vec<(String, bool)> = Vec::new();
    let mut k: usize = 0;
    while k < names.len()
        invariant
            k <= names@.len(),
            crate::construct::role_requests(out@) == role_names_request(names@).take(k as int),
        decreases names@.len() - k,
    {
        let name = names[k].clone();
        let ghost before = out@;
        out.push((name, false));
        proof {
            assert(crate::construct::role_requests(out@) =~= crate::construct::role_requests(before).push((name@, false)));
            assert(role_names_request(names@).take(k + 1) =~= role_names_request(names@).take(k as int).push(
                (names@[k as int]@, false),
            ));
        }
        k = k + 1;
    }
    assert(role_names_request(names@).take(names@.len() as int) =~= role_names_request(names@));
    out
}

/// What a run command yields, by views.
pub open spec fn output_view(out: Option<(Vec<String>, Vec<Vec<ResultCell>>, Option<usize>)>) -> Option<SearchOutput> {
    match out {
        Some((columns, rows, limit)) => Some(
            (
                columns@.map_values(|c: String| c@),
                rows@.map_values(|cells: Vec<ResultCell>| cells_view(cells@)),
                limit,
            ),
        ),
        None => None,
    }
}

/// Runs one command: roles added, posits added with the script's variables,
/// or a search with variables of its own, yielding its columns, all its rows
/// and its row limit.
fn run_command(database: &mut Database, command: &ScriptCommand, variables: &mut Bindings, maximum: Option<usize>) -> (r: Result<
    Option<(Vec<String>, Vec<Vec<ResultCell>>, Option<usize>)>,
    DatabaseError,
>)
    ensures
        r matches Ok(out) ==> command_effect(
            *command,
            maximum,
            *old(database),
            old(variables).map(),
            *final(database),
            final(variables).map(),
            output_view(out),
        ),
        r is Err ==> command_refused(*command, *old(database), old(variables).map()),
{
    let ghost d0 = *database;
    let ghost b0 = variables.map();
    match command {
        ScriptCommand::AddRole(names) => {
            let requests = role_requests_of(names);
            database.create_roles(requests)?;
            Ok(None)
        },
        ScriptCommand::AddPosit(posit_command) => {
            let kept = add_posit(database, posit_command, variables)?;
            proof {
                assert(add_posit_outcome(
                    structures_of(*posit_command),
                    d0.roles(),
                    d0.posits(),
                    b0,
                    d0.generator().bound() as nat,
                    database.posits(),
                    database.generator().bound() as nat,
                    variables.map(),
                    kept@,
                ));
            }
            Ok(None)
        },
        ScriptCommand::Search(search_command, query_limit) => {
            let mut own = Bindings::new();
            let rows = search(database, search_command, &mut own)?;
            let limit = effective_limit(*query_limit, maximum);
            let mut columns: Vec<String> = Vec::new();
            let mut k: usize = 0;
            while k < search_command.columns.len()
                invariant
                    k <= search_command.columns@.len(),
                    columns@.map_values(|s: String| s@) == search_command.columns@.map_values(|c: String| c@).take(k as int),
                decreases search_command.columns@.len() - k,
            {
                let c = search_command.columns[k].clone();
                let ghost before = columns@;
                columns.push(c);
                proof {
                    assert(columns@.map_values(|s: String| s@) =~= before.map_values(|s: String| s@).push(c@));
                    assert(search_command.columns@.map_values(|c: String| c@).take(k + 1) =~= search_command.columns@.map_values(
                        |c: String| c@,
                    ).take(k as int).push(search_command.columns@[k as int]@));
                }
                k = k + 1;
            }
            assert(search_command.columns@.map_values(|c: String| c@).take(search_command.columns@.len() as int)
                =~= search_command.columns@.map_values(|c: String| c@));
            Ok(Some((columns, rows, limit)))
        },
    }
}

/// Runs the commands of a script in turn, with variables of the script for
/// `add posit` and variables of its own for each search, and collects each
/// search's rows within its limit: the `limit` of the search, at most
/// `maximum` where that is given. Stops at the first command that fails.
pub fn execute_collect_multi(database: &mut Database, commands: &Vec<ScriptCommand>, maximum: Option<usize>) -> (r: Result<
    Vec<CollectedSearch>,
    DatabaseError,
>)
    ensures
        r matches Ok(results) ==> exists|ds: Seq<Database>, bs: Seq<BindingMap>, outs: Seq<Option<SearchOutput>>|
            #[trigger] script_prefix(commands@, maximum, ds, bs, outs, commands@.len() as int) && ds[0] == *old(database)
                && ds.last() == *final(database) && results@.map_values(|c: CollectedSearch| collected_view(c))
                == collected(outs),
        r is Err ==> exists|ds: Seq<Database>, bs: Seq<BindingMap>, outs: Seq<Option<SearchOutput>>, k: int|
            #[trigger] script_prefix(commands@, maximum, ds, bs, outs, k) && ds[0] == *old(database) && k < commands@.len()
                && command_refused(commands@[k], ds[k], bs[k]),
{
    let mut variables = Bindings::new();
    let ghost mut ds: Seq<Database> = seq![*database];
    let ghost mut bs: Seq<BindingMap> = seq![variables.map()];
    let ghost mut outs: Seq<Option<SearchOutput>> = Seq::empty();
    let mut results: Vec<CollectedSearch> = Vec::new();
    let mut i: usize = 0;
    while i < commands.len()
        invariant
            i <= commands@.len(),
            script_prefix(commands@, maximum, ds, bs, outs, i as int),
            ds[0] == *old(database),
            ds.last() == *database,
            bs.last() == variables.map(),
            results@.map_values(|c: CollectedSearch| collected_view(c)) == collected(outs),
        decreases commands@.len() - i,
    {
        let out = match run_command(database, &commands[i], &mut variables, maximum) {
            Ok(out) => out,
            Err(e) => {
                proof {
                    assert(script_prefix(commands@, maximum, ds, bs, outs, i as int));
                }
                return Err(e);
            },
        };
        let ghost view: Option<SearchOutput> = output_view(out);
        match out {
            Some((columns, mut rows, limit)) => {
                let ghost all = rows@.map_values(|cells: Vec<ResultCell>| cells_view(cells@));
                let mut limited = false;
                match limit {
                    Some(l) => {
                        if rows.len() > l {
                            rows.truncate(l);
                            limited = true;
                            assert(rows@.map_values(|cells: Vec<ResultCell>| cells_view(cells@)) =~= all.take(l as int));
                        }
                    },
                    None => {},
                }
                let collected_search = CollectedSearch { columns, rows, limited };
                let ghost before = results@;
                results.push(collected_search);
                proof {
                    assert(results@.map_values(|c: CollectedSearch| collected_view(c)) =~= before.map_values(
                        |c: CollectedSearch| collected_view(c),
                    ).push(collected_view(collected_search)));
                }
            },
            None => {},
        }
        proof {
            let old_ds = ds;
            let old_bs = bs;
            let old_outs = outs;
            ds = ds.push(*database);
            bs = bs.push(variables.map());
            outs = outs.push(view);
            assert forall|q: int| 0 <= q < i + 1 implies command_effect(#[trigger] commands@[q], maximum, ds[q], bs[q], ds[q + 1], bs[q + 1], outs[q]) by {
                if q < i {
                    assert(ds[q] == old_ds[q] && ds[q + 1] == old_ds[q + 1] && bs[q] == old_bs[q] && bs[q + 1] == old_bs[q + 1]
                        && outs[q] == old_outs[q]);
                }
            }
            assert(outs.drop_last() =~= old_outs);
        }
        i = i + 1;
    }
    Ok(results)
}

/// Runs the commands of a script in turn as `execute_collect_multi` does,
/// but collects the rows of all searches together: the columns of the first
/// search, and each search's rows appended while the count of rows stays
/// below that search's limit; marked limited where one search ran and its
/// limit refused a row.
pub fn execute_collect(database: &mut Database, commands: &Vec<ScriptCommand>, maximum: Option<usize>) -> (r: Result<
    CollectedSearch,
    DatabaseError,
>)
    ensures
        r matches Ok(result) ==> exists|ds: Seq<Database>, bs: Seq<BindingMap>, outs: Seq<Option<SearchOutput>>|
            #[trigger] script_prefix(commands@, maximum, ds, bs, outs, commands@.len() as int) && ds[0] == *old(database)
                && ds.last() == *final(database) && ({
                let (columns, rows, searches, limited) = accumulated(outs);
                &&& result.columns@.map_values(|s: String| s@) == match columns {
                    Some(c) => c,
                    None => Seq::empty(),
                }
                &&& result.rows@.map_values(|cells: Vec<ResultCell>| cells_view(cells@)) == rows
                &&& result.limited == (searches == 1 && limited)
            }),
        r is Err ==> exists|ds: Seq<Database>, bs: Seq<BindingMap>, outs: Seq<Option<SearchOutput>>, k: int|
            #[trigger] script_prefix(commands@, maximum, ds, bs, outs, k) && ds[0] == *old(database) && k < commands@.len()
                && command_refused(commands@[k], ds[k], bs[k]),
{
    let mut variables = Bindings::new();
    let ghost mut ds: Seq<Database> = seq![*database];
    let ghost mut bs: Seq<BindingMap> = seq![variables.map()];
    let ghost mut outs: Seq<Option<SearchOutput>> = Seq::empty();
    let mut columns: Option<Vec<String>> = None;
    let mut all_rows: Vec<Vec<ResultCell>> = Vec::new();
    let mut searches: usize = 0;
    let mut limited = false;
    let mut i: usize = 0;
    while i < commands.len()
        invariant
            i <= commands@.len(),
            script_prefix(commands@, maximum, ds, bs, outs, i as int),
            ds[0] == *old(database),
            ds.last() == *database,
            bs.last() == variables.map(),
            searches <= i,
            accumulated(outs) == (
                match columns {
                    Some(c) => Some(c@.map_values(|s: String| s@)),
                    None => None,
                },
                all_rows@.map_values(|cells: Vec<ResultCell>| cells_view(cells@)),
                searches as nat,
                limited,
            ),
        decreases commands@.len() - i,
    {
        let out = match run_command(database, &commands[i], &mut variables, maximum) {
            Ok(out) => out,
            Err(e) => {
                proof {
                    assert(script_prefix(commands@, maximum, ds, bs, outs, i as int));
                }
                return Err(e);
            },
        };
        let ghost view: Option<SearchOutput> = output_view(out);
        proof {
            let old_ds = ds;
            let old_bs = bs;
            let old_outs = outs;
            ds = ds.push(*database);
            bs = bs.push(variables.map());
            outs = outs.push(view);
            assert forall|q: int| 0 <= q < i + 1 implies command_effect(#[trigger] commands@[q], maximum, ds[q], bs[q], ds[q + 1], bs[q + 1], outs[q]) by {
                if q < i {
                    assert(ds[q] == old_ds[q] && ds[q + 1] == old_ds[q + 1] && bs[q] == old_bs[q] && bs[q + 1] == old_bs[q + 1]
                        && outs[q] == old_outs[q]);
                }
            }
            assert(outs.drop_last() =~= old_outs);
        }
        match out {
            Some((cols, rows, limit)) => {
                let ghost acc = all_rows@.map_values(|cells: Vec<ResultCell>| cells_view(cells@));
                let ghost more = rows@.map_values(|cells: Vec<ResultCell>| cells_view(cells@));
                let ghost room: int = match limit {
                    Some(l) => if l >= acc.len() {
                        l - acc.len()
                    } else {
                        0
                    },
                    None => more.len() as int,
                };
                if columns.is_none() {
                    columns = Some(cols);
                }
                let mut k: usize = 0;
                let mut refused = false;
                while k < rows.len()
                    invariant
                        k <= rows@.len(),
                        more == rows@.map_values(|cells: Vec<ResultCell>| cells_view(cells@)),
                        room == match limit {
                            Some(l) => if l >= acc.len() {
                                l - acc.len()
                            } else {
                                0int
                            },
                            None => more.len() as int,
                        },
                        refused ==> more.len() > room,
                        !refused ==> k <= room || k == 0 && room < 0,
                        !refused ==> all_rows@.map_values(|cells: Vec<ResultCell>| cells_view(cells@)) == acc + more.take(
                            k as int,
                        ),
                        refused ==> all_rows@.map_values(|cells: Vec<ResultCell>| cells_view(cells@)) == acc + more.take(room),
                        refused ==> k == rows@.len(),
                        room >= 0,
                    decreases rows@.len() - k,
                {
                    let under = match limit {
                        Some(l) => all_rows.len() < l,
                        None => true,
                    };
                    if !under {
                        refused = true;
                        k = rows.len();
                    } else {
                        let ghost before = all_rows@;
                        let row = crate::runner::copy_row(&rows[k]);
                        all_rows.push(row);
                        proof {
                            assert(all_rows@.map_values(|cells: Vec<ResultCell>| cells_view(cells@)) =~= before.map_values(
                                |cells: Vec<ResultCell>| cells_view(cells@),
                            ).push(more[k as int]));
                            assert(more.take(k + 1) =~= more.take(k as int).push(more[k as int]));
                        }
                        k = k + 1;
                    }
                }
                proof {
                    if !refused {
                        assert(more.take(more.len() as int) =~= more);
                    }
                }
                if refused {
                    limited = true;
                }
                searches = searches + 1;
            },
            None => {},
        }
        i = i + 1;
    }
    let columns = match columns {
        Some(c) => c,
        None => Vec::new(),
    };
    let limited = searches == 1 && limited;
    Ok(CollectedSearch { columns, rows: all_rows, limited })
}

/// A copy of a row of cells.
fn copy_row(row: &Vec<ResultCell>) -> (r: Vec<ResultCell>)
    ensures
        cells_view(r@) == cells_view(row@),
{
    let mut out: Vec<ResultCell> = Vec::new();
    let mut k: usize = 0;
    while k < row.len()
        invariant
            k <= row@.len(),
            cells_view(out@) == cells_view(row@).take(k as int),
        decreases row@.len() - k,
    {
        let cell = ResultCell::new(row[k].kind, crate::text::text(row[k].text.as_str()));
        let ghost before = out@;
        out.push(cell);
        proof {
            assert(cells_view(out@) =~= cells_view(before).push((row@[k as int].kind, row@[k as int].text@)));
            assert(cells_view(row@).take(k + 1) =~= cells_view(row@).take(k as int).push(cells_view(row@)[k as int]));
        }
        k = k + 1;
    }
    assert(cells_view(row@).take(row@.len() as int) =~= cells_view(row@));
    out
}

} // verus!
