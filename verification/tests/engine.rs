use positorium::command::{
    add_posit, cartesian_tuples, order_by_cardinality, AddPositCommand, AppearanceTerm, Bindings, PositStructure,
    TermKind,
};
use positorium::construct::{Appearance, AppearanceSet, Database, Role};
use positorium::datatype::{CalendarDate, Time, TimeType};
use positorium::literal::{LiteralFamily, LiteralValue};
use positorium::results::{posits_involving_thing, ResultSet};
use positorium::script::{
    effective_limit, execution_step, execution_warnings, script_counts, start_execution, ExecutionAction,
    ExecutionEvent,
};
use positorium::traqula::ResultSetMode;

#[test]
fn command_count_uses_the_grammar_not_literal_semicolons() {
    let script = "add role label; add posit [{(+thing, label)}, \"a;b\", @NOW];";
    assert_eq!(script_counts(script.as_bytes()).unwrap(), (2, 0));
}

#[test]
fn only_searches_with_return_create_result_sets() {
    let script = r#"
            search [{(?thing, label), ...}, "a", *]
            or add posit [{(+thing, label)}, "a", @NOW];
            search [{(?thing, label), ...}, ?value, *] return ?thing, ?value;
        "#;
    assert_eq!(script_counts(script.as_bytes()).unwrap(), (2, 1));
}

#[test]
fn malformed_scripts_are_refused() {
    assert!(script_counts(b"add role a").is_err());
    assert!(script_counts(b"add role a;;").is_err());
    assert!(script_counts(b"add posit [{(+x, a)}, \"open, @NOW];").is_err());
    assert_eq!(script_counts(b"  \n").unwrap(), (0, 0));
}

#[test]
fn result_sets_combine_as_sets() {
    let mut a = ResultSet::new();
    assert!(a.is_empty());
    assert_eq!(a.mode(), ResultSetMode::Empty);
    a.insert_many(&[5, 1, 3, 1]);
    assert_eq!(a.things(), vec![1, 3, 5]);
    assert_eq!(a.mode(), ResultSetMode::Multi);
    let mut b = ResultSet::new();
    b.insert(3);
    assert_eq!(b.mode(), ResultSetMode::Thing);
    b.insert(7);
    let mut i = ResultSet::new();
    i.union_with(&a);
    i.intersect_with(&b);
    assert_eq!(i.things(), vec![3]);
    let mut u = ResultSet::new();
    u.union_with(&a);
    u.union_with(&b);
    assert_eq!(u.things(), vec![1, 3, 5, 7]);
    let mut d = ResultSet::new();
    d.union_with(&a);
    d.difference_with(&b);
    assert_eq!(d.things(), vec![1, 5]);
    let mut x = ResultSet::new();
    x.union_with(&a);
    x.symmetric_difference_with(&b);
    assert_eq!(x.things(), vec![1, 5, 7]);
    assert!(x.contains(7) && !x.contains(3));
    assert_eq!(x.len(), 3);
}

#[test]
fn posits_are_found_by_the_things_in_them() {
    let mut database = Database::in_memory().unwrap();
    let created = database.create_roles(vec![("name".to_string(), false)]).unwrap();
    let role: Role = created[0].0.clone();
    let time = Time::from_time_type(TimeType::Date(CalendarDate::new(2024, 5, 6).unwrap()));
    let value = LiteralValue::new("\"Ada\"".to_string(), LiteralFamily::String).unwrap();
    let set = |t: u64| AppearanceSet::new(vec![Appearance::new(t, role.clone())]).unwrap();
    let kept = database
        .create_literal_posits(vec![(set(42), value.clone(), time), (set(43), value, time)])
        .unwrap();
    let found = posits_involving_thing(&database, 42);
    assert_eq!(found.things(), vec![kept[0].posit()]);
    assert!(posits_involving_thing(&database, 99).is_empty());
}

#[test]
fn the_driver_counts_rows_against_the_limit() {
    assert_eq!(effective_limit(Some(10), Some(3)), Some(3));
    assert_eq!(effective_limit(None, Some(3)), Some(3));
    assert_eq!(effective_limit(Some(2), None), Some(2));
    let state = start_execution(1);
    let (state, action) = execution_step(state, ExecutionEvent::SearchStarted { query_limit: Some(1), maximum: None });
    assert_eq!(action, ExecutionAction::Continue);
    let (state, action) = execution_step(state, ExecutionEvent::RowFound);
    assert_eq!(action, ExecutionAction::Deliver);
    let (state, _) = execution_step(state, ExecutionEvent::RowAnswered { stop: false });
    assert_eq!(state.rows, 1);
    let (state, action) = execution_step(state, ExecutionEvent::RowFound);
    assert_eq!(action, ExecutionAction::EndSearch);
    assert!(state.limited);
    let (state, action) = execution_step(state, ExecutionEvent::CommandDone);
    assert_eq!(action, ExecutionAction::Finish);
    assert!(state.finished);
    let (_, action) = execution_step(start_execution(2), ExecutionEvent::Checked { cancelled: true, expired: false });
    assert_eq!(action, ExecutionAction::Cancelled);
    let (_, action) = execution_step(start_execution(2), ExecutionEvent::Checked { cancelled: false, expired: true });
    assert_eq!(action, ExecutionAction::TimedOut);
}

#[test]
fn legacy_double_equals_earns_a_warning() {
    let warnings = execution_warnings(b"search [{(?x, a)}, ?v, *] where ?v == 1 return ?x;");
    assert_eq!(warnings.len(), 1);
    assert_eq!(warnings[0].code, "legacy-double-equals");
    assert!(execution_warnings(b"search [{(?x, a)}, \"==\", *] /* == */ where ?v = 1 return ?x;").is_empty());
    assert!(execution_warnings(b"where ?v === 1").is_empty());
}

fn term(kind: TermKind, variable: &str, role: &str) -> AppearanceTerm {
    AppearanceTerm { kind, variable: variable.to_string(), role: role.to_string() }
}

#[test]
fn add_posit_creates_a_posit_for_every_combination() {
    let mut database = Database::in_memory().unwrap();
    database.create_roles(vec![("person".to_string(), false), ("name".to_string(), false)]).unwrap();
    let time = Time::from_time_type(TimeType::Date(CalendarDate::new(2024, 5, 6).unwrap()));
    let mut bindings = Bindings::new();
    let first = AddPositCommand {
        structures: vec![
            PositStructure {
                variable: Some("p".to_string()),
                appearances: vec![term(TermKind::Insert, "a", "person")],
                value: Some(LiteralValue::new("\"Ada\"".to_string(), LiteralFamily::String).unwrap()),
                time: Some(time),
            },
            PositStructure {
                variable: None,
                appearances: vec![term(TermKind::Insert, "a", "person")],
                value: Some(LiteralValue::new("\"Bob\"".to_string(), LiteralFamily::String).unwrap()),
                time: Some(time),
            },
        ],
    };
    let kept = add_posit(&mut database, &first, &mut bindings).unwrap();
    // the second structure's `+a` adds a thing to `a`, which then stands for both
    assert_eq!(kept.len(), 3);
    let people = bindings.lookup("a").unwrap();
    assert_eq!(people.len(), 2);
    assert_eq!(bindings.lookup("p").unwrap(), vec![kept[0].posit()]);
    let second = AddPositCommand {
        structures: vec![PositStructure {
            variable: Some("q".to_string()),
            appearances: vec![term(TermKind::Recall, "a", "name")],
            value: Some(LiteralValue::new("1".to_string(), LiteralFamily::Integer).unwrap()),
            time: Some(time),
        }],
    };
    let kept = add_posit(&mut database, &second, &mut bindings).unwrap();
    assert_eq!(kept.len(), 2);
    assert_eq!(bindings.lookup("q").unwrap().len(), 2);
    assert_eq!(posits_involving_thing(&database, people[0]).len(), 3);
    assert_eq!(posits_involving_thing(&database, people[1]).len(), 2);
    let unknown = AddPositCommand {
        structures: vec![PositStructure {
            variable: None,
            appearances: vec![term(TermKind::Recall, "nobody", "name")],
            value: Some(LiteralValue::new("1".to_string(), LiteralFamily::Integer).unwrap()),
            time: Some(time),
        }],
    };
    assert!(add_posit(&mut database, &unknown, &mut bindings).is_err());
    let missing_time = AddPositCommand {
        structures: vec![PositStructure {
            variable: None,
            appearances: vec![term(TermKind::Recall, "a", "name")],
            value: Some(LiteralValue::new("2".to_string(), LiteralFamily::Integer).unwrap()),
            time: None,
        }],
    };
    assert!(add_posit(&mut database, &missing_time, &mut bindings).is_err());
}

#[test]
fn appearances_are_combined_fewest_candidates_first() {
    assert_eq!(order_by_cardinality(&vec![3, 1, 2, 1]), vec![1, 3, 2, 0]);
    let tuples = cartesian_tuples(&vec![vec![1, 2], vec![7, 8]]);
    assert_eq!(tuples, vec![vec![1, 7], vec![1, 8], vec![2, 7], vec![2, 8]]);
    assert_eq!(cartesian_tuples(&vec![vec![1], vec![]]).len(), 0);
}
