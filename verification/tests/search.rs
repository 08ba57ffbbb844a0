use positorium::command::{add_posit, AddPositCommand, AppearanceTerm, Bindings, PositStructure, TermKind};
use positorium::construct::Database;
use positorium::datatype::{CalendarDate, Time, TimeType};
use positorium::error::DatabaseError;
use positorium::literal::{LiteralFamily, LiteralValue};
use positorium::search::{
    TimePairCondition, join_rows, pattern_candidates, search, search_pattern, search_patterns, seed_rows, SearchCommand, SearchPattern,
    SearchSlot, SearchTerm, TimeCondition, TimeRelation,
};
use positorium::conditions::{ValueCondition, ValueOperator};
use positorium::runner::{execute_collect, execute_collect_multi, ScriptCommand};
use positorium::traqula::ResultCellKind;

fn day(d: u8) -> Time {
    Time::from_time_type(TimeType::Date(CalendarDate::new(2024, 5, d).unwrap()))
}

fn string(text: &str) -> LiteralValue {
    LiteralValue::new(format!("\"{}\"", text), LiteralFamily::String).unwrap()
}

fn slot(slot: SearchSlot, role: &str) -> SearchTerm {
    SearchTerm { slot, role: role.to_string() }
}

/// Two people, `a` named Ada on the 6th and `b` named Bob on the 7th.
fn people() -> (Database, Bindings) {
    let mut database = Database::in_memory().unwrap();
    database.create_roles(vec![("person".to_string(), false), ("name".to_string(), false)]).unwrap();
    let mut bindings = Bindings::new();
    let command = AddPositCommand {
        structures: vec![
            PositStructure {
                variable: None,
                appearances: vec![AppearanceTerm {
                    kind: TermKind::Insert,
                    variable: "a".to_string(),
                    role: "person".to_string(),
                }],
                value: Some(string("Ada")),
                time: Some(day(6)),
            },
            PositStructure {
                variable: None,
                appearances: vec![AppearanceTerm {
                    kind: TermKind::Insert,
                    variable: "b".to_string(),
                    role: "person".to_string(),
                }],
                value: Some(string("Bob")),
                time: Some(day(7)),
            },
        ],
    };
    add_posit(&mut database, &command, &mut bindings).unwrap();
    (database, bindings)
}

#[test]
fn candidates_hold_the_roles_time_and_value() {
    let (database, _) = people();
    let roles = vec!["person".to_string()];
    assert_eq!(pattern_candidates(&database, &roles, None, &None).unwrap().len(), 2);
    assert_eq!(pattern_candidates(&database, &roles, Some(day(7)), &None).unwrap().len(), 1);
    assert_eq!(pattern_candidates(&database, &roles, None, &Some(string("Ada"))).unwrap().len(), 1);
    assert_eq!(pattern_candidates(&database, &roles, Some(day(7)), &Some(string("Ada"))).unwrap().len(), 0);
    let both = vec!["person".to_string(), "name".to_string()];
    assert_eq!(pattern_candidates(&database, &both, None, &None).unwrap().len(), 0);
}

#[test]
fn candidates_refuse_unknown_roles_and_incomparable_values() {
    let (database, _) = people();
    let unknown = vec!["nobody".to_string()];
    assert!(matches!(pattern_candidates(&database, &unknown, None, &None), Err(DatabaseError::UnknownRole(_))));
    let number = LiteralValue::new("1".to_string(), LiteralFamily::Integer).unwrap();
    let roles = vec!["person".to_string()];
    assert!(matches!(pattern_candidates(&database, &roles, None, &Some(number)), Err(DatabaseError::Execution(_))));
}

#[test]
fn a_pattern_binds_its_posit_variable_to_what_the_slots_admit() {
    let (database, mut bindings) = people();
    let ada = bindings.lookup("a").unwrap();
    let pattern = SearchPattern {
        variable: Some("p".to_string()),
        terms: vec![slot(SearchSlot::Recall("a".to_string()), "person")],
        time: None,
        value: None,
        value_variable: None,
        time_variable: None,
    };
    let found = search_pattern(&database, &pattern, &mut bindings).unwrap();
    assert_eq!(found.len(), 1);
    assert_eq!(bindings.lookup("p").unwrap(), found.things());
    let everyone = SearchPattern {
        variable: Some("q".to_string()),
        terms: vec![slot(SearchSlot::Insert("x".to_string()), "person")],
        time: None,
        value: None,
        value_variable: None,
        time_variable: None,
    };
    assert_eq!(search_pattern(&database, &everyone, &mut bindings).unwrap().len(), 2);
    assert!(bindings.lookup("x").unwrap().is_empty());
    let anyone = SearchPattern {
        variable: None,
        terms: vec![slot(SearchSlot::Wildcard, "person")],
        time: Some(day(6)),
        value: None,
        value_variable: None,
        time_variable: None,
    };
    let on_sixth = search_pattern(&database, &anyone, &mut bindings).unwrap();
    assert_eq!(on_sixth.len(), 1);
    assert_eq!(ada.len(), 1);
}

#[test]
fn a_pattern_refuses_an_unbound_recall() {
    let (database, mut bindings) = people();
    let pattern = SearchPattern {
        variable: None,
        terms: vec![slot(SearchSlot::Recall("nobody".to_string()), "person")],
        time: None,
        value: None,
        value_variable: None,
        time_variable: None,
    };
    assert!(matches!(search_pattern(&database, &pattern, &mut bindings), Err(DatabaseError::Execution(_))));
    let empty = SearchPattern {
        variable: Some("p".to_string()),
        terms: Vec::new(),
        time: None,
        value: None,
        value_variable: None,
        time_variable: None,
    };
    assert_eq!(search_pattern(&database, &empty, &mut bindings).unwrap().len(), 0);
    assert!(bindings.lookup("p").is_none());
}

#[test]
fn patterns_make_rows_and_join_on_shared_variables() {
    let (database, mut bindings) = people();
    let ada = bindings.lookup("a").unwrap()[0];
    let named = SearchPattern {
        variable: Some("p".to_string()),
        terms: vec![slot(SearchSlot::Insert("x".to_string()), "person")],
        time: None,
        value: None,
        value_variable: Some("n".to_string()),
        time_variable: None,
    };
    let on_sixth = SearchPattern {
        variable: None,
        terms: vec![slot(SearchSlot::Insert("x".to_string()), "person")],
        time: Some(day(6)),
        value: None,
        value_variable: None,
        time_variable: Some("t".to_string()),
    };
    let found = search_patterns(&database, &vec![named, on_sixth], &mut bindings).unwrap();
    assert_eq!(found.len(), 2);
    assert_eq!(found[0].len(), 2);
    assert_eq!(found[1].len(), 1);
    let first = SearchPattern {
        variable: Some("p".to_string()),
        terms: vec![slot(SearchSlot::Insert("x".to_string()), "person")],
        time: None,
        value: None,
        value_variable: Some("n".to_string()),
        time_variable: None,
    };
    let second = SearchPattern {
        variable: None,
        terms: vec![slot(SearchSlot::Insert("x".to_string()), "person")],
        time: Some(day(6)),
        value: None,
        value_variable: None,
        time_variable: Some("t".to_string()),
    };
    let rows = seed_rows(&database, &first, &found[0]);
    assert_eq!(rows.len(), 2);
    assert_eq!(rows[0].identities.get("x"), Some(ada));
    assert_eq!(rows[0].posits.get("p"), rows[0].slots.get("n"));
    let joined = join_rows(&database, &second, &found[1], &rows);
    assert_eq!(joined.len(), 1);
    assert_eq!(joined[0].identities.get("x"), Some(ada));
    assert_eq!(joined[0].slots.get("t"), Some(found[1].things()[0]));
    assert_eq!(joined[0].posits.get("p"), rows[0].posits.get("p"));
}

fn named_person() -> SearchPattern {
    SearchPattern {
        variable: Some("p".to_string()),
        terms: vec![slot(SearchSlot::Insert("x".to_string()), "person")],
        time: None,
        value: None,
        value_variable: Some("n".to_string()),
        time_variable: Some("t".to_string()),
    }
}

#[test]
fn a_search_returns_the_projected_rows() {
    let (database, mut bindings) = people();
    let ada = bindings.lookup("a").unwrap()[0];
    let command = SearchCommand {
        patterns: vec![named_person()],
        conditions: Vec::new(),
        pair_conditions: Vec::new(),
        value_conditions: Vec::new(),
        columns: vec!["x".to_string(), "n".to_string(), "t".to_string()],
    };
    let rows = search(&database, &command, &mut bindings).unwrap();
    assert_eq!(rows.len(), 2);
    assert_eq!(rows[0][0].kind, ResultCellKind::Thing);
    assert_eq!(rows[0][0].text, ada.to_string());
    assert_eq!(rows[0][1].kind, ResultCellKind::Literal);
    assert_eq!(rows[0][1].text, "\"Ada\"");
    assert_eq!(rows[0][2].kind, ResultCellKind::Time);
    assert_eq!(rows[0][2].text, "2024-05-06");
    assert_eq!(rows[1][1].text, "\"Bob\"");
}

#[test]
fn time_conditions_keep_the_rows_that_meet_them() {
    let (database, mut bindings) = people();
    let command = SearchCommand {
        patterns: vec![named_person()],
        conditions: vec![TimeCondition { variable: "t".to_string(), relation: TimeRelation::After, time: day(6) }],
        pair_conditions: Vec::new(),
        value_conditions: Vec::new(),
        columns: vec!["n".to_string()],
    };
    let rows = search(&database, &command, &mut bindings).unwrap();
    assert_eq!(rows.len(), 1);
    assert_eq!(rows[0][0].text, "\"Bob\"");
    let on_or_before = SearchCommand {
        patterns: vec![named_person()],
        conditions: vec![TimeCondition { variable: "t".to_string(), relation: TimeRelation::AtOrBefore, time: day(7) }],
        pair_conditions: Vec::new(),
        value_conditions: Vec::new(),
        columns: vec!["n".to_string()],
    };
    assert_eq!(search(&database, &on_or_before, &mut bindings).unwrap().len(), 2);
    let by_value = SearchCommand {
        patterns: vec![named_person()],
        conditions: vec![TimeCondition { variable: "n".to_string(), relation: TimeRelation::Same, time: day(6) }],
        pair_conditions: Vec::new(),
        value_conditions: Vec::new(),
        columns: vec!["n".to_string()],
    };
    assert_eq!(search(&database, &by_value, &mut bindings).unwrap().len(), 0);
}

#[test]
fn a_failed_clause_returns_no_rows() {
    let (database, mut bindings) = people();
    let mut later = named_person();
    later.time = Some(day(9));
    let command = SearchCommand {
        patterns: vec![named_person(), later],
        conditions: Vec::new(),
        pair_conditions: Vec::new(),
        value_conditions: Vec::new(),
        columns: vec!["x".to_string()],
    };
    assert_eq!(search(&database, &command, &mut bindings).unwrap().len(), 0);
    let unknown = SearchCommand {
        patterns: vec![SearchPattern {
            variable: None,
            terms: vec![slot(SearchSlot::Wildcard, "nobody")],
            time: None,
            value: None,
            value_variable: None,
            time_variable: None,
        }],
        conditions: Vec::new(),
        pair_conditions: Vec::new(),
        value_conditions: Vec::new(),
        columns: Vec::new(),
    };
    assert!(matches!(search(&database, &unknown, &mut bindings), Err(DatabaseError::UnknownRole(_))));
}

#[test]
fn a_script_runs_its_commands_and_collects_each_search() {
    let mut database = Database::in_memory().unwrap();
    let person = |variable: &str| AppearanceTerm {
        kind: TermKind::Insert,
        variable: variable.to_string(),
        role: "person".to_string(),
    };
    let commands = vec![
        ScriptCommand::AddRole(vec!["person".to_string(), "name".to_string()]),
        ScriptCommand::AddPosit(AddPositCommand {
            structures: vec![
                PositStructure { variable: None, appearances: vec![person("a")], value: Some(string("Ada")), time: Some(day(6)) },
                PositStructure { variable: None, appearances: vec![person("b")], value: Some(string("Bob")), time: Some(day(7)) },
            ],
        }),
        ScriptCommand::Search(
            SearchCommand {
                patterns: vec![named_person()],
                conditions: Vec::new(),
                pair_conditions: Vec::new(),
        value_conditions: Vec::new(),
                columns: vec!["n".to_string()],
            },
            Some(1),
        ),
        ScriptCommand::Search(
            SearchCommand {
                patterns: vec![named_person()],
                conditions: Vec::new(),
                pair_conditions: Vec::new(),
        value_conditions: Vec::new(),
                columns: vec!["n".to_string()],
            },
            None,
        ),
    ];
    let results = execute_collect_multi(&mut database, &commands, None).unwrap();
    assert_eq!(results.len(), 2);
    assert_eq!(results[0].rows.len(), 1);
    assert!(results[0].limited);
    assert_eq!(results[0].columns, vec!["n".to_string()]);
    assert_eq!(results[1].rows.len(), 2);
    assert!(!results[1].limited);
    let capped = execute_collect_multi(&mut database, &vec![commands.into_iter().nth(3).unwrap()], Some(1)).unwrap();
    assert_eq!(capped[0].rows.len(), 1);
    assert!(capped[0].limited);
    let refused = vec![ScriptCommand::AddPosit(AddPositCommand {
        structures: vec![PositStructure { variable: None, appearances: vec![person("c")], value: None, time: Some(day(8)) }],
    })];
    assert!(execute_collect_multi(&mut database, &refused, None).is_err());
}

#[test]
fn conditions_between_times_compare_the_rows_times() {
    let (database, mut bindings) = people();
    let second = SearchPattern {
        variable: None,
        terms: vec![slot(SearchSlot::Insert("y".to_string()), "person")],
        time: None,
        value: None,
        value_variable: Some("m".to_string()),
        time_variable: Some("u".to_string()),
    };
    let command = SearchCommand {
        patterns: vec![named_person(), second],
        conditions: Vec::new(),
        pair_conditions: vec![TimePairCondition {
            left: "t".to_string(),
            operator: ValueOperator::Less,
            right: "u".to_string(),
        }],
        value_conditions: Vec::new(),
        columns: vec!["n".to_string(), "m".to_string()],
    };
    let rows = search(&database, &command, &mut bindings).unwrap();
    assert_eq!(rows.len(), 1);
    assert_eq!(rows[0][0].text, "\"Ada\"");
    assert_eq!(rows[0][1].text, "\"Bob\"");
}

fn by_name(operator: ValueOperator, value: LiteralValue) -> SearchCommand {
    SearchCommand {
        patterns: vec![named_person()],
        conditions: Vec::new(),
        pair_conditions: Vec::new(),
        value_conditions: vec![ValueCondition { variable: "n".to_string(), operator, value }],
        columns: vec!["n".to_string()],
    }
}

#[test]
fn value_conditions_keep_the_rows_whose_values_compare() {
    let (database, mut bindings) = people();
    let rows = search(&database, &by_name(ValueOperator::Nominally, string("Bob")), &mut bindings).unwrap();
    assert_eq!(rows.len(), 1);
    assert_eq!(rows[0][0].text, "\"Bob\"");
    assert_eq!(search(&database, &by_name(ValueOperator::Exactly, string("Ada")), &mut bindings).unwrap().len(), 1);
    assert_eq!(search(&database, &by_name(ValueOperator::Possibly, string("Eve")), &mut bindings).unwrap().len(), 0);
    let number = LiteralValue::new("1".to_string(), LiteralFamily::Integer).unwrap();
    assert!(matches!(
        search(&database, &by_name(ValueOperator::Less, number), &mut bindings),
        Err(DatabaseError::Execution(_))
    ));
    let mut unknown = by_name(ValueOperator::Nominally, string("Ada"));
    unknown.value_conditions[0].variable = "nobody".to_string();
    assert!(matches!(search(&database, &unknown, &mut bindings), Err(DatabaseError::Execution(_))));
}

#[test]
fn collecting_together_appends_each_search_within_its_limit() {
    let (mut database, _) = people();
    let names = |limit: Option<usize>, column: &str| {
        ScriptCommand::Search(
            SearchCommand {
                patterns: vec![named_person()],
                conditions: Vec::new(),
                pair_conditions: Vec::new(),
                value_conditions: Vec::new(),
                columns: vec![column.to_string()],
            },
            limit,
        )
    };
    let together = execute_collect(&mut database, &vec![names(None, "n"), names(Some(3), "x")], None).unwrap();
    assert_eq!(together.columns, vec!["n".to_string()]);
    assert_eq!(together.rows.len(), 3);
    assert!(!together.limited);
    let single = execute_collect(&mut database, &vec![names(Some(1), "n")], None).unwrap();
    assert_eq!(single.rows.len(), 1);
    assert!(single.limited);
    let empty = execute_collect(&mut database, &Vec::new(), None).unwrap();
    assert!(empty.columns.is_empty() && empty.rows.is_empty() && !empty.limited);
}

#[test]
fn conditions_between_values_compare_the_rows_values() {
    let (database, mut bindings) = people();
    let second = SearchPattern {
        variable: None,
        terms: vec![slot(SearchSlot::Insert("y".to_string()), "person")],
        time: None,
        value: None,
        value_variable: Some("m".to_string()),
        time_variable: Some("u".to_string()),
    };
    let same = |operator: ValueOperator, left: &str, right: &str| SearchCommand {
        patterns: vec![named_person(), second_pattern(&second)],
        conditions: Vec::new(),
        pair_conditions: vec![TimePairCondition { left: left.to_string(), operator, right: right.to_string() }],
        value_conditions: Vec::new(),
        columns: vec!["n".to_string(), "m".to_string()],
    };
    let rows = search(&database, &same(ValueOperator::Nominally, "n", "m"), &mut bindings).unwrap();
    assert_eq!(rows.len(), 2);
    assert_eq!(rows[0][0].text, rows[0][1].text);
    // between a value and a time the condition is one between times only
    assert_eq!(search(&database, &same(ValueOperator::Less, "n", "u"), &mut bindings).unwrap().len(), 4);
    assert!(matches!(
        search(&database, &same(ValueOperator::Less, "n", "m"), &mut bindings),
        Err(DatabaseError::Execution(_))
    ));
}

fn second_pattern(p: &SearchPattern) -> SearchPattern {
    SearchPattern {
        variable: p.variable.clone(),
        terms: vec![slot(SearchSlot::Insert("y".to_string()), "person")],
        time: p.time,
        value: None,
        value_variable: p.value_variable.clone(),
        time_variable: p.time_variable.clone(),
    }
}
