use command_registry::service::AddOutcome;
use command_registry::service::DeleteOutcome;
use command_registry::service::EditOutcome;
use command_registry::service::ImportOutcome;
use command_registry::service::InvokeOutcome;
use command_registry::service::RegistryService;
use command_registry::service::SearchOutcome;
use command_registry::store::Database;

fn s(t: &str) -> String {
    t.to_string()
}

fn fresh() -> RegistryService {
    RegistryService::new(Database::new())
}

#[test]
fn add_outside_home_scope_is_denied() {
    let mut svc = fresh();
    let r = svc.add_command(&s("cat"), &s("meow"), 1, false, 0);
    assert_eq!(r, AddOutcome::ScopeDenied);
    assert!(svc.list_commands().is_empty());
}

#[test]
fn add_existing_name_is_reported() {
    let mut svc = fresh();
    assert_eq!(svc.add_command(&s("cat"), &s("meow"), 1, true, 0), AddOutcome::Added);
    assert_eq!(svc.add_command(&s("cat"), &s("purr"), 2, true, 5), AddOutcome::AlreadyExists);
    assert_eq!(svc.list_commands().len(), 1);
    assert_eq!(svc.get_stats(&s("cat")).unwrap().owner_id, 1);
}

#[test]
fn add_command_now_creates_a_fresh_row() {
    let mut svc = fresh();
    assert_eq!(svc.add_command_now(&s("cat"), &s("meow"), 9, true), AddOutcome::Added);
    let c = svc.get_stats(&s("cat")).unwrap();
    assert_eq!(c.owner_id, 9);
    assert_eq!(c.use_count, 0);
    assert!(c.created_at > 1_500_000_000);
}

#[test]
fn delete_by_non_owner_without_override_is_denied_and_keeps_the_command() {
    let mut svc = fresh();
    assert_eq!(svc.add_command(&s("cat"), &s("meow"), 1, true, 0), AddOutcome::Added);
    let r = svc.delete_command(&s("cat"), 2, false);
    assert_eq!(r, DeleteOutcome::PermissionDenied);
    assert!(svc.get_stats(&s("cat")).is_ok());
}

#[test]
fn delete_by_owner_succeeds() {
    let mut svc = fresh();
    assert_eq!(svc.add_command(&s("cat"), &s("meow"), 1, true, 0), AddOutcome::Added);
    assert_eq!(svc.delete_command(&s("cat"), 1, false), DeleteOutcome::Deleted);
    assert!(svc.get_stats(&s("cat")).is_err());
}

#[test]
fn delete_with_override_succeeds_for_non_owner() {
    let mut svc = fresh();
    assert_eq!(svc.add_command(&s("cat"), &s("meow"), 1, true, 0), AddOutcome::Added);
    assert_eq!(svc.delete_command(&s("cat"), 2, true), DeleteOutcome::Deleted);
}

#[test]
fn delete_missing_is_not_found() {
    let mut svc = fresh();
    assert_eq!(svc.delete_command(&s("cat"), 1, true), DeleteOutcome::NotFound);
}

#[test]
fn edit_by_non_owner_without_override_is_denied() {
    let mut svc = fresh();
    assert_eq!(svc.add_command(&s("cat"), &s("meow"), 1, true, 0), AddOutcome::Added);
    let r = svc.edit_command(&s("cat"), &s("kitty"), &s("prr"), 2, false);
    assert_eq!(r, EditOutcome::PermissionDenied);
    assert_eq!(svc.get_stats(&s("cat")).unwrap().response, "meow");
}

#[test]
fn edit_to_colliding_name_is_a_conflict_and_changes_nothing() {
    let mut svc = fresh();
    assert_eq!(svc.add_command(&s("cat"), &s("meow"), 1, true, 0), AddOutcome::Added);
    assert_eq!(svc.add_command(&s("dog"), &s("woof"), 1, true, 0), AddOutcome::Added);
    let r = svc.edit_command(&s("cat"), &s("dog"), &s("zzz"), 1, false);
    assert_eq!(r, EditOutcome::NameConflict);
    assert_eq!(svc.get_stats(&s("cat")).unwrap().response, "meow");
    assert_eq!(svc.get_stats(&s("dog")).unwrap().response, "woof");
}

#[test]
fn edit_by_owner_updates_name_and_response() {
    let mut svc = fresh();
    assert_eq!(svc.add_command(&s("cat"), &s("meow"), 1, true, 77), AddOutcome::Added);
    assert_eq!(svc.edit_command(&s("cat"), &s("kitty"), &s("prr"), 1, false), EditOutcome::Updated);
    let c = svc.get_stats(&s("kitty")).unwrap();
    assert_eq!(c.response, "prr");
    assert_eq!(c.created_at, 77);
}

#[test]
fn service_edit_missing_is_not_found() {
    let mut svc = fresh();
    assert_eq!(svc.edit_command(&s("a"), &s("b"), &s("c"), 1, true), EditOutcome::NotFound);
}

#[test]
fn invoke_returns_the_response_and_counts_the_lookup() {
    let mut svc = fresh();
    assert_eq!(svc.add_command(&s("cat"), &s("meow"), 1, true, 0), AddOutcome::Added);
    match svc.invoke_command(&s("cat")) {
        InvokeOutcome::Response(text) => assert_eq!(text, "meow"),
        InvokeOutcome::NotFound => panic!("command should exist"),
    }
    assert_eq!(svc.get_stats(&s("cat")).unwrap().use_count, 1);
}

#[test]
fn invoke_missing_changes_nothing() {
    let mut svc = fresh();
    match svc.invoke_command(&s("cat")) {
        InvokeOutcome::Response(_) => panic!("nothing should match"),
        InvokeOutcome::NotFound => {},
    }
    assert!(svc.list_commands().is_empty());
}

#[test]
fn search_finds_exact_and_substring_matches_in_order() {
    let mut svc = fresh();
    assert_eq!(svc.add_command(&s("cat"), &s("a"), 1, true, 0), AddOutcome::Added);
    assert_eq!(svc.add_command(&s("category"), &s("b"), 1, true, 0), AddOutcome::Added);
    assert_eq!(svc.add_command(&s("dog"), &s("c"), 1, true, 0), AddOutcome::Added);
    match svc.search_commands(&s("cat")) {
        SearchOutcome::Results(v) => {
            let names: Vec<String> = v.into_iter().map(|c| c.name).collect();
            assert_eq!(names, vec!["cat".to_string(), "category".to_string()]);
        },
        SearchOutcome::NoResults => panic!("matches expected"),
    }
}

#[test]
fn search_without_matches_reports_no_results() {
    let mut svc = fresh();
    assert_eq!(svc.add_command(&s("cat"), &s("a"), 1, true, 0), AddOutcome::Added);
    match svc.search_commands(&s("zzz")) {
        SearchOutcome::Results(_) => panic!("nothing should match"),
        SearchOutcome::NoResults => {},
    }
}

#[test]
fn top_commands_truncates_to_the_most_used() {
    let mut svc = fresh();
    for (name, uses) in [("a", 1u32), ("b", 3), ("c", 2)] {
        assert_eq!(svc.add_command(&s(name), &s("x"), 1, true, 0), AddOutcome::Added);
        for _ in 0..uses {
            match svc.invoke_command(&s(name)) {
                InvokeOutcome::Response(_) => {},
                InvokeOutcome::NotFound => panic!("command should exist"),
            }
        }
    }
    let top: Vec<String> = svc.top_commands(2).into_iter().map(|c| c.name).collect();
    assert_eq!(top, vec!["b".to_string(), "c".to_string()]);
}

#[test]
fn import_replacing_a_non_empty_store_keeps_exactly_the_new_entries() {
    let mut svc = fresh();
    assert_eq!(svc.add_command(&s("old"), &s("x"), 1, true, 0), AddOutcome::Added);
    let entries = vec![
        (s("a"), s("1")),
        (s("b"), s("2")),
        (s("c"), s("3")),
    ];
    let report = svc.import_commands(&entries, 9, true, 50);
    assert_eq!(report.added, 3);
    assert_eq!(report.skipped_existing, 0);
    let names: Vec<String> = svc.list_commands().into_iter().map(|c| c.name).collect();
    assert_eq!(names, vec![s("a"), s("b"), s("c")]);
    assert!(svc.get_stats(&s("old")).is_err());
    assert_eq!(svc.get_stats(&s("a")).unwrap().owner_id, 9);
    assert_eq!(svc.get_stats(&s("a")).unwrap().created_at, 50);
}

#[test]
fn import_without_replacing_skips_existing_names() {
    let mut svc = fresh();
    assert_eq!(svc.add_command(&s("a"), &s("keep"), 1, true, 0), AddOutcome::Added);
    let entries = vec![(s("a"), s("new")), (s("b"), s("2"))];
    let report = svc.import_commands(&entries, 9, false, 50);
    assert_eq!(report.added, 1);
    assert_eq!(report.skipped_existing, 1);
    assert_eq!(svc.get_stats(&s("a")).unwrap().response, "keep");
    assert_eq!(svc.get_stats(&s("b")).unwrap().response, "2");
}

#[test]
fn import_from_json_reads_the_wire_format() {
    let mut svc = fresh();
    let raw = "{\"commands\": {\"cat\": \"meow\", \"dog\": \"woof\"}}";
    match svc.import_from_json(raw, 5, true, 10) {
        ImportOutcome::Done(report) => {
            assert_eq!(report.added, 2);
            assert_eq!(report.skipped_existing, 0);
        },
        ImportOutcome::Invalid => panic!("payload is well-formed"),
    }
    assert_eq!(svc.get_stats(&s("cat")).unwrap().response, "meow");
    assert_eq!(svc.get_stats(&s("dog")).unwrap().response, "woof");
}

#[test]
fn import_from_json_rejects_malformed_text() {
    let mut svc = fresh();
    assert_eq!(svc.import_from_json("not json", 5, true, 10), ImportOutcome::Invalid);
    assert!(svc.list_commands().is_empty());
}

#[test]
fn import_from_json_rejects_a_missing_commands_field() {
    let mut svc = fresh();
    assert_eq!(svc.import_from_json("{\"other\": {}}", 5, true, 10), ImportOutcome::Invalid);
    assert!(svc.list_commands().is_empty());
}

#[test]
fn import_from_json_rejects_non_string_values_before_any_write() {
    let mut svc = fresh();
    assert_eq!(svc.add_command(&s("keep"), &s("x"), 1, true, 0), AddOutcome::Added);
    let raw = "{\"commands\": {\"cat\": \"meow\", \"bad\": 3}}";
    assert_eq!(svc.import_from_json(raw, 5, true, 10), ImportOutcome::Invalid);
    assert!(svc.get_stats(&s("keep")).is_ok());
    assert!(svc.get_stats(&s("cat")).is_err());
}

#[test]
fn import_skips_entries_with_empty_name_or_response() {
    let mut svc = fresh();
    let entries = vec![(s(""), s("x")), (s("a"), s("")), (s("b"), s("2"))];
    let report = svc.import_commands(&entries, 9, true, 50);
    assert_eq!(report.added, 1);
    assert_eq!(report.skipped_existing, 2);
    let names: Vec<String> = svc.list_commands().into_iter().map(|c| c.name).collect();
    assert_eq!(names, vec![s("b")]);
}

#[test]
fn import_from_json_skips_an_empty_key() {
    let mut svc = fresh();
    let raw = "{\"commands\": {\"\": \"x\", \"ok\": \"y\"}}";
    match svc.import_from_json(raw, 5, true, 10) {
        ImportOutcome::Done(report) => {
            assert_eq!(report.added, 1);
            assert_eq!(report.skipped_existing, 1);
        },
        ImportOutcome::Invalid => panic!("payload is well-formed"),
    }
    assert!(svc.get_stats(&s("ok")).is_ok());
}
