use command_registry::store::CustomCommand;
use command_registry::store::Database;
use command_registry::store::StoreError;

fn s(t: &str) -> String {
    t.to_string()
}

#[test]
fn add_then_get_returns_fresh_row() {
    let mut db = Database::new();
    assert!(db.add(&s("cat"), &s("meow"), 7, 100).is_ok());
    let c = db.get(&s("cat")).unwrap();
    assert_eq!(c.name, "cat");
    assert_eq!(c.response, "meow");
    assert_eq!(c.owner_id, 7);
    assert_eq!(c.use_count, 0);
    assert_eq!(c.created_at, 100);
}

#[test]
fn duplicate_add_is_rejected_and_writes_nothing() {
    let mut db = Database::new();
    assert!(db.add(&s("cat"), &s("meow"), 7, 100).is_ok());
    let r = db.add(&s("cat"), &s("purr"), 8, 200);
    assert_eq!(r, Err(StoreError::AlreadyExists));
    let c = db.get(&s("cat")).unwrap();
    assert_eq!(c.response, "meow");
    assert_eq!(c.owner_id, 7);
    assert_eq!(db.all().len(), 1);
}

#[test]
fn names_differing_in_case_are_distinct() {
    let mut db = Database::new();
    assert!(db.add(&s("cat"), &s("a"), 1, 0).is_ok());
    assert!(db.add(&s("Cat"), &s("b"), 1, 0).is_ok());
    assert!(db.is_command(&s("cat")));
    assert!(db.is_command(&s("Cat")));
    assert!(!db.is_command(&s("CAT")));
}

#[test]
fn get_missing_is_not_found() {
    let db = Database::new();
    assert_eq!(db.get(&s("nope")).unwrap_err(), StoreError::NotFound);
}

#[test]
fn delete_removes_and_absence_is_an_error() {
    let mut db = Database::new();
    assert!(db.add(&s("cat"), &s("meow"), 7, 100).is_ok());
    assert!(db.delete(&s("cat")).is_ok());
    assert!(!db.is_command(&s("cat")));
    assert_eq!(db.delete(&s("cat")), Err(StoreError::NotFound));
}

#[test]
fn increment_counts_each_lookup() {
    let mut db = Database::new();
    assert!(db.add(&s("cat"), &s("meow"), 7, 100).is_ok());
    for _ in 0..5 {
        assert!(db.increment(&s("cat")).is_ok());
    }
    assert_eq!(db.get(&s("cat")).unwrap().use_count, 5);
    assert_eq!(db.increment(&s("dog")), Err(StoreError::NotFound));
}

#[test]
fn edit_renames_and_keeps_owner_and_creation_time() {
    let mut db = Database::new();
    assert!(db.add(&s("cat"), &s("meow"), 7, 100).is_ok());
    assert!(db.increment(&s("cat")).is_ok());
    assert!(db.edit(&s("cat"), &s("kitty"), &s("prr")).is_ok());
    assert!(!db.is_command(&s("cat")));
    let c = db.get(&s("kitty")).unwrap();
    assert_eq!(c.response, "prr");
    assert_eq!(c.owner_id, 7);
    assert_eq!(c.created_at, 100);
    assert_eq!(c.use_count, 1);
}

#[test]
fn edit_conflict_leaves_both_commands_unchanged() {
    let mut db = Database::new();
    assert!(db.add(&s("cat"), &s("meow"), 7, 100).is_ok());
    assert!(db.add(&s("dog"), &s("woof"), 8, 200).is_ok());
    assert_eq!(db.edit(&s("cat"), &s("dog"), &s("zzz")), Err(StoreError::NameConflict));
    assert_eq!(db.get(&s("cat")).unwrap().response, "meow");
    assert_eq!(db.get(&s("dog")).unwrap().response, "woof");
}

#[test]
fn edit_same_name_rewrites_response() {
    let mut db = Database::new();
    assert!(db.add(&s("cat"), &s("meow"), 7, 100).is_ok());
    assert!(db.edit(&s("cat"), &s("cat"), &s("prr")).is_ok());
    assert_eq!(db.get(&s("cat")).unwrap().response, "prr");
}

#[test]
fn edit_missing_is_not_found() {
    let mut db = Database::new();
    assert_eq!(db.edit(&s("a"), &s("b"), &s("c")), Err(StoreError::NotFound));
}

#[test]
fn all_is_ordered_case_insensitively_by_name() {
    let mut db = Database::new();
    assert!(db.add(&s("dog"), &s("w"), 1, 0).is_ok());
    assert!(db.add(&s("Apple"), &s("x"), 1, 0).is_ok());
    assert!(db.add(&s("cat"), &s("m"), 1, 0).is_ok());
    let names: Vec<String> = db.all().into_iter().map(|c| c.name).collect();
    assert_eq!(names, vec!["Apple".to_string(), "cat".to_string(), "dog".to_string()]);
}

#[test]
fn top_is_ordered_by_use_count_descending() {
    let mut db = Database::new();
    assert!(db.add(&s("rare"), &s("a"), 1, 0).is_ok());
    assert!(db.add(&s("hot"), &s("b"), 1, 0).is_ok());
    assert!(db.add(&s("mid"), &s("c"), 1, 0).is_ok());
    for _ in 0..3 {
        assert!(db.increment(&s("hot")).is_ok());
    }
    assert!(db.increment(&s("mid")).is_ok());
    let counts: Vec<(String, u64)> = db.top().into_iter().map(|c| (c.name, c.use_count)).collect();
    assert_eq!(
        counts,
        vec![("hot".to_string(), 3), ("mid".to_string(), 1), ("rare".to_string(), 0)]
    );
}

#[test]
fn search_matches_exact_name_and_substring() {
    let mut db = Database::new();
    assert!(db.add(&s("cat"), &s("a"), 1, 0).is_ok());
    assert!(db.add(&s("category"), &s("b"), 1, 0).is_ok());
    assert!(db.add(&s("dog"), &s("c"), 1, 0).is_ok());
    let names: Vec<String> = db.search(&s("cat")).into_iter().map(|c| c.name).collect();
    assert_eq!(names, vec!["cat".to_string(), "category".to_string()]);
    assert!(db.search(&s("zzz")).is_empty());
}

#[test]
fn delete_all_truncates() {
    let mut db = Database::new();
    assert!(db.add(&s("cat"), &s("a"), 1, 0).is_ok());
    assert!(db.add(&s("dog"), &s("b"), 1, 0).is_ok());
    db.delete_all();
    assert!(db.all().is_empty());
}

#[test]
fn is_owner_compares_the_creator() {
    let mut db = Database::new();
    assert!(db.add(&s("cat"), &s("a"), 42, 0).is_ok());
    let c = db.get(&s("cat")).unwrap();
    assert!(c.is_owner(42));
    assert!(!c.is_owner(43));
}

fn row(name: &str, response: &str, owner: u64, uses: u64, created: i64) -> CustomCommand {
    CustomCommand {
        name: name.to_string(),
        response: response.to_string(),
        owner_id: owner,
        use_count: uses,
        created_at: created,
    }
}

#[test]
fn from_rows_restores_counts_and_times() {
    let db = Database::from_rows(vec![row("cat", "meow", 7, 5, 100), row("dog", "woof", 8, 2, 200)])
        .unwrap();
    let c = db.get(&s("cat")).unwrap();
    assert_eq!(c.use_count, 5);
    assert_eq!(c.created_at, 100);
    assert_eq!(db.all().len(), 2);
}

fn rejection(r: Result<Database, StoreError>) -> StoreError {
    match r {
        Ok(_) => panic!("the rows should be rejected"),
        Err(e) => e,
    }
}

#[test]
fn from_rows_rejects_a_duplicated_name() {
    let r = Database::from_rows(vec![row("cat", "a", 1, 0, 0), row("cat", "b", 2, 0, 0)]);
    assert_eq!(rejection(r), StoreError::AlreadyExists);
}

#[test]
fn from_rows_rejects_an_empty_name_or_response() {
    let r = Database::from_rows(vec![row("", "a", 1, 0, 0)]);
    assert_eq!(rejection(r), StoreError::Validation);
    let r = Database::from_rows(vec![row("cat", "", 1, 0, 0)]);
    assert_eq!(rejection(r), StoreError::Validation);
}

#[test]
fn search_matches_ascii_case_insensitively() {
    let mut db = Database::new();
    assert!(db.add(&s("CAT"), &s("a"), 1, 0).is_ok());
    assert!(db.add(&s("dog"), &s("b"), 1, 0).is_ok());
    let names: Vec<String> = db.search(&s("cat")).into_iter().map(|c| c.name).collect();
    assert_eq!(names, vec!["CAT".to_string()]);
    let names: Vec<String> = db.search(&s("Og")).into_iter().map(|c| c.name).collect();
    assert_eq!(names, vec!["dog".to_string()]);
}
