use db_migrations::definition::{Migration, MigrationKind};
use db_migrations::m20260119_create_transactions_table::{migration, SQL};
use db_migrations::registry::{all_migrations, collect, first_duplicate, sort_by_version};

fn def(version: i64, description: &'static str) -> Migration {
    Migration { version, description, sql: "SELECT 1;", kind: MigrationKind::Up }
}

fn versions(ms: &[Migration]) -> Vec<i64> {
    ms.iter().map(|m| m.version).collect()
}

fn descriptions(ms: &[Migration]) -> Vec<&'static str> {
    ms.iter().map(|m| m.description).collect()
}

#[test]
fn all_migrations_holds_the_transactions_table() {
    let ms = all_migrations();
    assert_eq!(ms.len(), 1);
    assert_eq!(ms[0].version, 20260119);
    assert_eq!(ms[0].description, "create transactions table");
    assert_eq!(ms[0].kind, MigrationKind::Up);
}

#[test]
fn all_migrations_versions_are_distinct_and_ascending() {
    let ms = all_migrations();
    for i in 0..ms.len() {
        for j in (i + 1)..ms.len() {
            assert!(ms[i].version < ms[j].version);
        }
    }
}

#[test]
fn all_migrations_is_the_same_on_every_call() {
    let a = all_migrations();
    let b = all_migrations();
    assert_eq!(versions(&a), versions(&b));
    assert_eq!(descriptions(&a), descriptions(&b));
}

#[test]
fn migration_creates_the_transactions_table() {
    let m = migration();
    assert_eq!(m.version, 20260119);
    assert_eq!(m.description, "create transactions table");
    assert_eq!(m.kind, MigrationKind::Up);
    assert_eq!(m.sql, SQL);
    assert!(m.sql.contains("CREATE TABLE IF NOT EXISTS transactions"));
    for column in [
        "id INTEGER PRIMARY KEY AUTOINCREMENT",
        "debitor TEXT NOT NULL",
        "debit REAL NOT NULL",
        "creditor TEXT NOT NULL",
        "credit REAL NOT NULL",
        "timestamp DATETIME DEFAULT CURRENT_TIMESTAMP",
    ] {
        assert!(m.sql.contains(column), "missing column: {}", column);
    }
}

#[test]
fn table_script_is_guarded_by_existence() {
    // The script creates the table only where it is missing, so running it again changes nothing.
    let sql = migration().sql;
    assert!(sql.contains("IF NOT EXISTS"));
    assert!(!sql.contains("INSERT"));
    assert!(!sql.contains("DROP"));
}

#[test]
fn collect_orders_two_versions() {
    let r = collect(vec![def(20260119, "later"), def(20260101, "earlier")], true).unwrap();
    assert_eq!(versions(&r), vec![20260101, 20260119]);
    assert_eq!(descriptions(&r), vec!["earlier", "later"]);
}

#[test]
fn collect_single_definition() {
    let r = collect(vec![migration()], true).unwrap();
    assert_eq!(versions(&r), vec![20260119]);
    assert_eq!(r[0].description, "create transactions table");
}

#[test]
fn collect_empty() {
    let r = collect(Vec::new(), true).unwrap();
    assert!(r.is_empty());
}

#[test]
fn collect_rejects_shared_version() {
    let e = collect(vec![def(20260119, "first"), def(20260119, "second")], true).unwrap_err();
    assert_eq!(e.version, 20260119);
    assert_eq!(e.description, "second");
}

#[test]
fn collect_names_smallest_shared_version() {
    let defs = vec![def(5, "x"), def(3, "p"), def(9, "solo"), def(5, "y"), def(3, "q")];
    let e = collect(defs, true).unwrap_err();
    assert_eq!(e.version, 3);
    assert_eq!(e.description, "q");
}

#[test]
fn collect_without_check_keeps_shared_versions_in_order() {
    let defs = vec![def(7, "a"), def(2, "b"), def(7, "c"), def(2, "d"), def(4, "e")];
    let r = collect(defs, false).unwrap();
    assert_eq!(versions(&r), vec![2, 2, 4, 7, 7]);
    assert_eq!(descriptions(&r), vec!["b", "d", "e", "a", "c"]);
}

#[test]
fn collect_is_deterministic() {
    let defs = vec![def(30, "c"), def(10, "a"), def(20, "b"), def(10, "a2")];
    let a = collect(defs.clone(), false).unwrap();
    let b = collect(defs, false).unwrap();
    assert_eq!(versions(&a), versions(&b));
    assert_eq!(descriptions(&a), descriptions(&b));
}

#[test]
fn sort_by_version_orders_extremes() {
    let defs = vec![def(0, "zero"), def(i64::MAX, "max"), def(-1, "minus"), def(i64::MIN, "min")];
    let r = sort_by_version(&defs);
    assert_eq!(versions(&r), vec![i64::MIN, -1, 0, i64::MAX]);
    assert_eq!(descriptions(&r), vec!["min", "minus", "zero", "max"]);
    assert_eq!(defs.len(), 4);
}

#[test]
fn sort_by_version_already_sorted_and_reversed() {
    let up = vec![def(1, "a"), def(2, "b"), def(3, "c")];
    assert_eq!(versions(&sort_by_version(&up)), vec![1, 2, 3]);
    let down = vec![def(3, "c"), def(2, "b"), def(1, "a")];
    assert_eq!(descriptions(&sort_by_version(&down)), vec!["a", "b", "c"]);
}

#[test]
fn first_duplicate_on_sorted_input() {
    let sorted = vec![def(1, "a"), def(2, "b"), def(2, "c"), def(4, "d"), def(4, "e")];
    let e = first_duplicate(&sorted).unwrap();
    assert_eq!(e.version, 2);
    assert_eq!(e.description, "c");
    assert!(first_duplicate(&vec![def(1, "a"), def(2, "b")]).is_none());
    assert!(first_duplicate(&Vec::new()).is_none());
}
