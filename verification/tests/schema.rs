//! The schema, on a database.
use rusqlite::Connection;
use stint::schema::{
    batches, pending, Migration, FOREIGN_KEYS, IGNORED, JOURNAL, META, SCHEMA_VERSION, SOURCE,
    VERSION_3,
};

fn version(conn: &Connection) -> i64 {
    conn.query_row(
        "SELECT CAST(value AS INTEGER) FROM _stint_meta WHERE key = 'schema_version'",
        [],
        |row| row.get(0),
    )
    .unwrap_or(0)
}

fn has_source(conn: &Connection) -> bool {
    let mut stmt = conn.prepare("PRAGMA table_info('projects')").unwrap();
    let names: Vec<String> = stmt
        .query_map([], |row| row.get(1))
        .unwrap()
        .collect::<Result<Vec<_>, _>>()
        .unwrap();
    names.iter().any(|n| n == "source")
}

fn migrate(conn: &Connection) {
    conn.execute_batch(JOURNAL).unwrap();
    conn.execute_batch(FOREIGN_KEYS).unwrap();
    conn.execute_batch(META).unwrap();
    for m in pending(version(conn)) {
        for sql in batches(m, has_source(conn)) {
            conn.execute_batch(sql).unwrap();
        }
    }
}

fn open_in_memory() -> Connection {
    let conn = Connection::open_in_memory().unwrap();
    migrate(&conn);
    conn
}

#[test]
fn migration_creates_all_tables() {
    let conn = open_in_memory();
    let mut stmt =
        conn.prepare("SELECT name FROM sqlite_master WHERE type='table' ORDER BY name").unwrap();
    let tables: Vec<String> = stmt
        .query_map([], |row| row.get(0))
        .unwrap()
        .collect::<Result<Vec<_>, _>>()
        .unwrap();

    assert!(tables.contains(&"projects".to_string()));
    assert!(tables.contains(&"project_paths".to_string()));
    assert!(tables.contains(&"project_tags".to_string()));
    assert!(tables.contains(&"entries".to_string()));
    assert!(tables.contains(&"entry_tags".to_string()));
    assert!(tables.contains(&"sessions".to_string()));
    assert!(tables.contains(&"_stint_meta".to_string()));
    assert!(tables.contains(&"ignored_paths".to_string()));
}

#[test]
fn migration_is_idempotent() {
    let conn = open_in_memory();
    migrate(&conn);
    assert!(has_source(&conn));
}

#[test]
fn schema_version_is_set() {
    let conn = open_in_memory();
    let version: i64 = conn
        .query_row(
            "SELECT CAST(value AS INTEGER) FROM _stint_meta WHERE key = 'schema_version'",
            [],
            |row| row.get(0),
        )
        .unwrap();
    assert_eq!(version, SCHEMA_VERSION);
}

#[test]
fn only_what_is_lacking_is_pending() {
    assert_eq!(
        pending(0),
        vec![Migration::V1, Migration::V2, Migration::V3, Migration::V4]
    );
    assert_eq!(pending(2), vec![Migration::V3, Migration::V4]);
    assert!(pending(4).is_empty());
    assert!(pending(5).is_empty());
    assert_eq!(pending(-1).len(), 4);
}

#[test]
fn the_source_column_is_added_once() {
    assert_eq!(batches(Migration::V3, false), vec![IGNORED, SOURCE, VERSION_3]);
    assert_eq!(batches(Migration::V3, true), vec![IGNORED, VERSION_3]);
}
