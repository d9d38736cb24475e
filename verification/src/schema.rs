//! The schema of the database, and which migrations bring it up to date.
use crate::rows::lemma_filter;
use vstd::prelude::*;

verus! {

/// The current version of the schema.
pub const SCHEMA_VERSION: i64 = 4;

/// Writers do not block readers.
pub const JOURNAL: &'static str = "PRAGMA journal_mode = WAL;";

/// References between tables are enforced.
pub const FOREIGN_KEYS: &'static str = "PRAGMA foreign_keys = ON;";

/// The table that holds the version of the schema.
pub const META: &'static str = "CREATE TABLE IF NOT EXISTS _stint_meta (
    key   TEXT PRIMARY KEY,
    value TEXT NOT NULL
);";

/// Projects, entries and sessions.
pub const TABLES: &'static str = "CREATE TABLE IF NOT EXISTS projects (
    id               TEXT PRIMARY KEY,
    name             TEXT NOT NULL UNIQUE COLLATE NOCASE,
    hourly_rate_cents INTEGER,
    status           TEXT NOT NULL DEFAULT 'active'
                         CHECK(status IN ('active', 'archived')),
    created_at       TEXT NOT NULL,
    updated_at       TEXT NOT NULL
);

CREATE TABLE IF NOT EXISTS project_paths (
    project_id TEXT NOT NULL REFERENCES projects(id) ON DELETE CASCADE,
    path       TEXT NOT NULL,
    PRIMARY KEY (project_id, path)
);

CREATE INDEX IF NOT EXISTS idx_project_paths_path
    ON project_paths(path);

CREATE TABLE IF NOT EXISTS project_tags (
    project_id TEXT NOT NULL REFERENCES projects(id) ON DELETE CASCADE,
    tag        TEXT NOT NULL,
    PRIMARY KEY (project_id, tag)
);

CREATE TABLE IF NOT EXISTS entries (
    id            TEXT PRIMARY KEY,
    project_id    TEXT NOT NULL REFERENCES projects(id) ON DELETE CASCADE,
    session_id    TEXT,
    start         TEXT NOT NULL,
    end_time      TEXT,
    duration_secs INTEGER,
    source        TEXT NOT NULL CHECK(source IN ('manual', 'hook', 'added')),
    notes         TEXT,
    created_at    TEXT NOT NULL,
    updated_at    TEXT NOT NULL
);

CREATE INDEX IF NOT EXISTS idx_entries_project_running
    ON entries(project_id) WHERE end_time IS NULL;

CREATE INDEX IF NOT EXISTS idx_entries_running
    ON entries(end_time) WHERE end_time IS NULL;

CREATE INDEX IF NOT EXISTS idx_entries_start
    ON entries(start);

CREATE INDEX IF NOT EXISTS idx_entries_project_start
    ON entries(project_id, start);

CREATE TABLE IF NOT EXISTS entry_tags (
    entry_id TEXT NOT NULL REFERENCES entries(id) ON DELETE CASCADE,
    tag      TEXT NOT NULL,
    PRIMARY KEY (entry_id, tag)
);

CREATE TABLE IF NOT EXISTS sessions (
    id                  TEXT PRIMARY KEY,
    pid                 INTEGER NOT NULL,
    shell               TEXT,
    cwd                 TEXT NOT NULL,
    current_project_id  TEXT REFERENCES projects(id) ON DELETE SET NULL,
    started_at          TEXT NOT NULL,
    last_heartbeat      TEXT NOT NULL,
    ended_at            TEXT
);

CREATE UNIQUE INDEX IF NOT EXISTS idx_sessions_pid
    ON sessions(pid) WHERE ended_at IS NULL;

INSERT OR REPLACE INTO _stint_meta (key, value) VALUES ('schema_version', '1');";

/// Indexes for the queries of the hook; at most one running entry of a project.
pub const HOOK_INDEXES: &'static str = "CREATE INDEX IF NOT EXISTS idx_sessions_active_project
    ON sessions(current_project_id) WHERE ended_at IS NULL;

CREATE INDEX IF NOT EXISTS idx_sessions_active_heartbeat
    ON sessions(last_heartbeat) WHERE ended_at IS NULL;

CREATE UNIQUE INDEX IF NOT EXISTS idx_entries_one_running_per_project
    ON entries(project_id) WHERE end_time IS NULL;

INSERT OR REPLACE INTO _stint_meta (key, value) VALUES ('schema_version', '2');";

/// The table of ignored paths.
pub const IGNORED: &'static str = "CREATE TABLE IF NOT EXISTS ignored_paths (
    path TEXT PRIMARY KEY
);";

/// How a project came to be registered.
pub const SOURCE: &'static str = "ALTER TABLE projects ADD COLUMN source TEXT NOT NULL DEFAULT 'manual';";

/// That the schema has ignored paths and project sources.
pub const VERSION_3: &'static str = "INSERT OR REPLACE INTO _stint_meta (key, value) VALUES ('schema_version', '3');";

/// An index on ignored paths.
pub const IGNORED_INDEX: &'static str = "CREATE INDEX IF NOT EXISTS idx_ignored_paths_path
    ON ignored_paths(path);

INSERT OR REPLACE INTO _stint_meta (key, value) VALUES ('schema_version', '4');";

/// A migration from one version of the schema to the next.
#[derive(Clone, Copy, PartialEq, Eq, Structural, Debug)]
pub enum Migration {
    /// All tables.
    V1,
    /// Indexes for the queries of the hook.
    V2,
    /// Ignored paths and project sources.
    V3,
    /// An index on ignored paths.
    V4,
}

impl Migration {
    /// The version of the schema after the migration.
    pub open spec fn target(self) -> int {
        match self {
            Migration::V1 => 1,
            Migration::V2 => 2,
            Migration::V3 => 3,
            Migration::V4 => 4,
        }
    }
}

/// The migrations, in order.
pub open spec fn migrations() -> Seq<Migration> {
    seq![Migration::V1, Migration::V2, Migration::V3, Migration::V4]
}

/// The migrations that a database of a given version lacks.
pub open spec fn lacking(version: int) -> Seq<Migration> {
    migrations().filter(after(version))
}

/// The migrations that lead beyond a version.
pub open spec fn after(version: int) -> spec_fn(Migration) -> bool {
    |m: Migration| version < m.target()
}

/// The migrations that a database of a given version lacks, in order.
pub fn pending(version: i64) -> (r: Vec<Migration>)
    ensures
        r@ == lacking(version as int),
{
    reveal_with_fuel(Seq::filter, 5);
    let mut r: Vec<Migration> = Vec::new();
    let ghost a = after(version as int);
    proof {
        assert(migrations().drop_last() =~= seq![Migration::V1, Migration::V2, Migration::V3]);
        assert(migrations().drop_last().drop_last() =~= seq![Migration::V1, Migration::V2]);
        assert(migrations().drop_last().drop_last().drop_last() =~= seq![Migration::V1]);
        assert(migrations().drop_last().drop_last().drop_last().drop_last() =~= Seq::empty());
    }
    if version < 1 {
        r.push(Migration::V1);
    }
    if version < 2 {
        r.push(Migration::V2);
    }
    if version < 3 {
        r.push(Migration::V3);
    }
    if version < 4 {
        r.push(Migration::V4);
    }
    r
}

/// The statements of a migration. The column for project sources is added only where it is missing.
pub open spec fn statements(m: Migration, has_source: bool) -> Seq<&'static str> {
    match m {
        Migration::V1 => seq![TABLES],
        Migration::V2 => seq![HOOK_INDEXES],
        Migration::V3 => if has_source {
            seq![IGNORED, VERSION_3]
        } else {
            seq![IGNORED, SOURCE, VERSION_3]
        },
        Migration::V4 => seq![IGNORED_INDEX],
    }
}

/// The statements of a migration, in order; `has_source` is whether the projects have a source.
pub fn batches(m: Migration, has_source: bool) -> (r: Vec<&'static str>)
    ensures
        r@ == statements(m, has_source),
{
    let mut r: Vec<&'static str> = Vec::new();
    match m {
        Migration::V1 => r.push(TABLES),
        Migration::V2 => r.push(HOOK_INDEXES),
        Migration::V3 => {
            r.push(IGNORED);
            if !has_source {
                r.push(SOURCE);
            }
            r.push(VERSION_3);
        },
        Migration::V4 => r.push(IGNORED_INDEX),
    }
    assert(r@ =~= statements(m, has_source));
    r
}

/// Migrations run in order, each leads one version further, the last one to the current version, and
/// then nothing is lacking: migrating twice is migrating once.
pub proof fn law_migrations(version: int)
    requires
        0 <= version <= SCHEMA_VERSION,
    ensures
        lacking(version).len() == SCHEMA_VERSION - version,
        forall|i: int|
            0 <= i < lacking(version).len() ==> (#[trigger] lacking(version)[i]).target() == version
                + i + 1,
        lacking(SCHEMA_VERSION as int).len() == 0,
{
    reveal_with_fuel(Seq::filter, 5);
    assert(migrations().drop_last() =~= seq![Migration::V1, Migration::V2, Migration::V3]);
    assert(migrations().drop_last().drop_last() =~= seq![Migration::V1, Migration::V2]);
    assert(migrations().drop_last().drop_last().drop_last() =~= seq![Migration::V1]);
    assert(migrations().drop_last().drop_last().drop_last().drop_last() =~= Seq::empty());
}

/// A database of any version lacks exactly the migrations that lead beyond it.
pub proof fn law_pending(version: int, m: Migration)
    ensures
        lacking(version).contains(m) <==> match m {
            Migration::V1 => version < 1,
            Migration::V2 => version < 2,
            Migration::V3 => version < 3,
            Migration::V4 => version < 4,
        },
{
    lemma_filter(migrations(), after(version));
    let all = migrations();
    assert(all[0] == Migration::V1 && all[1] == Migration::V2 && all[2] == Migration::V3 && all[3]
        == Migration::V4);
    assert(all.contains(m));
}

} // verus!
