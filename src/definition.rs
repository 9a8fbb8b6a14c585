use vstd::prelude::*;

verus! {

/// Whether a migration advances the schema or reverts it.
#[derive(Clone, Copy, Debug, PartialEq, Eq, Structural)]
pub enum MigrationKind {
    Up,
    Down,
}

/// One versioned schema change. The registry never reads `sql`; the
/// runner that applies migrations does.
#[derive(Clone, Copy, Debug)]
pub struct Migration {
    pub version: i64,
    pub description: &'static str,
    pub sql: &'static str,
    pub kind: MigrationKind,
}

} // verus!
