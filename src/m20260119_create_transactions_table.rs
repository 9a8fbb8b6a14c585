use crate::definition::{Migration, MigrationKind};
use vstd::prelude::*;

verus! {

/// Creates the `transactions` table, unless it exists already.
pub const SQL: &'static str = r#"
    CREATE TABLE IF NOT EXISTS transactions (  
        id INTEGER PRIMARY KEY AUTOINCREMENT,  
        debitor TEXT NOT NULL,  
        debit REAL NOT NULL,
        creditor TEXT NOT NULL,
        credit REAL NOT NULL,
        timestamp DATETIME DEFAULT CURRENT_TIMESTAMP
    );
"#;

/// The migration that `migration` returns.
pub open spec fn spec_migration() -> Migration {
    Migration {
        version: 20260119,
        description: "create transactions table",
        sql: SQL,
        kind: MigrationKind::Up,
    }
}

/// The first schema change: the table of ledger transactions.
pub fn migration() -> (m: Migration)
    ensures
        m == spec_migration(),
{
    Migration {
        version: 20260119,
        description: "create transactions table",
        sql: SQL,
        kind: MigrationKind::Up,
    }
}

} // verus!
