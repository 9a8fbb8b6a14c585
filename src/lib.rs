//! Versioned schema migrations for the application's embedded database:
//! the migration definitions, and the registry that orders and validates them.
pub mod definition;
pub mod registry;
pub mod m20260119_create_transactions_table;
