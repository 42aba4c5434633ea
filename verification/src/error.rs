//! The errors of each part of the tool.
//!
//! Errors that come from the outside crates carry the outside error values;
//! the others carry a message.

use vstd::prelude::*;

verus! {

/// `std::io::Error`, carried opaquely.
#[verifier::external_type_specification]
#[verifier::external_body]
pub struct ExIoError(std::io::Error);

/// `gix::Error`, carried opaquely.
#[verifier::external_type_specification]
#[verifier::external_body]
pub struct ExGixError(gix::Error);

/// `redb::DatabaseError`, carried opaquely.
#[verifier::external_type_specification]
#[verifier::external_body]
pub struct ExDatabaseError(redb::DatabaseError);

/// `redb::TransactionError`, carried opaquely.
#[verifier::external_type_specification]
#[verifier::external_body]
pub struct ExTransactionError(redb::TransactionError);

/// `redb::TableError`, carried opaquely.
#[verifier::external_type_specification]
#[verifier::external_body]
pub struct ExTableError(redb::TableError);

/// `redb::StorageError`, carried opaquely.
#[verifier::external_type_specification]
#[verifier::external_body]
pub struct ExStorageError(redb::StorageError);

/// `redb::CommitError`, carried opaquely.
#[verifier::external_type_specification]
#[verifier::external_body]
pub struct ExCommitError(redb::CommitError);

/// `redb::CompactionError`, carried opaquely.
#[verifier::external_type_specification]
#[verifier::external_body]
pub struct ExCompactionError(redb::CompactionError);

/// Errors while resolving the configuration.
#[derive(Debug)]
pub enum ConfigError {
    Env(String),
    Io(std::io::Error),
}

/// Errors while synchronizing the template repositories and the index.
#[derive(Debug)]
pub enum SyncError {
    Git(Box<gix::Error>),
    GitOp(String),
    GitDiff(String),
    Database(redb::DatabaseError),
    DatabaseTransaction(redb::TransactionError),
    DatabaseTable(redb::TableError),
    DatabaseStorage(redb::StorageError),
    DatabaseCommit(redb::CommitError),
    Fst(String),
    Io(std::io::Error),
    Discovery(String),
}

/// Errors while generating a `.gitignore`.
#[derive(Debug)]
pub enum GenerateError {
    Discovery(String),
    Database(redb::DatabaseError),
    DatabaseTable(redb::TableError),
    DatabaseTransaction(redb::TransactionError),
    DatabaseStorage(redb::StorageError),
    Io(std::io::Error),
}

/// Errors while listing the templates.
#[derive(Debug)]
pub enum ListError {
    Discovery(String),
    Fst(String),
    Io(std::io::Error),
}

/// Errors while showing information about the setup.
#[derive(Debug)]
pub enum InfoError {
    Git(Box<gix::Error>),
    Database(redb::DatabaseError),
    DatabaseTable(redb::TableError),
    DatabaseTransaction(redb::TransactionError),
    Io(std::io::Error),
}

/// Errors while compacting the database.
#[derive(Debug)]
pub enum CompactError {
    Database(redb::DatabaseError),
    Compaction(redb::CompactionError),
    DatabaseTransaction(redb::TransactionError),
    DatabaseStorage(redb::StorageError),
    Io(std::io::Error),
}

/// Any error of the command-line tool.
#[derive(Debug)]
pub enum CliError {
    Config(ConfigError),
    Sync(Box<SyncError>),
    Generate(GenerateError),
    List(ListError),
    Info(InfoError),
    Compact(CompactError),
    Discovery(String),
    Git(String),
    Database(redb::DatabaseError),
    DatabaseTransaction(redb::TransactionError),
    DatabaseTable(redb::TableError),
    DatabaseStorage(redb::StorageError),
    DatabaseCommit(redb::CommitError),
    Io(std::io::Error),
}

} // verus!
