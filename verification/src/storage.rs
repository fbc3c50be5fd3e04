//! What a SQLite-backed store does with a database when it opens it, decided
//! by the application id that the database holds.

use vstd::prelude::*;

verus! {

/// The application id that marks a database as this store's.
pub const APPLICATION_ID: u32 = 0x0F1C_1500;

/// What to do with a database when it is opened.
#[derive(Debug, Clone, Copy, PartialEq, Eq, Structural)]
pub enum DatabaseSetup {
    /// A new database (application id 0): set the application id to
    /// [`APPLICATION_ID`], then apply the settings and the migrations.
    Initialize,
    /// A database of this store: apply the settings and the migrations.
    Migrate,
    /// A database with an unexpected application id: leave its settings and
    /// tables alone.
    Skip,
}

/// What to do with a database whose application id is `application_id`:
/// initialize a new one, migrate one of this store's, and skip one with an
/// unexpected id.
pub fn database_setup(application_id: u32) -> (setup: DatabaseSetup)
    ensures
        application_id == 0 ==> setup == DatabaseSetup::Initialize,
        application_id == APPLICATION_ID ==> setup == DatabaseSetup::Migrate,
        application_id != 0 && application_id != APPLICATION_ID ==> setup == DatabaseSetup::Skip,
{
    if application_id == 0 {
        DatabaseSetup::Initialize
    } else if application_id == APPLICATION_ID {
        DatabaseSetup::Migrate
    } else {
        DatabaseSetup::Skip
    }
}

} // verus!
