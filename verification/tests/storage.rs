use zipng::storage::{database_setup, DatabaseSetup, APPLICATION_ID};

#[test]
fn databases_are_set_up_by_their_application_id() {
    assert_eq!(database_setup(0), DatabaseSetup::Initialize);
    assert_eq!(database_setup(APPLICATION_ID), DatabaseSetup::Migrate);
    assert_eq!(database_setup(0x0F1C_1500), DatabaseSetup::Migrate);
    assert_eq!(database_setup(1), DatabaseSetup::Skip);
    assert_eq!(database_setup(u32::MAX), DatabaseSetup::Skip);
}
