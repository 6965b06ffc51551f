//! The synchronization history and its database.
use filetrail::config::{Baseline, State, Store};
use filetrail::state::{changes, read, Statement, Stored, APPLICATION_ID, SCHEMA_VERSION};

fn store() -> Store {
    Store { root: "/data".to_owned() }
}

fn sample() -> State {
    let mut state = State::default();
    state.owned.insert("config/a'\"\nfile".into(), 7);
    state.owned.insert("config/deleted".into(), 8);
    state.files.insert(
        "config/a'\"\nfile".into(),
        Baseline {
            entry: 7,
            fingerprint: "content fingerprint".into(),
        },
    );
    state
        .conflicts
        .insert("unowned".into(), "target already exists".into());
    state.last_sync = Some(123456789);
    state
}

/// A database that was just made.
fn empty() -> Stored {
    Stored {
        application: APPLICATION_ID,
        version: SCHEMA_VERSION,
        ownership: vec![],
        baselines: vec![],
        conflicts: vec![],
        last_sync: None,
    }
}

/// Does to rows what each statement says.
fn apply(stored: &mut Stored, statements: &[Statement]) {
    for statement in statements {
        match statement.clone() {
            Statement::DropOwner(path) => stored.ownership.retain(|row| row.0 != path),
            Statement::SetOwner(path, id) => {
                stored.ownership.retain(|row| row.0 != path);
                stored.ownership.push((path, id));
            }
            Statement::DropBaseline(path) => stored.baselines.retain(|row| row.0 != path),
            Statement::SetBaseline(path, id, fingerprint) => {
                stored.baselines.retain(|row| row.0 != path);
                stored.baselines.push((path, id, fingerprint));
            }
            Statement::DropConflict(path) => stored.conflicts.retain(|row| row.0 != path),
            Statement::SetConflict(path, reason) => {
                stored.conflicts.retain(|row| row.0 != path);
                stored.conflicts.push((path, reason));
            }
            Statement::SetLastSync(time) => stored.last_sync = time,
        }
    }
}

fn save(stored: &mut Stored, state: &State) {
    let statements = store().save_state(stored, state).unwrap();
    apply(stored, &statements);
}

#[test]
fn database_roundtrip_reopen_and_removal_preserve_ownership() {
    assert_eq!(store().state(&None).unwrap(), State::default());
    let mut database = empty();
    let state = sample();
    save(&mut database, &state);
    assert_eq!(read(&database).unwrap(), state);
    let mut updated = state.clone();
    updated.files = State::default().files;
    updated.conflicts = State::default().conflicts;
    updated.owned.remove("config/deleted");
    updated.last_sync = None;
    save(&mut database, &updated);
    let reopened = store().state(&Some(database)).unwrap();
    assert_eq!(reopened, updated);
    assert!(reopened.owned.contains("config/a'\"\nfile"));
}

#[test]
fn failed_update_rolls_back_all_tables() {
    let mut database = empty();
    let original = sample();
    save(&mut database, &original);
    let mut invalid = State::default();
    invalid.owned.insert("new".into(), 10);
    invalid
        .conflicts
        .insert("different".into(), "changed".into());
    // The database cannot represent this value, so that no statement at all is given.
    invalid.last_sync = Some(u64::MAX);
    assert!(store().save_state(&database, &invalid).is_err());
    assert_eq!(read(&database).unwrap(), original);
}

#[test]
fn failed_initial_write_does_not_publish_partial_database() {
    let mut database = empty();
    let mut state = sample();
    state.last_sync = Some(u64::MAX);
    assert_eq!(
        store().save_state(&database, &state).unwrap_err().text,
        "out of range integral type conversion attempted"
    );
    assert_eq!(read(&database).unwrap(), State::default());
    state.last_sync = Some(10);
    save(&mut database, &state);
    assert_eq!(read(&database).unwrap(), state);
}

#[test]
fn unsupported_schema_is_not_overwritten() {
    let mut database = empty();
    save(&mut database, &sample());
    database.version = 999;
    assert_eq!(
        store().save_state(&database, &State::default()).unwrap_err().text,
        "unrecognized state database or unsupported schema version 999"
    );
    assert_eq!(
        store().state(&Some(database)).unwrap_err().text,
        "cannot read state.db; refusing to discard synchronization history: unrecognized state database or unsupported schema version 999"
    );
}

#[test]
fn unchanged_baselines_are_not_rewritten() {
    let mut database = empty();
    let mut state = sample();
    save(&mut database, &state);
    state.last_sync = Some(123456790);
    let statements = store().save_state(&database, &state).unwrap();
    assert_eq!(statements, [Statement::SetLastSync(Some(123456790))]);
    save(&mut database, &state);
    assert_eq!(read(&database).unwrap(), state);
}

#[test]
fn a_foreign_database_or_negative_numbers_are_refused() {
    let mut database = empty();
    database.application = 0;
    assert!(read(&database).is_err());
    let mut database = empty();
    database.version = -3;
    assert_eq!(
        read(&database).unwrap_err().text,
        "unrecognized state database or unsupported schema version -3"
    );
    let mut database = empty();
    database.ownership.push(("a".into(), -1));
    assert_eq!(read(&database).unwrap_err().text, "out of range integral type conversion attempted");
    let mut database = empty();
    database.baselines.push(("a".into(), -1, "f".into()));
    assert!(read(&database).is_err());
    let mut database = empty();
    database.last_sync = Some(-1);
    assert!(read(&database).is_err());
}

#[test]
fn only_what_differs_is_written() {
    let before = sample();
    let mut after = sample();
    after.owned.remove("config/deleted");
    after.owned.insert("new".into(), 9);
    after.conflicts.insert("unowned".into(), "other".into());
    after.files.insert("new".into(), Baseline { entry: 9, fingerprint: "f".into() });
    assert_eq!(
        changes(&before, &after).unwrap(),
        [
            Statement::DropOwner("config/deleted".into()),
            Statement::SetOwner("new".into(), 9),
            Statement::SetBaseline("new".into(), 9, "f".into()),
            Statement::SetConflict("unowned".into(), "other".into()),
        ]
    );
    after.owned.insert("big".into(), u64::MAX);
    assert!(changes(&before, &after).is_err());
    assert!(changes(&before, &before).unwrap().is_empty());
}

#[test]
fn numbers_that_stay_are_not_converted() {
    let mut state = sample();
    state.owned.insert("big".into(), u64::MAX);
    assert!(changes(&state, &state).unwrap().is_empty());
}
