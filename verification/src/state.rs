//! The synchronization history, and how it is kept in a database.
use vstd::prelude::*;

use crate::config::Store;
use crate::error::{outcome, Error};
use crate::table::Table;
use crate::text::{same, signed_decimal, signed_number, views};

verus! {

/// What a file held when it was last synchronized, and for which entry that was.
#[derive(Clone, Debug, PartialEq, Eq)]
pub struct Baseline {
    pub entry: u64,
    pub fingerprint: String,
}

pub struct BaselineView {
    pub entry: u64,
    pub fingerprint: Seq<char>,
}

impl View for Baseline {
    type V = BaselineView;

    open spec fn view(&self) -> BaselineView {
        BaselineView { entry: self.entry, fingerprint: self.fingerprint@ }
    }
}

/// The synchronization history, by path in the repository.
#[derive(Clone, Debug, PartialEq, Eq)]
pub struct State {
    /// The entry that last put a file at a path, kept even after the file is gone.
    pub owned: Table<u64>,
    pub files: Table<Baseline>,
    pub conflicts: Table<String>,
    pub last_sync: Option<u64>,
}

#[verifier::ext_equal]
pub struct StateView {
    pub owned: Map<Seq<char>, u64>,
    pub files: Map<Seq<char>, BaselineView>,
    pub conflicts: Map<Seq<char>, Seq<char>>,
    pub last_sync: Option<u64>,
}

impl View for State {
    type V = StateView;

    open spec fn view(&self) -> StateView {
        StateView {
            owned: self.owned@,
            files: self.files@,
            conflicts: self.conflicts@,
            last_sync: self.last_sync,
        }
    }
}

/// The history before anything was synchronized.
pub open spec fn no_history() -> StateView {
    StateView { owned: Map::empty(), files: Map::empty(), conflicts: Map::empty(), last_sync: None }
}

impl State {
    /// Whether the tables are in order.
    pub open spec fn wf(&self) -> bool {
        self.owned.wf() && self.files.wf() && self.conflicts.wf()
    }

    /// The history before anything was synchronized.
    pub fn new() -> (r: State)
        ensures
            r.wf(),
            r@ == no_history(),
    {
        State { owned: Table::new(), files: Table::new(), conflicts: Table::new(), last_sync: None }
    }
}

impl Default for State {
    fn default() -> (r: State)
        ensures
            r.wf(),
            r@ == no_history(),
    {
        State::new()
    }
}

// ---------------------------------------------------------------------------------------------
// Reading

pub const APPLICATION_ID: i64 = 0x4654_524c;

pub const SCHEMA_VERSION: i64 = 1;

/// The rows of a database.
pub struct Stored {
    pub application: i64,
    pub version: i64,
    pub ownership: Vec<(String, i64)>,
    pub baselines: Vec<(String, i64, String)>,
    pub conflicts: Vec<(String, String)>,
    pub last_sync: Option<i64>,
}

/// The owners that rows stand for.
pub open spec fn owners(rows: Seq<(String, i64)>) -> Map<Seq<char>, u64>
    decreases rows.len(),
{
    if rows.len() == 0 {
        Map::empty()
    } else {
        owners(rows.drop_last()).insert(rows.last().0@, rows.last().1 as u64)
    }
}

/// The baselines that rows stand for.
pub open spec fn baselines(rows: Seq<(String, i64, String)>) -> Map<Seq<char>, BaselineView>
    decreases rows.len(),
{
    if rows.len() == 0 {
        Map::empty()
    } else {
        baselines(rows.drop_last()).insert(
            rows.last().0@,
            BaselineView { entry: rows.last().1 as u64, fingerprint: rows.last().2@ },
        )
    }
}

/// The conflicts that rows stand for.
pub open spec fn reasons(rows: Seq<(String, String)>) -> Map<Seq<char>, Seq<char>>
    decreases rows.len(),
{
    if rows.len() == 0 {
        Map::empty()
    } else {
        reasons(rows.drop_last()).insert(rows.last().0@, rows.last().1@)
    }
}

/// Whether no number in the rows is negative.
pub open spec fn representable(stored: Stored) -> bool {
    &&& forall|k: int| 0 <= k < stored.ownership@.len() ==> (#[trigger] stored.ownership@[k]).1 >= 0
    &&& forall|k: int| 0 <= k < stored.baselines@.len() ==> (#[trigger] stored.baselines@[k]).1 >= 0
    &&& stored.last_sync matches Some(time) ==> time >= 0
}

/// The history that a database holds, or why it cannot be read.
pub open spec fn decoded(stored: Stored) -> Result<StateView, Seq<char>> {
    if stored.application != APPLICATION_ID || stored.version != SCHEMA_VERSION {
        Err("unrecognized state database or unsupported schema version "@ + signed_decimal(stored.version as int))
    } else if !representable(stored) {
        Err("out of range integral type conversion attempted"@)
    } else {
        Ok(
            StateView {
                owned: owners(stored.ownership@),
                files: baselines(stored.baselines@),
                conflicts: reasons(stored.conflicts@),
                last_sync: match stored.last_sync {
                    Some(time) => Some(time as u64),
                    None => None,
                },
            },
        )
    }
}

fn out_of_range() -> (r: Error)
    ensures
        r@ == "out of range integral type conversion attempted"@,
{
    Error::new("out of range integral type conversion attempted")
}

/// Reads the history out of the rows of a database.
pub fn read(stored: &Stored) -> (r: Result<State, Error>)
    ensures
        outcome(r) == decoded(*stored),
        r is Ok ==> r->Ok_0.wf(),
{
    if stored.application != APPLICATION_ID || stored.version != SCHEMA_VERSION {
        return Err(
            Error::about(
                "unrecognized state database or unsupported schema version ",
                signed_number(stored.version).as_str(),
            ),
        );
    }
    let mut state = State::new();
    let mut i: usize = 0;
    assert(stored.ownership@.take(0).len() == 0);
    while i < stored.ownership.len()
        invariant
            stored.application == APPLICATION_ID && stored.version == SCHEMA_VERSION,
            i <= stored.ownership@.len(),
            state.wf(),
            state@ == (StateView { owned: owners(stored.ownership@.take(i as int)), ..no_history() }),
            forall|k: int| 0 <= k < i ==> (#[trigger] stored.ownership@[k]).1 >= 0,
        decreases stored.ownership@.len() - i,
    {
        let row = &stored.ownership[i];
        if row.1 < 0 {
            assert(stored.ownership@[i as int].1 < 0);
            return Err(out_of_range());
        }
        state.owned.insert(row.0.clone(), row.1 as u64);
        assert(stored.ownership@.take(i + 1).drop_last() =~= stored.ownership@.take(i as int));
        i = i + 1;
    }
    assert(stored.ownership@.take(i as int) =~= stored.ownership@);
    i = 0;
    assert(stored.baselines@.take(0).len() == 0);
    while i < stored.baselines.len()
        invariant
            stored.application == APPLICATION_ID && stored.version == SCHEMA_VERSION,
            i <= stored.baselines@.len(),
            state.wf(),
            state@ == (StateView {
                owned: owners(stored.ownership@),
                files: baselines(stored.baselines@.take(i as int)),
                ..no_history()
            }),
            forall|k: int| 0 <= k < stored.ownership@.len() ==> (#[trigger] stored.ownership@[k]).1 >= 0,
            forall|k: int| 0 <= k < i ==> (#[trigger] stored.baselines@[k]).1 >= 0,
        decreases stored.baselines@.len() - i,
    {
        let row = &stored.baselines[i];
        if row.1 < 0 {
            assert(stored.baselines@[i as int].1 < 0);
            return Err(out_of_range());
        }
        let baseline = Baseline { entry: row.1 as u64, fingerprint: row.2.clone() };
        state.files.insert(row.0.clone(), baseline);
        assert(stored.baselines@.take(i + 1).drop_last() =~= stored.baselines@.take(i as int));
        i = i + 1;
    }
    assert(stored.baselines@.take(i as int) =~= stored.baselines@);
    i = 0;
    assert(stored.conflicts@.take(0).len() == 0);
    while i < stored.conflicts.len()
        invariant
            stored.application == APPLICATION_ID && stored.version == SCHEMA_VERSION,
            i <= stored.conflicts@.len(),
            state.wf(),
            state@ == (StateView {
                owned: owners(stored.ownership@),
                files: baselines(stored.baselines@),
                conflicts: reasons(stored.conflicts@.take(i as int)),
                ..no_history()
            }),
        decreases stored.conflicts@.len() - i,
    {
        let row = &stored.conflicts[i];
        state.conflicts.insert(row.0.clone(), row.1.clone());
        assert(stored.conflicts@.take(i + 1).drop_last() =~= stored.conflicts@.take(i as int));
        i = i + 1;
    }
    assert(stored.conflicts@.take(i as int) =~= stored.conflicts@);
    match stored.last_sync {
        Some(time) => {
            if time < 0 {
                return Err(out_of_range());
            }
            state.last_sync = Some(time as u64);
        },
        None => (),
    }
    Ok(state)
}

/// Loads the history, which is empty as long as there is no database.
pub fn load(stored: &Option<Stored>) -> (r: Result<State, Error>)
    ensures
        match stored {
            None => r is Ok && r->Ok_0@ == no_history(),
            Some(stored) => match decoded(*stored) {
                Ok(state) => r is Ok && r->Ok_0@ == state,
                Err(text) => r is Err && r->Err_0@ == "cannot read state.db; refusing to discard synchronization history"@ + ": "@ + text,
            },
        },
        r is Ok ==> r->Ok_0.wf(),
{
    match stored {
        None => Ok(State::new()),
        Some(stored) => match read(stored) {
            Ok(state) => Ok(state),
            Err(error) => Err(error.within("cannot read state.db; refusing to discard synchronization history")),
        },
    }
}

// ---------------------------------------------------------------------------------------------
// Writing

/// One change of a database.
#[derive(Clone, Debug, PartialEq, Eq)]
pub enum Statement {
    DropOwner(String),
    SetOwner(String, i64),
    DropBaseline(String),
    SetBaseline(String, i64, String),
    DropConflict(String),
    SetConflict(String, String),
    SetLastSync(Option<i64>),
}

pub enum StatementView {
    DropOwner(Seq<char>),
    SetOwner(Seq<char>, i64),
    DropBaseline(Seq<char>),
    SetBaseline(Seq<char>, i64, Seq<char>),
    DropConflict(Seq<char>),
    SetConflict(Seq<char>, Seq<char>),
    SetLastSync(Option<i64>),
}

impl View for Statement {
    type V = StatementView;

    open spec fn view(&self) -> StatementView {
        match self {
            Statement::DropOwner(path) => StatementView::DropOwner(path@),
            Statement::SetOwner(path, id) => StatementView::SetOwner(path@, *id),
            Statement::DropBaseline(path) => StatementView::DropBaseline(path@),
            Statement::SetBaseline(path, id, fingerprint) => StatementView::SetBaseline(path@, *id, fingerprint@),
            Statement::DropConflict(path) => StatementView::DropConflict(path@),
            Statement::SetConflict(path, reason) => StatementView::SetConflict(path@, reason@),
            Statement::SetLastSync(time) => StatementView::SetLastSync(*time),
        }
    }
}

pub open spec fn statement_views(list: Seq<Statement>) -> Seq<StatementView> {
    list.map_values(|statement: Statement| statement@)
}

/// The keys of `keys` that are gone from a map.
pub open spec fn gone<V>(keys: Seq<Seq<char>>, now: Map<Seq<char>, V>) -> Seq<Seq<char>> {
    keys.filter(|k: Seq<char>| !now.contains_key(k))
}

/// The keys of `keys` that a map holds otherwise than before.
pub open spec fn altered<V>(keys: Seq<Seq<char>>, now: Map<Seq<char>, V>, earlier: Map<Seq<char>, V>) -> Seq<Seq<char>> {
    keys.filter(|k: Seq<char>| !(earlier.contains_key(k) && earlier[k] == now[k]))
}

/// The changes to the owners.
pub open spec fn owner_updates(earlier: Table<u64>, now: Table<u64>) -> Seq<StatementView> {
    gone(earlier.keys(), now@).map_values(|k: Seq<char>| StatementView::DropOwner(k)) + altered(
        now.keys(),
        now@,
        earlier@,
    ).map_values(|k: Seq<char>| StatementView::SetOwner(k, now@[k] as i64))
}

/// The changes to the baselines.
pub open spec fn baseline_updates(earlier: Table<Baseline>, now: Table<Baseline>) -> Seq<StatementView> {
    gone(earlier.keys(), now@).map_values(|k: Seq<char>| StatementView::DropBaseline(k)) + altered(
        now.keys(),
        now@,
        earlier@,
    ).map_values(|k: Seq<char>| StatementView::SetBaseline(k, now@[k].entry as i64, now@[k].fingerprint))
}

/// The changes to the conflicts.
pub open spec fn conflict_updates(earlier: Table<String>, now: Table<String>) -> Seq<StatementView> {
    gone(earlier.keys(), now@).map_values(|k: Seq<char>| StatementView::DropConflict(k)) + altered(
        now.keys(),
        now@,
        earlier@,
    ).map_values(|k: Seq<char>| StatementView::SetConflict(k, now@[k]))
}

/// The change to the time of the last synchronization.
pub open spec fn time_updates(earlier: Option<u64>, now: Option<u64>) -> Seq<StatementView> {
    if earlier == now {
        Seq::empty()
    } else {
        seq![
            StatementView::SetLastSync(
                match now {
                    Some(time) => Some(time as i64),
                    None => None,
                },
            ),
        ]
    }
}

/// The changes that lead from one history to another: none for a row that stays as it is.
pub open spec fn updates(earlier: State, now: State) -> Seq<StatementView> {
    owner_updates(earlier.owned, now.owned) + baseline_updates(earlier.files, now.files) + conflict_updates(
        earlier.conflicts,
        now.conflicts,
    ) + time_updates(earlier.last_sync, now.last_sync)
}

/// Whether the database can hold every number that is to be written.
pub open spec fn writable(earlier: State, now: State) -> bool {
    &&& forall|k: Seq<char>|
        #![trigger now.owned@[k]]
        now.owned@.contains_key(k) && !(earlier.owned@.contains_key(k) && earlier.owned@[k] == now.owned@[k]) ==> now.owned@[k] <= i64::MAX
    &&& forall|k: Seq<char>|
        #![trigger now.files@[k]]
        now.files@.contains_key(k) && !(earlier.files@.contains_key(k) && earlier.files@[k] == now.files@[k]) ==> now.files@[k].entry <= i64::MAX
    &&& earlier.last_sync != now.last_sync && now.last_sync is Some ==> now.last_sync->0 <= i64::MAX
}

fn same_baseline(a: &Baseline, b: &Baseline) -> (r: bool)
    ensures
        r == (a@ == b@),
{
    a.entry == b.entry && same(a.fingerprint.as_str(), b.fingerprint.as_str())
}

fn push_owner_updates(earlier: &Table<u64>, now: &Table<u64>, out: &mut Vec<Statement>) -> (r: bool)
    requires
        earlier.wf(),
        now.wf(),
    ensures
        r == (forall|k: Seq<char>|
            #![trigger now@[k]]
            now@.contains_key(k) && !(earlier@.contains_key(k) && earlier@[k] == now@[k]) ==> now@[k] <= i64::MAX),
        r ==> statement_views(final(out)@) == statement_views(old(out)@) + owner_updates(*earlier, *now),
{
    let removed = earlier.keys_not_in(now);
    let ghost start = statement_views(out@);
    let ghost names = views(removed@);
    let mut i: usize = 0;
    while i < removed.len()
        invariant
            names == views(removed@),
            i <= removed@.len(),
            statement_views(out@) == start + names.take(i as int).map_values(|k: Seq<char>| StatementView::DropOwner(k)),
        decreases removed@.len() - i,
    {
        let ghost prior = statement_views(out@);
        out.push(Statement::DropOwner(removed[i].clone()));
        assert(statement_views(out@) =~= prior.push(StatementView::DropOwner(names[i as int])));
        assert(names.take(i + 1).map_values(|k: Seq<char>| StatementView::DropOwner(k)) =~= names.take(i as int).map_values(
            |k: Seq<char>| StatementView::DropOwner(k),
        ).push(StatementView::DropOwner(names[i as int])));
        i = i + 1;
    }
    assert(names.take(names.len() as int) =~= names);
    let ghost middle = statement_views(out@);
    let ghost keys = now.keys();
    let ghost differs = |k: Seq<char>| !(earlier@.contains_key(k) && earlier@[k] == now@[k]);
    let ghost build = |k: Seq<char>| StatementView::SetOwner(k, now@[k] as i64);
    assert(keys.take(0).filter(differs).map_values(build) =~= Seq::empty()) by {
        reveal(Seq::filter);
    }
    i = 0;
    while i < now.rows.len()
        invariant
            earlier.wf(),
            now.wf(),
            keys == now.keys(),
            differs == (|k: Seq<char>| !(earlier@.contains_key(k) && earlier@[k] == now@[k])),
            build == (|k: Seq<char>| StatementView::SetOwner(k, now@[k] as i64)),
            i <= now.rows@.len(),
            statement_views(out@) == middle + keys.take(i as int).filter(differs).map_values(build),
            forall|j: int| 0 <= j < i && differs(#[trigger] keys[j]) ==> now@[keys[j]] <= i64::MAX,
        decreases now.rows@.len() - i,
    {
        let row = &now.rows[i];
        proof {
            now.lemma_row(i as int);
            reveal(Seq::filter);
            assert(keys.take(i + 1).drop_last() =~= keys.take(i as int));
            assert(keys.take(i + 1).last() == row.key@);
            assert(keys[i as int] == row.key@);
        }
        let unchanged = match earlier.get(row.key.as_str()) {
            Some(id) => *id == row.value,
            None => false,
        };
        let ghost kept = keys.take(i as int).filter(differs);
        if !unchanged {
            assert(differs(row.key@));
            if row.value > i64::MAX as u64 {
                assert(now@[row.key@] > i64::MAX);
                return false;
            }
            let ghost prior = statement_views(out@);
            out.push(Statement::SetOwner(row.key.clone(), row.value as i64));
            assert(statement_views(out@) =~= prior.push(build(row.key@)));
            assert(keys.take(i + 1).filter(differs) =~= kept.push(row.key@));
            assert(kept.push(row.key@).map_values(build) =~= kept.map_values(build).push(build(row.key@)));
        } else {
            assert(!differs(row.key@));
            assert(keys.take(i + 1).filter(differs) =~= kept);
        }
        i = i + 1;
    }
    proof {
        assert(keys.take(keys.len() as int) =~= keys);
        now.lemma_domain();
        assert forall|k: Seq<char>|
            #![trigger now@[k]]
            now@.contains_key(k) && !(earlier@.contains_key(k) && earlier@[k] == now@[k]) implies now@[k] <= i64::MAX by {
            let j = choose|j: int| 0 <= j < now.rows@.len() && now.rows@[j].key@ == k;
            assert(keys[j] == k);
            assert(differs(keys[j]));
        }
        assert(statement_views(out@) =~= start + owner_updates(*earlier, *now));
    }
    true
}

fn push_baseline_updates(earlier: &Table<Baseline>, now: &Table<Baseline>, out: &mut Vec<Statement>) -> (r: bool)
    requires
        earlier.wf(),
        now.wf(),
    ensures
        r == (forall|k: Seq<char>|
            #![trigger now@[k]]
            now@.contains_key(k) && !(earlier@.contains_key(k) && earlier@[k] == now@[k]) ==> now@[k].entry <= i64::MAX),
        r ==> statement_views(final(out)@) == statement_views(old(out)@) + baseline_updates(*earlier, *now),
{
    let removed = earlier.keys_not_in(now);
    let ghost start = statement_views(out@);
    let ghost names = views(removed@);
    let mut i: usize = 0;
    while i < removed.len()
        invariant
            names == views(removed@),
            i <= removed@.len(),
            statement_views(out@) == start + names.take(i as int).map_values(|k: Seq<char>| StatementView::DropBaseline(k)),
        decreases removed@.len() - i,
    {
        let ghost prior = statement_views(out@);
        out.push(Statement::DropBaseline(removed[i].clone()));
        assert(statement_views(out@) =~= prior.push(StatementView::DropBaseline(names[i as int])));
        assert(names.take(i + 1).map_values(|k: Seq<char>| StatementView::DropBaseline(k)) =~= names.take(i as int).map_values(
            |k: Seq<char>| StatementView::DropBaseline(k),
        ).push(StatementView::DropBaseline(names[i as int])));
        i = i + 1;
    }
    assert(names.take(names.len() as int) =~= names);
    let ghost middle = statement_views(out@);
    let ghost keys = now.keys();
    let ghost differs = |k: Seq<char>| !(earlier@.contains_key(k) && earlier@[k] == now@[k]);
    let ghost build = |k: Seq<char>| StatementView::SetBaseline(k, now@[k].entry as i64, now@[k].fingerprint);
    assert(keys.take(0).filter(differs).map_values(build) =~= Seq::empty()) by {
        reveal(Seq::filter);
    }
    i = 0;
    while i < now.rows.len()
        invariant
            earlier.wf(),
            now.wf(),
            keys == now.keys(),
            differs == (|k: Seq<char>| !(earlier@.contains_key(k) && earlier@[k] == now@[k])),
            build == (|k: Seq<char>| StatementView::SetBaseline(k, now@[k].entry as i64, now@[k].fingerprint)),
            i <= now.rows@.len(),
            statement_views(out@) == middle + keys.take(i as int).filter(differs).map_values(build),
            forall|j: int| 0 <= j < i && differs(#[trigger] keys[j]) ==> now@[keys[j]].entry <= i64::MAX,
        decreases now.rows@.len() - i,
    {
        let row = &now.rows[i];
        proof {
            now.lemma_row(i as int);
            reveal(Seq::filter);
            assert(keys.take(i + 1).drop_last() =~= keys.take(i as int));
            assert(keys.take(i + 1).last() == row.key@);
            assert(keys[i as int] == row.key@);
        }
        let unchanged = match earlier.get(row.key.as_str()) {
            Some(baseline) => same_baseline(baseline, &row.value),
            None => false,
        };
        let ghost kept = keys.take(i as int).filter(differs);
        if !unchanged {
            assert(differs(row.key@));
            if row.value.entry > i64::MAX as u64 {
                assert(now@[row.key@].entry > i64::MAX);
                return false;
            }
            let ghost prior = statement_views(out@);
            out.push(Statement::SetBaseline(row.key.clone(), row.value.entry as i64, row.value.fingerprint.clone()));
            assert(statement_views(out@) =~= prior.push(build(row.key@)));
            assert(keys.take(i + 1).filter(differs) =~= kept.push(row.key@));
            assert(kept.push(row.key@).map_values(build) =~= kept.map_values(build).push(build(row.key@)));
        } else {
            assert(!differs(row.key@));
            assert(keys.take(i + 1).filter(differs) =~= kept);
        }
        i = i + 1;
    }
    proof {
        assert(keys.take(keys.len() as int) =~= keys);
        now.lemma_domain();
        assert forall|k: Seq<char>|
            #![trigger now@[k]]
            now@.contains_key(k) && !(earlier@.contains_key(k) && earlier@[k] == now@[k]) implies now@[k].entry <= i64::MAX by {
            let j = choose|j: int| 0 <= j < now.rows@.len() && now.rows@[j].key@ == k;
            assert(keys[j] == k);
            assert(differs(keys[j]));
        }
        assert(statement_views(out@) =~= start + baseline_updates(*earlier, *now));
    }
    true
}

fn push_conflict_updates(earlier: &Table<String>, now: &Table<String>, out: &mut Vec<Statement>)
    requires
        earlier.wf(),
        now.wf(),
    ensures
        statement_views(final(out)@) == statement_views(old(out)@) + conflict_updates(*earlier, *now),
{
    let removed = earlier.keys_not_in(now);
    let ghost start = statement_views(out@);
    let ghost names = views(removed@);
    let mut i: usize = 0;
    while i < removed.len()
        invariant
            names == views(removed@),
            i <= removed@.len(),
            statement_views(out@) == start + names.take(i as int).map_values(|k: Seq<char>| StatementView::DropConflict(k)),
        decreases removed@.len() - i,
    {
        let ghost prior = statement_views(out@);
        out.push(Statement::DropConflict(removed[i].clone()));
        assert(statement_views(out@) =~= prior.push(StatementView::DropConflict(names[i as int])));
        assert(names.take(i + 1).map_values(|k: Seq<char>| StatementView::DropConflict(k)) =~= names.take(i as int).map_values(
            |k: Seq<char>| StatementView::DropConflict(k),
        ).push(StatementView::DropConflict(names[i as int])));
        i = i + 1;
    }
    assert(names.take(names.len() as int) =~= names);
    let ghost middle = statement_views(out@);
    let ghost keys = now.keys();
    let ghost differs = |k: Seq<char>| !(earlier@.contains_key(k) && earlier@[k] == now@[k]);
    let ghost build = |k: Seq<char>| StatementView::SetConflict(k, now@[k]);
    assert(keys.take(0).filter(differs).map_values(build) =~= Seq::empty()) by {
        reveal(Seq::filter);
    }
    i = 0;
    while i < now.rows.len()
        invariant
            earlier.wf(),
            now.wf(),
            keys == now.keys(),
            differs == (|k: Seq<char>| !(earlier@.contains_key(k) && earlier@[k] == now@[k])),
            build == (|k: Seq<char>| StatementView::SetConflict(k, now@[k])),
            i <= now.rows@.len(),
            statement_views(out@) == middle + keys.take(i as int).filter(differs).map_values(build),
        decreases now.rows@.len() - i,
    {
        let row = &now.rows[i];
        proof {
            now.lemma_row(i as int);
            reveal(Seq::filter);
            assert(keys.take(i + 1).drop_last() =~= keys.take(i as int));
            assert(keys.take(i + 1).last() == row.key@);
            assert(keys[i as int] == row.key@);
        }
        let unchanged = match earlier.get(row.key.as_str()) {
            Some(reason) => same(reason.as_str(), row.value.as_str()),
            None => false,
        };
        let ghost kept = keys.take(i as int).filter(differs);
        if !unchanged {
            assert(differs(row.key@));
            let ghost prior = statement_views(out@);
            out.push(Statement::SetConflict(row.key.clone(), row.value.clone()));
            assert(statement_views(out@) =~= prior.push(build(row.key@)));
            assert(keys.take(i + 1).filter(differs) =~= kept.push(row.key@));
            assert(kept.push(row.key@).map_values(build) =~= kept.map_values(build).push(build(row.key@)));
        } else {
            assert(!differs(row.key@));
            assert(keys.take(i + 1).filter(differs) =~= kept);
        }
        i = i + 1;
    }
    proof {
        assert(keys.take(keys.len() as int) =~= keys);
        assert(statement_views(out@) =~= start + conflict_updates(*earlier, *now));
    }
}

/// Works out the changes that bring a database to the given history.
pub fn write(stored: &Stored, state: &State) -> (r: Result<Vec<Statement>, Error>)
    requires
        state.wf(),
    ensures
        match decoded(*stored) {
            Err(text) => r is Err && r->Err_0@ == text,
            Ok(earlier) => exists|previous: State|
                previous.wf() && previous@ == earlier && match r {
                    Ok(list) => #[trigger] writable(previous, *state) && statement_views(list@) == updates(previous, *state),
                    Err(error) => !writable(previous, *state) && error@ == "out of range integral type conversion attempted"@,
                },
        },
{
    match read(stored) {
        Ok(previous) => {
            let r = changes(&previous, state);
            assert(previous.wf());
            r
        },
        Err(error) => Err(error),
    }
}

/// Works out the changes that lead from one history to another.
pub fn changes(earlier: &State, now: &State) -> (r: Result<Vec<Statement>, Error>)
    requires
        earlier.wf(),
        now.wf(),
    ensures
        match r {
            Ok(list) => writable(*earlier, *now) && statement_views(list@) == updates(*earlier, *now),
            Err(error) => !writable(*earlier, *now) && error@ == "out of range integral type conversion attempted"@,
        },
{
    let mut out: Vec<Statement> = Vec::new();
    if !push_owner_updates(&earlier.owned, &now.owned, &mut out) {
        return Err(out_of_range());
    }
    if !push_baseline_updates(&earlier.files, &now.files, &mut out) {
        return Err(out_of_range());
    }
    push_conflict_updates(&earlier.conflicts, &now.conflicts, &mut out);
    let ghost prior = statement_views(out@);
    match (earlier.last_sync, now.last_sync) {
        (Some(then), Some(time)) => {
            if then != time {
                if time > i64::MAX as u64 {
                    return Err(out_of_range());
                }
                out.push(Statement::SetLastSync(Some(time as i64)));
            }
        },
        (None, Some(time)) => {
            if time > i64::MAX as u64 {
                return Err(out_of_range());
            }
            out.push(Statement::SetLastSync(Some(time as i64)));
        },
        (Some(_), None) => out.push(Statement::SetLastSync(None)),
        (None, None) => (),
    }
    assert(statement_views(out@) =~= prior + time_updates(earlier.last_sync, now.last_sync));
    assert(statement_views(out@) =~= updates(*earlier, *now));
    Ok(out)
}

// ---------------------------------------------------------------------------------------------
// Laws

/// What a change does to a history.
pub open spec fn applied_one(state: StateView, statement: StatementView) -> StateView {
    match statement {
        StatementView::DropOwner(path) => StateView { owned: state.owned.remove(path), ..state },
        StatementView::SetOwner(path, id) => StateView { owned: state.owned.insert(path, id as u64), ..state },
        StatementView::DropBaseline(path) => StateView { files: state.files.remove(path), ..state },
        StatementView::SetBaseline(path, id, fingerprint) => StateView {
            files: state.files.insert(path, BaselineView { entry: id as u64, fingerprint }),
            ..state
        },
        StatementView::DropConflict(path) => StateView { conflicts: state.conflicts.remove(path), ..state },
        StatementView::SetConflict(path, reason) => StateView { conflicts: state.conflicts.insert(path, reason), ..state },
        StatementView::SetLastSync(time) => StateView {
            last_sync: match time {
                Some(time) => Some(time as u64),
                None => None,
            },
            ..state
        },
    }
}

/// What changes do to a history, one after the other.
pub open spec fn applied(state: StateView, statements: Seq<StatementView>) -> StateView
    decreases statements.len(),
{
    if statements.len() == 0 {
        state
    } else {
        applied_one(applied(state, statements.drop_last()), statements.last())
    }
}

proof fn lemma_applied_in_two(state: StateView, a: Seq<StatementView>, b: Seq<StatementView>)
    ensures
        applied(state, a + b) == applied(applied(state, a), b),
    decreases b.len(),
{
    if b.len() == 0 {
        assert(a + b =~= a);
    } else {
        assert((a + b).drop_last() =~= a + b.drop_last());
        lemma_applied_in_two(state, a, b.drop_last());
    }
}

/// A map without the given keys.
pub open spec fn without<V>(map: Map<Seq<char>, V>, keys: Seq<Seq<char>>) -> Map<Seq<char>, V> {
    map.remove_keys(keys.to_set())
}

/// A map with the given keys set as in another.
pub open spec fn overlaid<V>(map: Map<Seq<char>, V>, keys: Seq<Seq<char>>, other: Map<Seq<char>, V>) -> Map<Seq<char>, V> {
    Map::new(
        |k: Seq<char>| map.contains_key(k) || keys.contains(k),
        |k: Seq<char>| if keys.contains(k) { other[k] } else { map[k] },
    )
}

proof fn lemma_without_step<V>(map: Map<Seq<char>, V>, keys: Seq<Seq<char>>)
    requires
        keys.len() > 0,
    ensures
        without(map, keys) == without(map, keys.drop_last()).remove(keys.last()),
{
    assert forall|k: Seq<char>| keys.to_set().contains(k) <==> keys.drop_last().to_set().contains(k) || k == keys.last() by {
        lemma_contains_step(keys, k);
    }
    assert(without(map, keys) =~= without(map, keys.drop_last()).remove(keys.last()));
}

proof fn lemma_contains_step(keys: Seq<Seq<char>>, k: Seq<char>)
    requires
        keys.len() > 0,
    ensures
        keys.contains(k) <==> keys.drop_last().contains(k) || k == keys.last(),
{
    if keys.contains(k) {
        let i = choose|i: int| 0 <= i < keys.len() && keys[i] == k;
        if i < keys.len() - 1 {
            assert(keys.drop_last()[i] == k);
        }
    }
    if keys.drop_last().contains(k) {
        let i = choose|i: int| 0 <= i < keys.drop_last().len() && keys.drop_last()[i] == k;
        assert(keys[i] == k);
    }
    assert(keys[keys.len() - 1] == keys.last());
}

proof fn lemma_overlaid_step<V>(map: Map<Seq<char>, V>, keys: Seq<Seq<char>>, other: Map<Seq<char>, V>)
    requires
        keys.len() > 0,
    ensures
        overlaid(map, keys, other) == overlaid(map, keys.drop_last(), other).insert(keys.last(), other[keys.last()]),
{
    assert forall|k: Seq<char>| keys.contains(k) <==> keys.drop_last().contains(k) || k == keys.last() by {
        lemma_contains_step(keys, k);
    }
    assert(overlaid(map, keys, other) =~= overlaid(map, keys.drop_last(), other).insert(keys.last(), other[keys.last()]));
}

/// Dropping what is gone and setting what differs turns one map into the other.
/// What is gone and what is altered is all that leads from one map to another.
pub proof fn lemma_difference<V>(earlier: Map<Seq<char>, V>, old_keys: Seq<Seq<char>>, now: Map<Seq<char>, V>, new_keys: Seq<Seq<char>>)
    requires
        forall|k: Seq<char>| earlier.contains_key(k) <==> old_keys.contains(k),
        forall|k: Seq<char>| now.contains_key(k) <==> new_keys.contains(k),
    ensures
        overlaid(without(earlier, gone(old_keys, now)), altered(new_keys, now, earlier), now) == now,
        forall|k: Seq<char>| altered(new_keys, now, earlier).contains(k) ==> now.contains_key(k) && !(earlier.contains_key(k) && earlier[k] == now[k]),
        forall|k: Seq<char>| gone(old_keys, now).contains(k) ==> earlier.contains_key(k) && !now.contains_key(k),
{
    let removed = gone(old_keys, now);
    let put = altered(new_keys, now, earlier);
    let absent = |k: Seq<char>| !now.contains_key(k);
    let differs = |k: Seq<char>| !(earlier.contains_key(k) && earlier[k] == now[k]);
    assert forall|k: Seq<char>| removed.contains(k) <==> earlier.contains_key(k) && !now.contains_key(k) by {
        lemma_filter_holds(old_keys, absent, k);
    }
    assert forall|k: Seq<char>| put.contains(k) <==> now.contains_key(k) && differs(k) by {
        lemma_filter_holds(new_keys, differs, k);
    }
    assert(overlaid(without(earlier, removed), put, now) =~= now);
}

proof fn lemma_filter_holds(keys: Seq<Seq<char>>, keep: spec_fn(Seq<char>) -> bool, k: Seq<char>)
    ensures
        keys.filter(keep).contains(k) <==> keys.contains(k) && keep(k),
    decreases keys.len(),
{
    reveal(Seq::filter);
    if keys.len() > 0 {
        lemma_filter_holds(keys.drop_last(), keep, k);
        lemma_contains_step(keys, k);
        if keep(keys.last()) {
            lemma_contains_step(keys.filter(keep), k);
            assert(keys.filter(keep).drop_last() =~= keys.drop_last().filter(keep));
        }
    }
}

proof fn lemma_apply_owners(state: StateView, removed: Seq<Seq<char>>, put: Seq<Seq<char>>, now: Map<Seq<char>, u64>)
    requires
        forall|k: Seq<char>| put.contains(k) ==> #[trigger] now[k] <= i64::MAX,
    ensures
        applied(
            state,
            removed.map_values(|k: Seq<char>| StatementView::DropOwner(k)) + put.map_values(
                |k: Seq<char>| StatementView::SetOwner(k, now[k] as i64),
            ),
        ) == (StateView { owned: overlaid(without(state.owned, removed), put, now), ..state }),
    decreases removed.len() + put.len(),
{
    let drops = removed.map_values(|k: Seq<char>| StatementView::DropOwner(k));
    let sets = put.map_values(|k: Seq<char>| StatementView::SetOwner(k, now[k] as i64));
    let all = drops + sets;
    if put.len() > 0 {
        let k = put.last();
        assert(put[put.len() - 1] == k);
        let fewer = put.drop_last();
        assert forall|k: Seq<char>| fewer.contains(k) implies #[trigger] now[k] <= i64::MAX by {
            lemma_contains_step(put, k);
        }
        lemma_apply_owners(state, removed, fewer, now);
        assert(all.drop_last() =~= drops + fewer.map_values(|k: Seq<char>| StatementView::SetOwner(k, now[k] as i64)));
        lemma_overlaid_step(without(state.owned, removed), put, now);
        assert(all.last() == StatementView::SetOwner(k, now[k] as i64));
    } else if removed.len() > 0 {
        let fewer = removed.drop_last();
        lemma_apply_owners(state, fewer, put, now);
        assert(all.drop_last() =~= fewer.map_values(|k: Seq<char>| StatementView::DropOwner(k)) + sets);
        lemma_without_step(state.owned, removed);
        assert(all.last() == StatementView::DropOwner(removed.last()));
        assert(overlaid(without(state.owned, removed), put, now) =~= without(state.owned, removed));
        assert(overlaid(without(state.owned, fewer), put, now) =~= without(state.owned, fewer));
    } else {
        assert(without(state.owned, removed) =~= state.owned);
        assert(overlaid(without(state.owned, removed), put, now) =~= state.owned);
    }
}

proof fn lemma_apply_baselines(state: StateView, removed: Seq<Seq<char>>, put: Seq<Seq<char>>, now: Map<Seq<char>, BaselineView>)
    requires
        forall|k: Seq<char>| put.contains(k) ==> (#[trigger] now[k]).entry <= i64::MAX,
    ensures
        applied(
            state,
            removed.map_values(|k: Seq<char>| StatementView::DropBaseline(k)) + put.map_values(
                |k: Seq<char>| StatementView::SetBaseline(k, now[k].entry as i64, now[k].fingerprint),
            ),
        ) == (StateView { files: overlaid(without(state.files, removed), put, now), ..state }),
    decreases removed.len() + put.len(),
{
    let drops = removed.map_values(|k: Seq<char>| StatementView::DropBaseline(k));
    let sets = put.map_values(|k: Seq<char>| StatementView::SetBaseline(k, now[k].entry as i64, now[k].fingerprint));
    let all = drops + sets;
    if put.len() > 0 {
        let k = put.last();
        assert(put[put.len() - 1] == k);
        let fewer = put.drop_last();
        assert forall|k: Seq<char>| fewer.contains(k) implies (#[trigger] now[k]).entry <= i64::MAX by {
            lemma_contains_step(put, k);
        }
        lemma_apply_baselines(state, removed, fewer, now);
        assert(all.drop_last() =~= drops + fewer.map_values(|k: Seq<char>| StatementView::SetBaseline(k, now[k].entry as i64, now[k].fingerprint)));
        lemma_overlaid_step(without(state.files, removed), put, now);
        assert(all.last() == StatementView::SetBaseline(k, now[k].entry as i64, now[k].fingerprint));
    } else if removed.len() > 0 {
        let fewer = removed.drop_last();
        lemma_apply_baselines(state, fewer, put, now);
        assert(all.drop_last() =~= fewer.map_values(|k: Seq<char>| StatementView::DropBaseline(k)) + sets);
        lemma_without_step(state.files, removed);
        assert(all.last() == StatementView::DropBaseline(removed.last()));
        assert(overlaid(without(state.files, removed), put, now) =~= without(state.files, removed));
        assert(overlaid(without(state.files, fewer), put, now) =~= without(state.files, fewer));
    } else {
        assert(without(state.files, removed) =~= state.files);
        assert(overlaid(without(state.files, removed), put, now) =~= state.files);
    }
}

proof fn lemma_apply_conflicts(state: StateView, removed: Seq<Seq<char>>, put: Seq<Seq<char>>, now: Map<Seq<char>, Seq<char>>)
    ensures
        applied(
            state,
            removed.map_values(|k: Seq<char>| StatementView::DropConflict(k)) + put.map_values(
                |k: Seq<char>| StatementView::SetConflict(k, now[k]),
            ),
        ) == (StateView { conflicts: overlaid(without(state.conflicts, removed), put, now), ..state }),
    decreases removed.len() + put.len(),
{
    let drops = removed.map_values(|k: Seq<char>| StatementView::DropConflict(k));
    let sets = put.map_values(|k: Seq<char>| StatementView::SetConflict(k, now[k]));
    let all = drops + sets;
    if put.len() > 0 {
        let k = put.last();
        assert(put[put.len() - 1] == k);
        let fewer = put.drop_last();
        lemma_apply_conflicts(state, removed, fewer, now);
        assert(all.drop_last() =~= drops + fewer.map_values(|k: Seq<char>| StatementView::SetConflict(k, now[k])));
        lemma_overlaid_step(without(state.conflicts, removed), put, now);
        assert(all.last() == StatementView::SetConflict(k, now[k]));
    } else if removed.len() > 0 {
        let fewer = removed.drop_last();
        lemma_apply_conflicts(state, fewer, put, now);
        assert(all.drop_last() =~= fewer.map_values(|k: Seq<char>| StatementView::DropConflict(k)) + sets);
        lemma_without_step(state.conflicts, removed);
        assert(all.last() == StatementView::DropConflict(removed.last()));
        assert(overlaid(without(state.conflicts, removed), put, now) =~= without(state.conflicts, removed));
        assert(overlaid(without(state.conflicts, fewer), put, now) =~= without(state.conflicts, fewer));
    } else {
        assert(without(state.conflicts, removed) =~= state.conflicts);
        assert(overlaid(without(state.conflicts, removed), put, now) =~= state.conflicts);
    }
}

/// Writing a history and reading it back gives that history: the changes worked out for a database,
/// applied to what it holds, lead to the history that was to be written.
pub proof fn lemma_written_is_read_back(earlier: State, now: State)
    requires
        earlier.wf(),
        now.wf(),
        writable(earlier, now),
    ensures
        applied(earlier@, updates(earlier, now)) == now@,
{
    let a = owner_updates(earlier.owned, now.owned);
    let b = baseline_updates(earlier.files, now.files);
    let c = conflict_updates(earlier.conflicts, now.conflicts);
    let d = time_updates(earlier.last_sync, now.last_sync);
    lemma_applied_in_two(earlier@, a + b + c, d);
    lemma_applied_in_two(earlier@, a + b, c);
    lemma_applied_in_two(earlier@, a, b);
    lemma_difference(earlier.owned@, earlier.owned.keys(), now.owned@, now.owned.keys());
    lemma_difference(earlier.files@, earlier.files.keys(), now.files@, now.files.keys());
    lemma_difference(earlier.conflicts@, earlier.conflicts.keys(), now.conflicts@, now.conflicts.keys());
    let first = earlier@;
    lemma_apply_owners(
        first,
        gone(earlier.owned.keys(), now.owned@),
        altered(now.owned.keys(), now.owned@, earlier.owned@),
        now.owned@,
    );
    let second = StateView { owned: now.owned@, ..first };
    assert(applied(first, a) == second);
    lemma_apply_baselines(
        second,
        gone(earlier.files.keys(), now.files@),
        altered(now.files.keys(), now.files@, earlier.files@),
        now.files@,
    );
    let third = StateView { files: now.files@, ..second };
    assert(applied(second, b) == third);
    lemma_apply_conflicts(
        third,
        gone(earlier.conflicts.keys(), now.conflicts@),
        altered(now.conflicts.keys(), now.conflicts@, earlier.conflicts@),
        now.conflicts@,
    );
    let fourth = StateView { conflicts: now.conflicts@, ..third };
    assert(applied(third, c) == fourth);
    if d.len() > 0 {
        assert(applied(fourth, d.drop_last()) == fourth);
    }
    assert(applied(fourth, d) == now@);
}

/// A baseline that stays as it is, is neither written nor dropped.
pub proof fn lemma_unchanged_baselines_are_not_rewritten(earlier: State, now: State, path: Seq<char>, i: int)
    requires
        earlier.wf(),
        now.wf(),
        earlier.files@.contains_key(path),
        now.files@.contains_key(path),
        earlier.files@[path] == now.files@[path],
        0 <= i < updates(earlier, now).len(),
    ensures
        updates(earlier, now)[i] != StatementView::DropBaseline(path),
        !(updates(earlier, now)[i] matches StatementView::SetBaseline(k, _, _) && k == path),
{
    let a = owner_updates(earlier.owned, now.owned);
    let b = baseline_updates(earlier.files, now.files);
    let c = conflict_updates(earlier.conflicts, now.conflicts);
    let removed = gone(earlier.files.keys(), now.files@);
    let put = altered(now.files.keys(), now.files@, earlier.files@);
    lemma_difference(earlier.files@, earlier.files.keys(), now.files@, now.files.keys());
    let j = i - a.len();
    if 0 <= j < b.len() {
        assert(updates(earlier, now)[i] == b[j]);
        if j < removed.len() {
            assert(removed.contains(removed[j]));
        } else {
            assert(put.contains(put[j - removed.len()]));
        }
    }
}

// ---------------------------------------------------------------------------------------------
// The history of a data directory

impl Store {
    /// The history that the data directory holds, given the rows of its database where it has one.
    pub fn state(&self, stored: &Option<Stored>) -> (r: Result<State, Error>)
        ensures
            match stored {
                None => r is Ok && r->Ok_0@ == no_history(),
                Some(stored) => match decoded(*stored) {
                    Ok(state) => r is Ok && r->Ok_0@ == state,
                    Err(text) => r is Err && r->Err_0@ == "cannot read state.db; refusing to discard synchronization history"@ + ": "@ + text,
                },
            },
            r is Ok ==> r->Ok_0.wf(),
    {
        load(stored)
    }

    /// The changes that bring the database of the data directory to the given history.
    pub fn save_state(&self, stored: &Stored, state: &State) -> (r: Result<Vec<Statement>, Error>)
        requires
            state.wf(),
        ensures
            match decoded(*stored) {
                Err(text) => r is Err && r->Err_0@ == text,
                Ok(earlier) => exists|previous: State|
                    previous.wf() && previous@ == earlier && match r {
                        Ok(list) => #[trigger] writable(previous, *state) && statement_views(list@) == updates(previous, *state),
                        Err(error) => !writable(previous, *state) && error@ == "out of range integral type conversion attempted"@,
                    },
            },
    {
        write(stored, state)
    }
}

} // verus!
