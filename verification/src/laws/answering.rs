//! What functions give back, whatever they are called with.
use vstd::prelude::*;

use crate::commands::{add_sources, already_printed, exit_code, init_check, list, print_report, print_restored, SourceLook};
use crate::completion::{shell_integration, Shell};
use crate::config::{clean, expanded, mapping, Config, EntryView, Store};
use crate::daemon::{log, rotates, start, stop, Starting};
use crate::error::Error;
use crate::fingerprint::{fingerprint, Fingerprint, Look};
use crate::git::{change_views, committed, ensure_idle, open, select, selection, takes_out, Change, ChangeView};
use crate::laws::committing::{belongs, is_named, is_taken, lemma_a_commit_takes_what_is_named, touches_index};
use crate::laws::configuring::lemma_every_source_gets_its_entry;
use crate::lifecycle::{await_daemon, recover_retarget, retarget, Retarget};
use crate::path::{joined, parts};
use crate::state::{decoded, load, State, Stored};
use crate::sync::{check_copy, may_delete, Report};
use crate::text::{decimal, joined_lines, replaced, views};

verus! {

// ---------------------------------------------------------------------------------------------
// Commands

/// A program that ended by itself gives its own exit code, one that was ended by a signal gives 128 and
/// the number of the signal, and a code that no exit can have gives 1.
pub proof fn lemma_which_exit_code_comes_out(code: Option<i32>, signal: Option<i32>, r: u8)
    requires
        call_ensures(exit_code, (code, signal), r),
    ensures
        code is Some && 0 <= code->0 <= 255 ==> r == code->0,
        code is Some && !(0 <= code->0 <= 255) ==> r == 1,
        code is None && signal is Some && 0 <= signal->0 <= 127 ==> r == 128 + signal->0,
        code is None && signal is None ==> r == 129,
{
}

/// Adding sources gives each of them an entry behind those that there are, which is one of a directory
/// exactly where a directory stands there, and goes where the source goes.
pub proof fn lemma_sources_are_added(
    store: Store,
    home: String,
    config: Config,
    state: State,
    sources: Vec<String>,
    looks: Vec<SourceLook>,
    delete: bool,
    exclude: Vec<String>,
    r: Result<Config, Error>,
    k: int,
)
    requires
        call_ensures(add_sources, (&store, &Ok::<String, Error>(home), &config, &state, &sources, &looks, delete, &exclude), r),
        r is Ok,
        0 <= k < sources@.len(),
    ensures
        ({
            let entry = r->Ok_0@.entries[config@.entries.len() + k];
            &&& r->Ok_0@.entries.len() == config@.entries.len() + sources@.len()
            &&& entry.source == sources@[k]@
            &&& entry.directory == (looks@[k] is Directory)
            &&& Ok::<Seq<char>, Seq<char>>(entry.target) == mapping(sources@[k]@, home@)
            &&& entry.enabled && entry.delete == delete && entry.exclude == views(exclude@)
        }),
        forall|j: int| 0 <= j < config@.entries.len() ==> #[trigger] r->Ok_0@.entries[j] == config@.entries[j],
{
    let next = crate::restore::highest(config@, crate::restore::without_baselines(state@, false)) + 1;
    lemma_every_source_gets_its_entry(store.root@, home@, config@, next, views(sources@), looks@, delete, views(exclude@), home@);
    assert(views(sources@)[k] == sources@[k]@);
}

/// The list has a line for every entry.
pub proof fn lemma_every_entry_is_listed(config: Config, r: Vec<String>, k: int)
    requires
        call_ensures(list, (&config,), r),
        0 <= k < config@.entries.len(),
    ensures
        r@.len() == config@.entries.len(),
        r@[k]@ == crate::commands::entry_line(config@, config@.entries[k]),
{
    let lines = config@.entries.map_values(|entry: EntryView| crate::commands::entry_line(config@, entry));
    assert(views(r@).len() == r@.len());
    assert(views(r@) == lines);
    assert(views(r@)[k] == r@[k]@);
}

/// A synchronization is printed with all that was done and went wrong, and ends with a failure exactly
/// where something went wrong.
pub proof fn lemma_what_is_printed_of_a_synchronization(report: Report, r: (String, Option<Error>))
    requires
        call_ensures(print_report, (&report,), r),
    ensures
        r.1 is Some <==> report@.errors.len() > 0,
        report@.actions.len() + report@.errors.len() > 0 ==> r.0@ == joined_lines(report@.actions + report@.errors, "\n"@),
        report@.actions.len() + report@.errors.len() == 0 ==> r.0@ == "Up to date"@,
{
}

/// A restoration is printed with all that was done.
pub proof fn lemma_what_is_printed_of_a_restoration(report: Report, r: String)
    requires
        call_ensures(print_restored, (&report,), r),
    ensures
        report@.actions.len() > 0 ==> r@ == joined_lines(report@.actions + report@.errors, "\n"@),
        report@.actions.len() == 0 ==> r@ == "Nothing to restore"@,
{
}

/// A log that is shorter than what was printed of it is a new one, of which nothing was printed.
pub proof fn lemma_new_logs_are_printed_from_the_start(printed: usize, length: usize, r: usize)
    requires
        call_ensures(already_printed, (printed, length), r),
    ensures
        length >= printed ==> r == printed,
        length < printed ==> r == 0,
{
}

/// A profile can be initialized exactly where there is none, and nothing is left from an earlier one.
pub proof fn lemma_when_a_profile_can_be_initialized(initialized: bool, leftover: bool, r: Result<(), Error>)
    requires
        call_ensures(init_check, (initialized, leftover), r),
    ensures
        r is Ok <==> !initialized && !leftover,
{
}

/// A source is its name in the directory that holds it; the root has none.
pub proof fn lemma_sources_lie_in_their_directory(parent: &str, name: Option<String>, r: Result<String, Error>)
    requires
        call_ensures(expanded, (parent, &name), r),
    ensures
        name is Some ==> r is Ok && r->Ok_0@ == joined(parent@, name->0@),
        name is None ==> r is Err,
{
}

// ---------------------------------------------------------------------------------------------
// Git

/// A repository can be the target exactly where it has a working tree, at the configured path.
pub proof fn lemma_which_repositories_can_be_targets(config: Config, bare: bool, workdir: Option<&str>, r: Result<(), Error>)
    requires
        call_ensures(open, (&config, bare, workdir), r),
    ensures
        r is Ok <==> !bare && workdir is Some && parts(workdir->0@) == parts(config@.repository),
{
}

/// Nothing is under way exactly where the state is clean and there are no conflicts.
pub proof fn lemma_when_a_repository_is_idle(clean_state: bool, conflicts: bool, r: Result<(), Error>)
    requires
        call_ensures(ensure_idle, (clean_state, conflicts), r),
    ensures
        r is Ok <==> clean_state && !conflicts,
{
}

/// A change is selected exactly where it is among all changes, it is managed, and one of the given paths
/// is its path or leads to it, where any are given.
pub proof fn lemma_what_is_selected(config: Config, state: State, all: Vec<Change>, paths: Vec<String>, r: Result<Vec<Change>, Error>, change: ChangeView)
    requires
        call_ensures(select, (&config, &state, &all, &paths), r),
        r is Ok,
    ensures
        change_views(r->Ok_0@).contains(change) <==> change_views(all@).contains(change) && belongs(config@, state@, change.path) && is_named(
            views(paths@),
            change.path,
        ),
{
    let every = change_views(all@);
    let list = views(paths@);
    lemma_a_commit_takes_what_is_named(config@, state@, every, list);
    let taken = selection(config@, state@, every, list);
    assert(taken == Ok::<Seq<ChangeView>, Seq<char>>(change_views(r->Ok_0@)));
    assert forall|k: int| 0 <= k < list.len() implies clean(#[trigger] list[k]) is Ok by {
        if clean(list[k]) is Err {
            assert(taken is Err);
        }
    }
    assert forall|k: int| 0 <= k < every.len() implies !touches_index((#[trigger] every[k]).status) by {
        if touches_index(every[k].status) {
            assert(taken is Err);
        }
    }
    assert(taken->Ok_0.contains(change) <==> every.contains(change) && is_taken(config@, state@, list, change));
    assert(is_taken(config@, state@, list, change) == (belongs(config@, state@, change.path) && is_named(list, change.path)));
}

/// A path is taken out of the index exactly where it was deleted from the working tree.
pub proof fn lemma_what_is_taken_out(change: Change, r: bool)
    requires
        call_ensures(takes_out, (&change,), r),
    ensures
        r == (change@.status & 512u32 != 0),
{
    let status = change@.status;
    assert((status & 512u32 != 0) == (status & 512u32 == 512u32)) by (bit_vector);
}

/// What is shown of a commit is its name, and its message below that.
pub proof fn lemma_what_is_shown_of_a_commit(id: &str, message: &str, r: String)
    requires
        call_ensures(committed, (id, message), r),
    ensures
        r@ == id@ + "\n"@ + message@,
{
}

// ---------------------------------------------------------------------------------------------
// The daemon

/// A daemon that says something is ready, one that ended has failed, and the wait is over after ten
/// seconds.
pub proof fn lemma_how_a_start_goes_on(status: Option<String>, exited: Option<String>, text: &str, waited: u64, r: Starting)
    requires
        call_ensures(start, (status, exited, text, waited), r),
    ensures
        r is TimedOut <==> waited >= 10000,
        r is Ready <==> waited < 10000 && status is Some,
        r is Ready ==> r->Ready_0 == status->0,
        r is Exited <==> waited < 10000 && status is None && exited is Some,
{
}

/// The wait for a daemon to end is over when its lock can be taken, and is given up after ten seconds.
pub proof fn lemma_when_a_wait_is_over(locked: bool, waited: u64, r: Result<bool, Error>, s: Result<bool, Error>)
    requires
        call_ensures(stop, (locked, waited), r),
        call_ensures(await_daemon, (locked, waited), s),
    ensures
        locked ==> r is Ok && r->Ok_0 && s is Ok && s->Ok_0,
        !locked && waited < 10000 ==> r is Ok && !r->Ok_0 && s is Ok && !s->Ok_0,
        !locked && waited >= 10000 ==> r is Err && s is Err,
{
}

/// A log is set aside once it has more than two mebibytes.
pub proof fn lemma_when_a_log_is_set_aside(size: u64, r: bool)
    requires
        call_ensures(rotates, (size,), r),
    ensures
        r <==> size > 2097152,
{
}

/// A line of the log has the time and the message.
pub proof fn lemma_what_is_logged(time: u64, message: &str, r: String)
    requires
        call_ensures(log, (time, message), r),
    ensures
        r@ == decimal(time as nat) + " "@ + message@,
{
}

// ---------------------------------------------------------------------------------------------
// Switching

/// A target that is the same stays, with its history. Another is switched to, with the configuration
/// that has it, and begins anew.
pub proof fn lemma_what_becomes_of_a_switch(store: Store, old_config: Config, repository: String, home: Result<String, Error>, r: Result<Retarget, Error>)
    requires
        call_ensures(retarget, (&store, &old_config, repository, None::<&str>, &home), r),
        r is Ok,
    ensures
        r->Ok_0 is Same <==> parts(repository@) == parts(old_config@.repository),
        r->Ok_0 is Switch ==> r->Ok_0->Switch_0@ == (crate::config::ConfigView { repository: repository@, ..old_config@ }),
{
}

/// A switch that was begun is completed with the configuration that was written down and an empty
/// history.
pub proof fn lemma_how_a_switch_is_completed(store: Store, pending: Config, home: Result<String, Error>, r: Result<(State, Config), Error>)
    requires
        call_ensures(recover_retarget, (&store, pending, &home), r),
        r is Ok,
    ensures
        r->Ok_0.1 == pending,
        r->Ok_0.0@.owned == Map::<Seq<char>, u64>::empty(),
        r->Ok_0.0@.conflicts == Map::<Seq<char>, Seq<char>>::empty(),
        r->Ok_0.0@.last_sync is None,
        forall|path: Seq<char>| !r->Ok_0.0@.files.contains_key(path),
{
}

/// A service is installed only where there is none, and removed only where there is one.
pub proof fn lemma_when_services_come_and_go(location: &str, there: bool, r: Result<String, Error>, s: Result<String, Error>)
    requires
        call_ensures(crate::service::install, (location, there), r),
        call_ensures(crate::service::uninstall, (location, there), s),
    ensures
        r is Ok <==> !there,
        s is Ok <==> there,
{
}

/// The history is empty as long as there is no database; one that cannot be read is never taken for that.
pub proof fn lemma_no_history_is_discarded(stored: Option<Stored>, r: Result<State, Error>)
    requires
        call_ensures(load, (&stored,), r),
    ensures
        stored is None ==> r is Ok && r->Ok_0@.owned == Map::<Seq<char>, u64>::empty() && r->Ok_0@.conflicts == Map::<Seq<char>, Seq<char>>::empty(),
        stored is Some ==> (r is Ok <==> decoded(stored->0) is Ok),
        stored is Some && r is Ok ==> r->Ok_0@ == decoded(stored->0)->Ok_0,
{
}

// ---------------------------------------------------------------------------------------------
// Files

/// A copy is good exactly where both it and its source are what was to be copied.
pub proof fn lemma_which_copies_are_good(copy: Option<String>, source: Option<String>, expected: &str, r: Result<(), Error>)
    requires
        call_ensures(check_copy, (&copy, &source, expected), r),
    ensures
        r is Ok <==> copy is Some && copy->0@ == expected@ && source is Some && source->0@ == expected@,
{
}

/// A file whose source is gone may be deleted where nothing stands there, where it is as it was left, or
/// where that is wanted.
pub proof fn lemma_what_may_be_deleted(known: &str, current: Option<String>, overwrite: bool, r: bool)
    requires
        call_ensures(may_delete, (known, &current, overwrite), r),
    ensures
        r <==> current is None || current->0@ == known@ || overwrite,
{
}

/// What a fingerprint begins with tells what stands there; there is one of links and regular files only,
/// and none where nothing stands.
pub proof fn lemma_what_has_a_fingerprint(path: &str, look: Look, r: Result<Option<Fingerprint>, Error>)
    requires
        call_ensures(fingerprint, (path, &look), r),
    ensures
        look is Missing ==> r is Ok && r->Ok_0 is None,
        look is Link || look is File ==> r is Ok && r->Ok_0 is Some,
        look is Directory || look is Special || look is Failed ==> r is Err,
{
}

/// A shell gets its definitions with the executable filled in.
pub proof fn lemma_what_a_shell_gets(shell: Shell, template: &str, executable: &str, r: String)
    requires
        call_ensures(shell_integration, (shell, template, executable), r),
    ensures
        shell != Shell::Other ==> r@ == replaced(template@, "@FILETRAIL@"@, executable@),
        shell == Shell::Other ==> r@.len() == 0,
{
}

} // verus!
