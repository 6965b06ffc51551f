//! When the daemon works, what it obeys and watches, and what switching and forgetting come to.
use vstd::prelude::*;

use crate::config::{clean, destined, overlap, ConfigView};
use crate::daemon::{elapsed, is_watched, order_in, run_arguments, watched_as_parent, watched_below, watches_for, Daemon, Order, Watch};
use crate::laws::configuring::{is_sound, lemma_what_a_data_directory_accepts, lie_apart};
use crate::laws::wording::{lemma_trimming, lemma_what_is_trimmed};
use crate::lifecycle::{profile_names, repository_start, retarget_refusal, same_target, target_paths, with_target, ResolverView};
use crate::path::{joined, lemma_joined, lemma_name, lemma_stripped, names, parts, path_before, stripped, under, upper};
use crate::text::{blank, decimal};

verus! {

// ---------------------------------------------------------------------------------------------
// Orders

/// An order is given by its word, with white space around it or without.
pub proof fn lemma_orders_are_words(ahead: Seq<char>, behind: Seq<char>)
    requires
        blank(ahead),
        blank(behind),
    ensures
        order_in(ahead + "status"@ + behind) == Order::Status,
        order_in(ahead + "pause"@ + behind) == Order::Pause,
        order_in(ahead + "resume"@ + behind) == Order::Resume,
        order_in(ahead + "stop"@ + behind) == Order::Stop,
{
    reveal_strlit("status");
    reveal_strlit("pause");
    reveal_strlit("resume");
    reveal_strlit("stop");
    lemma_trimming(ahead, "status"@, behind);
    lemma_trimming(ahead, "pause"@, behind);
    lemma_trimming(ahead, "resume"@, behind);
    lemma_trimming(ahead, "stop"@, behind);
    assert("status"@.len() != "pause"@.len());
    assert("status"@[0] != "resume"@[0]);
    assert("status"@.len() != "stop"@.len());
    assert("pause"@.len() != "resume"@.len());
    assert("pause"@.len() != "stop"@.len());
    assert("resume"@.len() != "stop"@.len());
}

/// Nothing else is an order.
pub proof fn lemma_other_words_are_no_orders(input: Seq<char>) -> (around: (Seq<char>, Seq<char>))
    ensures
        blank(around.0),
        blank(around.1),
        order_in(input) == Order::Status ==> input == around.0 + "status"@ + around.1,
        order_in(input) == Order::Pause ==> input == around.0 + "pause"@ + around.1,
        order_in(input) == Order::Resume ==> input == around.0 + "resume"@ + around.1,
        order_in(input) == Order::Stop ==> input == around.0 + "stop"@ + around.1,
{
    lemma_what_is_trimmed(input)
}

/// What each order does to the daemon: nothing but to pause, to resume with work at once, or to stop.
pub proof fn lemma_what_orders_do(daemon: Daemon, now: u64)
    ensures
        daemon.obeying(Order::Status, now) == daemon,
        daemon.obeying(Order::Unknown, now) == daemon,
        daemon.obeying(Order::Pause, now) == (Daemon { paused: true, ..daemon }),
        daemon.obeying(Order::Resume, now) == (Daemon { paused: false, dirty: Some(now), ..daemon }),
        daemon.obeying(Order::Stop, now) == (Daemon { stopped: true, ..daemon }),
{
}

/// What each order is answered.
pub proof fn lemma_what_orders_are_answered(daemon: Daemon, pid: u32)
    ensures
        daemon.reply(Order::Pause, pid) == "paused"@,
        daemon.reply(Order::Resume, pid) == "resumed"@,
        daemon.reply(Order::Stop, pid) == "stopped"@,
        daemon.reply(Order::Unknown, pid) == "unknown command"@,
        daemon.paused && daemon.poll ==> daemon.reply(Order::Status, pid) == "running pid="@ + decimal(pid as nat) + " paused="@ + "true"@ + " mode="@
            + "poll"@,
        daemon.paused && !daemon.poll ==> daemon.reply(Order::Status, pid) == "running pid="@ + decimal(pid as nat) + " paused="@ + "true"@ + " mode="@
            + "native+periodic"@,
        !daemon.paused && daemon.poll ==> daemon.reply(Order::Status, pid) == "running pid="@ + decimal(pid as nat) + " paused="@ + "false"@ + " mode="@
            + "poll"@,
        !daemon.paused && !daemon.poll ==> daemon.reply(Order::Status, pid) == "running pid="@ + decimal(pid as nat) + " paused="@ + "false"@
            + " mode="@ + "native+periodic"@,
{
}

// ---------------------------------------------------------------------------------------------
// Times

/// It synchronizes exactly where it is not paused and either the interval has passed since the last
/// scan, or work is waiting and nothing has happened for a while or it has waited long enough.
pub proof fn lemma_when_it_synchronizes(daemon: Daemon, now: u64, interval_secs: u64)
    ensures
        ({
            let ago = |time: u64| if time <= now { now - time } else { 0 };
            daemon.synchronizing(now, interval_secs) <==> !daemon.paused && (1000 * interval_secs <= ago(daemon.last_scan) || (daemon.dirty is Some && (
            350 <= ago(daemon.latest_event) || 2000 <= ago(daemon.dirty->0))))
        }),
{
    assert(interval_secs * 1000 == 1000 * interval_secs) by (nonlinear_arith);
}

/// A clock that seems to have gone back counts as no time at all.
pub proof fn lemma_time_does_not_go_back(now: u64, since: u64)
    ensures
        now >= since ==> elapsed(now, since) == now - since,
        now < since ==> elapsed(now, since) == 0,
{
}

/// Work waits since it first came up.
pub proof fn lemma_work_waits_since_it_came_up(daemon: Daemon, now: u64)
    ensures
        daemon.dirty is Some ==> daemon.dirtied(now) == daemon.dirty,
        daemon.dirty is None ==> daemon.dirtied(now) == Some(now),
{
}

/// The daemon is run with its data directory, and told to poll only where it is to.
pub proof fn lemma_how_it_is_run(root: Seq<char>)
    ensures
        run_arguments(root, false) == seq!["--data-dir"@, root, "daemon"@, "run"@],
        run_arguments(root, true) == seq!["--data-dir"@, root, "daemon"@, "run"@, "--poll"@],
{
    assert(run_arguments(root, false) =~= seq!["--data-dir"@, root, "daemon"@, "run"@]);
    assert(run_arguments(root, true) =~= seq!["--data-dir"@, root, "daemon"@, "run"@, "--poll"@]);
}

// ---------------------------------------------------------------------------------------------
// Watching

/// Of every enabled entry, the directory that holds its source is watched, and the source itself, with
/// all below it, where it is a directory that is there.
pub proof fn lemma_every_enabled_source_is_watched(config: ConfigView, present: Seq<bool>, list: Seq<Watch>, k: int)
    requires
        watches_for(config, present, list, config.entries.len() as int),
        0 <= k < config.entries.len(),
        config.entries[k].enabled,
    ensures
        upper(config.entries[k].source) matches Some(above) ==> exists|i: int| 0 <= i < list.len() && parts((#[trigger] list[i]).path@) == parts(above),
        config.entries[k].directory && present[k] ==> exists|i: int|
            0 <= i < list.len() && parts((#[trigger] list[i]).path@) == parts(config.entries[k].source) && list[i].recursive,
{
    let n = config.entries.len() as int;
    let entry = config.entries[k];
    if upper(entry.source) is Some {
        assert(watched_as_parent(config, upper(entry.source)->0, n));
        assert(is_watched(list, upper(entry.source)->0));
    }
    if entry.directory && present[k] {
        assert(watched_below(config, present, entry.source, n));
        assert(is_watched(list, entry.source));
        let i = choose|i: int| 0 <= i < list.len() && parts((#[trigger] list[i]).path@) == parts(entry.source);
        assert(watched_below(config, present, list[i].path@, n));
        assert(list[i].recursive);
    }
}

/// Nothing else is watched, nothing twice, and what lies below a path only where a source stands there.
pub proof fn lemma_only_enabled_sources_are_watched(config: ConfigView, present: Seq<bool>, list: Seq<Watch>, i: int, j: int)
    requires
        watches_for(config, present, list, config.entries.len() as int),
        0 <= i < list.len(),
        0 <= j < list.len(),
    ensures
        exists|k: int|
            0 <= k < config.entries.len() && (#[trigger] config.entries[k]).enabled && ((upper(config.entries[k].source) is Some && parts(
                upper(config.entries[k].source)->0,
            ) == parts(list[i].path@)) || (config.entries[k].directory && present[k] && parts(config.entries[k].source) == parts(list[i].path@))),
        list[i].recursive ==> exists|k: int|
            0 <= k < config.entries.len() && (#[trigger] config.entries[k]).enabled && config.entries[k].directory && present[k] && parts(
                config.entries[k].source,
            ) == parts(list[i].path@),
        i < j ==> path_before(list[i].path@, list[j].path@) && parts(list[i].path@) != parts(list[j].path@),
{
    let n = config.entries.len() as int;
    assert(is_watched(list, list[i].path@));
    if i < j {
        assert(path_before(list[i].path@, list[j].path@));
        crate::path::lemma_parts_irreflexive(parts(list[i].path@), 0);
    }
}

// ---------------------------------------------------------------------------------------------
// Switching to another repository

/// Another target changes the repository and, where one is given, the subdirectory, in its clean form.
/// Nothing else changes.
pub proof fn lemma_what_switching_changes(old: ConfigView, repository: Seq<char>, subdir: Seq<char>)
    ensures
        with_target(old, repository, None) == Ok::<ConfigView, Seq<char>>(ConfigView { repository, ..old }),
        clean(subdir) is Ok ==> with_target(old, repository, Some(subdir)) == Ok::<ConfigView, Seq<char>>(
            ConfigView { repository, subdir: clean(subdir)->Ok_0, ..old },
        ),
        clean(subdir) is Err ==> with_target(old, repository, Some(subdir)) == Err::<ConfigView, Seq<char>>(clean(subdir)->Err_0),
{
}

/// A target is the same where both its repository and its subdirectory are.
pub proof fn lemma_which_targets_are_the_same(a: ConfigView, b: ConfigView)
    ensures
        same_target(a, b) <==> parts(a.repository) == parts(b.repository) && parts(a.subdir) == parts(b.subdir),
{
}

/// A target can be switched to exactly where it can be used, and its repository is the old one or lies
/// apart from it.
pub proof fn lemma_where_one_can_switch(root: Seq<char>, old: ConfigView, new: ConfigView, home: Seq<char>)
    ensures
        retarget_refusal(root, old, new, Ok(home)) is None <==> {
            &&& is_sound(new, home)
            &&& lie_apart(root, new.repository)
            &&& forall|k: int| 0 <= k < new.entries.len() ==> lie_apart(root, (#[trigger] new.entries[k]).source)
            &&& parts(new.repository) == parts(old.repository) || lie_apart(new.repository, old.repository)
        },
{
    lemma_what_a_data_directory_accepts(root, new, home, root);
    assert(overlap(new.repository, old.repository) == !lie_apart(new.repository, old.repository));
}

/// What is meant by the path of a repository: behind `~` it lies in the home directory, and else where it
/// lies seen from the directory at hand.
pub proof fn lemma_which_repository_is_meant(path: Seq<char>, home: Seq<char>, seen: Result<Seq<char>, Seq<char>>, text: Seq<char>, tail: Seq<Seq<char>>)
    requires
        home.len() > 0,
    ensures
        parts(path) == seq!["~"@] + tail ==> repository_start(path, Ok(home), seen) is Ok && parts(repository_start(path, Ok(home), seen)->Ok_0)
            == parts(home) + tail && repository_start(path, Err(text), seen) == Err::<Seq<char>, Seq<char>>(text),
        parts(path).len() == 0 || parts(path)[0] != "~"@ ==> repository_start(path, Ok(home), seen) == seen && repository_start(path, Err(text), seen)
            == seen,
{
    reveal_strlit("~");
    reveal_strlit(".");
    lemma_name("~"@);
    if parts(path) == seq!["~"@] + tail {
        assert(parts(path).subrange(0, 1) =~= seq!["~"@]);
        assert(under(path, "~"@));
        lemma_stripped(path, "~"@);
        let rest = stripped(path, "~"@)->0;
        assert(names(rest) =~= tail) by {
            assert((seq!["~"@] + names(rest)).skip(1) =~= names(rest));
            assert((seq!["~"@] + tail).skip(1) =~= tail);
        }
        lemma_joined(home, rest);
    }
    if parts(path).len() == 0 || parts(path)[0] != "~"@ {
        if under(path, "~"@) {
            assert(parts(path).subrange(0, 1)[0] == seq!["~"@][0]);
        }
    }
}

/// A path is resolved part by part: `.` changes nothing, `..` goes up where there is something above,
/// and any other part has to be looked at first.
pub proof fn lemma_how_paths_are_resolved(rest: Seq<Seq<char>>, resolved: Seq<char>, above: Seq<char>, name: Seq<char>)
    ensures
        ({
            let from = ResolverView { rest, resolved };
            &&& (ResolverView { rest: Seq::empty(), resolved }).advanced() == (ResolverView { rest: Seq::empty(), resolved })
            &&& (ResolverView { rest: seq!["."@] + rest, resolved }).advanced() == from.advanced()
            &&& upper(resolved) == Some(above) ==> (ResolverView { rest: seq![".."@] + rest, resolved }).advanced() == (ResolverView {
                rest,
                resolved: above,
            }).advanced()
            &&& upper(resolved) is None ==> (ResolverView { rest: seq![".."@] + rest, resolved }).advanced() == from.advanced()
            &&& name != "."@ && name != ".."@ ==> (ResolverView { rest: seq![name] + rest, resolved }).advanced() == (ResolverView {
                rest: seq![name] + rest,
                resolved,
            })
        }),
{
    reveal_strlit(".");
    reveal_strlit("..");
    assert("."@.len() != ".."@.len());
    assert((seq!["."@] + rest).skip(1) =~= rest);
    assert((seq![".."@] + rest).skip(1) =~= rest);
}

/// Every place that a target needs is looked at: one in the subdirectory, and that of each entry.
pub proof fn lemma_which_places_a_target_needs(config: ConfigView)
    ensures
        target_paths(config).len() == config.entries.len() + 1,
        target_paths(config)[0] == joined(config.subdir, ".filetrail-check"@),
        forall|k: int| 0 <= k < config.entries.len() ==> target_paths(config)[k + 1] == destined(config.subdir, (#[trigger] config.entries[k]).target),
{
}

/// Forgetting a profile removes its files, each once, the note on a switch first.
pub proof fn lemma_what_is_forgotten()
    ensures
        profile_names().len() == 7,
        profile_names()[0] == "pending-retarget.toml"@,
        profile_names().contains("config.toml"@),
        profile_names().contains("state.db"@),
        profile_names().contains("state.db-journal"@),
        profile_names().contains("state.db-wal"@),
        profile_names().contains("state.db-shm"@),
        profile_names().contains("daemon.sock"@),
{
    let list = profile_names();
    assert(list[1] == "config.toml"@);
    assert(list[2] == "state.db"@);
    assert(list[3] == "state.db-journal"@);
    assert(list[4] == "state.db-wal"@);
    assert(list[5] == "state.db-shm"@);
    assert(list[6] == "daemon.sock"@);
}

} // verus!
