//! The rules of the daemon: when it synchronizes, what it answers, and what it watches.
//!
//! Times are milliseconds of a clock that never goes back.
use vstd::prelude::*;

use crate::config::{Config, ConfigView};
use crate::error::{outcome, Error};
use crate::path::{
    is_path_before, is_same, lemma_parts_irreflexive, lemma_parts_total, lemma_parts_transitive, parent, parts, path_before, upper,
};
use crate::text::{decimal, end_trimmed, number, same, trim, trim_end, trimmed, views};

verus! {

/// What the daemon knows of the time and of the work that is waiting.
#[derive(Clone, Debug)]
pub struct Daemon {
    /// Whether it goes by the clock alone.
    pub poll: bool,
    pub paused: bool,
    pub stopped: bool,
    /// Since when there is work.
    pub dirty: Option<u64>,
    /// When something was last seen to happen.
    pub latest_event: u64,
    pub last_scan: u64,
    /// When the configuration was last looked at.
    pub config_check: u64,
}

/// How long ago a time was.
pub open spec fn elapsed(now: u64, since: u64) -> int {
    if now >= since {
        now - since
    } else {
        0
    }
}

fn time_since(now: u64, since: u64) -> (r: u64)
    ensures
        r == elapsed(now, since),
{
    if now >= since {
        now - since
    } else {
        0
    }
}

/// What the daemon is asked.
#[derive(Clone, Copy, Debug, PartialEq, Eq, Structural)]
pub enum Order {
    Status,
    Pause,
    Resume,
    Stop,
    Unknown,
}

/// What a line of input asks.
pub open spec fn order_in(input: Seq<char>) -> Order {
    if trimmed(input) == "status"@ {
        Order::Status
    } else if trimmed(input) == "pause"@ {
        Order::Pause
    } else if trimmed(input) == "resume"@ {
        Order::Resume
    } else if trimmed(input) == "stop"@ {
        Order::Stop
    } else {
        Order::Unknown
    }
}

/// Reads what a line of input asks.
pub fn parse_order(input: &str) -> (r: Order)
    ensures
        r == order_in(input@),
{
    let word = trim(input);
    if same(word.as_str(), "status") {
        Order::Status
    } else if same(word.as_str(), "pause") {
        Order::Pause
    } else if same(word.as_str(), "resume") {
        Order::Resume
    } else if same(word.as_str(), "stop") {
        Order::Stop
    } else {
        Order::Unknown
    }
}

impl Daemon {
    /// A daemon that has just started, with everything to be synchronized.
    pub fn new(poll: bool, now: u64) -> (r: Daemon)
        ensures
            r == (Daemon {
                poll,
                paused: false,
                stopped: false,
                dirty: Some(now),
                latest_event: now,
                last_scan: now,
                config_check: now,
            }),
    {
        Daemon {
            poll,
            paused: false,
            stopped: false,
            dirty: Some(now),
            latest_event: now,
            last_scan: now,
            config_check: now,
        }
    }

    /// What it says of itself.
    pub open spec fn status_text(self, pid: u32) -> Seq<char> {
        "running pid="@ + decimal(pid as nat) + " paused="@ + (if self.paused {
            "true"@
        } else {
            "false"@
        }) + " mode="@ + (if self.poll {
            "poll"@
        } else {
            "native+periodic"@
        })
    }

    /// What it becomes by an order.
    pub open spec fn obeying(self, order: Order, now: u64) -> Daemon {
        match order {
            Order::Pause => Daemon { paused: true, ..self },
            Order::Resume => Daemon { paused: false, dirty: Some(now), ..self },
            Order::Stop => Daemon { stopped: true, ..self },
            _ => self,
        }
    }

    /// What it answers to an order.
    pub open spec fn reply(self, order: Order, pid: u32) -> Seq<char> {
        match order {
            Order::Status => self.status_text(pid),
            Order::Pause => "paused"@,
            Order::Resume => "resumed"@,
            Order::Stop => "stopped"@,
            Order::Unknown => "unknown command"@,
        }
    }

    /// Carries out a line of input and gives the answer.
    pub fn command(&mut self, input: &str, pid: u32, now: u64) -> (r: String)
        ensures
            *final(self) == old(self).obeying(order_in(input@), now),
            r@ == old(self).reply(order_in(input@), pid),
    {
        match parse_order(input) {
            Order::Status => {
                let paused = if self.paused {
                    "true"
                } else {
                    "false"
                };
                let mode = if self.poll {
                    "poll"
                } else {
                    "native+periodic"
                };
                "running pid=".to_owned().concat(number(pid as u64).as_str()).concat(" paused=").concat(paused).concat(" mode=").concat(
                    mode,
                )
            },
            Order::Pause => {
                self.paused = true;
                "paused".to_owned()
            },
            Order::Resume => {
                self.paused = false;
                self.dirty = Some(now);
                "resumed".to_owned()
            },
            Order::Stop => {
                self.stopped = true;
                "stopped".to_owned()
            },
            Order::Unknown => "unknown command".to_owned(),
        }
    }

    /// Since when there is work, where some has come up now.
    pub open spec fn dirtied(self, now: u64) -> Option<u64> {
        match self.dirty {
            Some(first) => Some(first),
            None => Some(now),
        }
    }

    /// Takes note that a watched path changed.
    pub fn event(&mut self, now: u64)
        ensures
            *final(self) == (Daemon { dirty: old(self).dirtied(now), latest_event: now, ..*old(self) }),
    {
        self.reloaded(now);
        self.latest_event = now;
    }

    /// Takes note that the configuration changed.
    pub fn reloaded(&mut self, now: u64)
        ensures
            *final(self) == (Daemon { dirty: old(self).dirtied(now), ..*old(self) }),
    {
        if self.dirty.is_none() {
            self.dirty = Some(now);
        }
    }

    /// Whether the configuration is to be looked at again, at most once a second.
    pub fn checks_config(&mut self, now: u64) -> (r: bool)
        ensures
            r == (elapsed(now, old(self).config_check) >= 1000),
            *final(self) == (if r {
                Daemon { config_check: now, ..*old(self) }
            } else {
                *old(self)
            }),
    {
        if time_since(now, self.config_check) >= 1000 {
            self.config_check = now;
            true
        } else {
            false
        }
    }

    /// Whether the work that is waiting has come to rest, or has waited long enough.
    pub open spec fn settled(self, now: u64) -> bool {
        self.dirty is Some && (elapsed(now, self.latest_event) >= 350 || elapsed(now, self.dirty->0) >= 2000)
    }

    /// Whether it is time for a periodic scan.
    pub open spec fn due(self, now: u64, interval_secs: u64) -> bool {
        elapsed(now, self.last_scan) >= interval_secs * 1000
    }

    /// Whether to synchronize now.
    pub open spec fn synchronizing(self, now: u64, interval_secs: u64) -> bool {
        !self.paused && (self.due(now, interval_secs) || self.settled(now))
    }

    /// Whether to synchronize now.
    pub fn synchronizes(&self, now: u64, interval_secs: u64) -> (r: bool)
        ensures
            r == self.synchronizing(now, interval_secs),
    {
        let waited: u64 = time_since(now, self.last_scan);
        assert(waited / 1000 >= interval_secs <==> waited >= interval_secs * 1000) by (nonlinear_arith);
        let due = waited / 1000 >= interval_secs;
        let settled = match self.dirty {
            Some(first) => time_since(now, self.latest_event) >= 350 || time_since(now, first) >= 2000,
            None => false,
        };
        !self.paused && (due || settled)
    }

    /// Takes note that a synchronization ended.
    pub fn synchronized(&mut self, now: u64)
        ensures
            *final(self) == (Daemon { dirty: None, last_scan: now, ..*old(self) }),
    {
        self.dirty = None;
        self.last_scan = now;
    }
}

// ---------------------------------------------------------------------------------------------
// Talking to the daemon

/// Reads the answer of the daemon.
pub fn request(answer: &str) -> (r: Result<String, Error>)
    ensures
        outcome(r) == (if answer@.len() == 0 {
            Err::<Seq<char>, Seq<char>>("daemon disconnected without responding"@)
        } else {
            Ok(end_trimmed(answer@))
        }),
{
    proof {
        reveal_strlit("");
        assert(answer@.len() == 0 ==> answer@ =~= ""@);
    }
    if same(answer, "") {
        return Err(Error::new("daemon disconnected without responding"));
    }
    Ok(trim_end(answer))
}

/// The arguments that the daemon is run with.
pub open spec fn run_arguments(root: Seq<char>, poll: bool) -> Seq<Seq<char>> {
    seq!["--data-dir"@, root, "daemon"@, "run"@] + (if poll {
        seq!["--poll"@]
    } else {
        seq![]
    })
}

/// The arguments that the daemon is run with.
pub fn arguments(root: &str, poll: bool) -> (r: Vec<String>)
    ensures
        views(r@) == run_arguments(root@, poll),
{
    let mut list: Vec<String> = vec!["--data-dir".to_owned(), root.to_owned(), "daemon".to_owned(), "run".to_owned()];
    if poll {
        list.push("--poll".to_owned());
    }
    assert(views(list@) =~= run_arguments(root@, poll));
    list
}

/// How the start of the daemon goes on.
pub enum Starting {
    Ready(String),
    Exited(Error),
    TimedOut(Error),
    Waiting,
}

/// Decides how the start of the daemon goes on, given what it says, how it ended where it did, and
/// how many milliseconds have passed.
pub fn start(status: Option<String>, exited: Option<String>, log: &str, waited: u64) -> (r: Starting)
    ensures
        match r {
            Starting::TimedOut(error) => waited >= 10000 && error@ == "daemon did not become ready within 10 seconds"@,
            Starting::Ready(text) => waited < 10000 && status == Some(text),
            Starting::Exited(error) => waited < 10000 && status is None && exited is Some && error@ == "daemon exited ("@ + exited->0@
                + "); inspect "@ + log@,
            Starting::Waiting => waited < 10000 && status is None && exited is None,
        },
{
    if waited >= 10000 {
        return Starting::TimedOut(Error::new("daemon did not become ready within 10 seconds"));
    }
    match status {
        Some(text) => Starting::Ready(text),
        None => match exited {
            Some(how) => {
                let text = "daemon exited (".to_owned().concat(how.as_str()).concat("); inspect ").concat(log);
                Starting::Exited(Error { text })
            },
            None => Starting::Waiting,
        },
    }
}

/// Whether the wait for the daemon to stop is over, given whether its lock could be taken and how
/// many milliseconds have passed; or why it is given up.
pub fn stop(locked: bool, waited: u64) -> (r: Result<bool, Error>)
    ensures
        locked ==> r is Ok && r->Ok_0,
        !locked && waited < 10000 ==> r is Ok && !r->Ok_0,
        !locked && waited >= 10000 ==> r is Err && r->Err_0@ == "daemon is still stopping"@,
{
    if locked {
        Ok(true)
    } else if waited >= 10000 {
        Err(Error::new("daemon is still stopping"))
    } else {
        Ok(false)
    }
}

// ---------------------------------------------------------------------------------------------
// The log

/// Whether a log of the given size is set aside before more is written.
pub fn rotates(size: u64) -> (r: bool)
    ensures
        r == (size > 2 * 1024 * 1024),
{
    size > 2 * 1024 * 1024
}

/// The line of the log on a message.
pub fn log(time: u64, message: &str) -> (r: String)
    ensures
        r@ == decimal(time as nat) + " "@ + message@,
{
    number(time).concat(" ").concat(message)
}

// ---------------------------------------------------------------------------------------------
// What is watched

/// A path that is watched, perhaps with everything below it.
pub struct Watch {
    pub path: String,
    pub recursive: bool,
}

/// Whether everything below a path is watched: it is the source of an enabled entry for a directory
/// that is there.
pub open spec fn watched_below(config: ConfigView, present: Seq<bool>, path: Seq<char>, n: int) -> bool {
    exists|k: int|
        0 <= k < n && (#[trigger] config.entries[k]).enabled && config.entries[k].directory && present[k] && parts(config.entries[k].source)
            == parts(path)
}

/// Whether a path is watched for being the directory of a source: so that a source that is replaced
/// or made anew is not lost.
pub open spec fn watched_as_parent(config: ConfigView, path: Seq<char>, n: int) -> bool {
    exists|k: int|
        0 <= k < n && (#[trigger] config.entries[k]).enabled && upper(config.entries[k].source) is Some && parts(
            upper(config.entries[k].source)->0,
        ) == parts(path)
}

/// Whether watches stand in the order of their paths, each path once.
pub open spec fn in_path_order(list: Seq<Watch>) -> bool {
    forall|i: int, j: int| 0 <= i < j < list.len() ==> path_before((#[trigger] list[i]).path@, (#[trigger] list[j]).path@)
}

/// Whether watches are exactly those for the first `n` entries, in order.
pub open spec fn watches_for(config: ConfigView, present: Seq<bool>, list: Seq<Watch>, n: int) -> bool {
    &&& in_path_order(list)
    &&& forall|path: Seq<char>| #[trigger] is_watched(list, path) <==> watched_below(config, present, path, n) || watched_as_parent(config, path, n)
    &&& forall|i: int| 0 <= i < list.len() ==> (#[trigger] list[i]).recursive == watched_below(config, present, list[i].path@, n)
}

/// Whether a path is watched.
pub open spec fn is_watched(list: Seq<Watch>, path: Seq<char>) -> bool {
    exists|i: int| 0 <= i < list.len() && parts((#[trigger] list[i]).path@) == parts(path)
}

/// Whether everything below a path is watched, going by the watches.
spec fn is_deep(list: Seq<Watch>, path: Seq<char>) -> bool {
    exists|i: int| 0 <= i < list.len() && parts((#[trigger] list[i]).path@) == parts(path) && list[i].recursive
}

/// Adds a watch, or widens the one that the path has.
fn add_watch(list: &mut Vec<Watch>, path: &str, recursive: bool)
    requires
        in_path_order(old(list)@),
    ensures
        in_path_order(final(list)@),
        forall|p: Seq<char>| #[trigger] is_watched(final(list)@, p) <==> is_watched(old(list)@, p) || parts(p) == parts(path@),
        forall|p: Seq<char>| #[trigger] is_deep(final(list)@, p) <==> is_deep(old(list)@, p) || (recursive && parts(p) == parts(path@)),
{
    let ghost prior = list@;
    let mut i: usize = 0;
    while i < list.len() && is_path_before(list[i].path.as_str(), path)
        invariant
            list@ == prior,
            i <= list@.len(),
            forall|k: int| 0 <= k < i ==> path_before((#[trigger] list@[k]).path@, path@),
        decreases list@.len() - i,
    {
        i = i + 1;
    }
    if i < list.len() && is_same(list[i].path.as_str(), path) {
        let wide = list[i].recursive || recursive;
        let kept = list[i].path.clone();
        list[i] = Watch { path: kept, recursive: wide };
        proof {
            let now = list@;
            assert forall|k: int| 0 <= k < now.len() implies (#[trigger] now[k]).path@ == prior[k].path@ && (now[k].recursive == prior[k].recursive
                || k == i) by {}
            assert forall|p: Seq<char>| #[trigger] is_watched(now, p) <==> is_watched(prior, p) || parts(p) == parts(path@) by {
                if is_watched(prior, p) {
                    let k = choose|k: int| 0 <= k < prior.len() && parts((#[trigger] prior[k]).path@) == parts(p);
                    assert(parts(now[k].path@) == parts(p));
                }
                if parts(p) == parts(path@) {
                    assert(parts(now[i as int].path@) == parts(p));
                }
                if is_watched(now, p) {
                    let k = choose|k: int| 0 <= k < now.len() && parts((#[trigger] now[k]).path@) == parts(p);
                    assert(parts(prior[k].path@) == parts(p));
                }
            }
            assert forall|p: Seq<char>| #[trigger] is_deep(now, p) <==> is_deep(prior, p) || (recursive && parts(p) == parts(path@)) by {
                if is_deep(prior, p) {
                    let k = choose|k: int| 0 <= k < prior.len() && parts((#[trigger] prior[k]).path@) == parts(p) && prior[k].recursive;
                    assert(parts(now[k].path@) == parts(p) && now[k].recursive);
                }
                if recursive && parts(p) == parts(path@) {
                    assert(parts(now[i as int].path@) == parts(p) && now[i as int].recursive);
                }
                if is_deep(now, p) {
                    let k = choose|k: int| 0 <= k < now.len() && parts((#[trigger] now[k]).path@) == parts(p) && now[k].recursive;
                    if k != i || prior[k].recursive {
                        assert(parts(prior[k].path@) == parts(p) && prior[k].recursive);
                    }
                }
            }
            assert forall|k: int, l: int| 0 <= k < l < now.len() implies path_before((#[trigger] now[k]).path@, (#[trigger] now[l]).path@) by {
                assert(path_before(prior[k].path@, prior[l].path@));
            }
        }
        return;
    }
    let watch = Watch { path: path.to_owned(), recursive };
    list.insert(i, watch);
    proof {
        let now = list@;
        assert(now == prior.insert(i as int, watch));
        if i < prior.len() {
            assert(parts(prior[i as int].path@).take(0) =~= parts(path@).take(0));
            lemma_parts_total(parts(prior[i as int].path@), parts(path@), 0);
            assert(path_before(path@, prior[i as int].path@));
        }
        assert forall|k: int, l: int| 0 <= k < l < now.len() implies path_before((#[trigger] now[k]).path@, (#[trigger] now[l]).path@) by {
            if l == i {
                assert(now[k] == prior[k]);
            } else if k == i {
                assert(now[l] == prior[l - 1]);
                if l - 1 > i {
                    assert(path_before(prior[i as int].path@, prior[l - 1].path@));
                    lemma_parts_transitive(parts(path@), parts(prior[i as int].path@), parts(prior[l - 1].path@), 0);
                }
            } else {
                let a = if k < i { k } else { k - 1 };
                let b = if l < i { l } else { l - 1 };
                assert(path_before(prior[a].path@, prior[b].path@));
            }
        }
        assert forall|p: Seq<char>| #[trigger] is_watched(now, p) <==> is_watched(prior, p) || parts(p) == parts(path@) by {
            if is_watched(prior, p) {
                let k = choose|k: int| 0 <= k < prior.len() && parts((#[trigger] prior[k]).path@) == parts(p);
                let m = if k < i { k } else { k + 1 };
                assert(now[m] == prior[k]);
            }
            if parts(p) == parts(path@) {
                assert(parts(now[i as int].path@) == parts(p));
            }
            if is_watched(now, p) {
                let k = choose|k: int| 0 <= k < now.len() && parts((#[trigger] now[k]).path@) == parts(p);
                if k != i {
                    let m = if k < i { k } else { k - 1 };
                    assert(now[k] == prior[m]);
                }
            }
        }
        assert forall|p: Seq<char>| #[trigger] is_deep(now, p) <==> is_deep(prior, p) || (recursive && parts(p) == parts(path@)) by {
            if is_deep(prior, p) {
                let k = choose|k: int| 0 <= k < prior.len() && parts((#[trigger] prior[k]).path@) == parts(p) && prior[k].recursive;
                let m = if k < i { k } else { k + 1 };
                assert(now[m] == prior[k]);
            }
            if recursive && parts(p) == parts(path@) {
                assert(parts(now[i as int].path@) == parts(p) && now[i as int].recursive);
            }
            if is_deep(now, p) {
                let k = choose|k: int| 0 <= k < now.len() && parts((#[trigger] now[k]).path@) == parts(p) && now[k].recursive;
                if k != i {
                    let m = if k < i { k } else { k - 1 };
                    assert(now[k] == prior[m]);
                }
            }
        }
    }
}

/// What is watched for a configuration, where `present` tells which sources are directories now.
pub fn watches(config: &Config, present: &Vec<bool>) -> (r: Vec<Watch>)
    requires
        present@.len() == config@.entries.len(),
    ensures
        watches_for(config@, present@, r@, config@.entries.len() as int),
{
    let mut list: Vec<Watch> = Vec::new();
    let ghost entries = config@.entries;
    let mut i: usize = 0;
    while i < config.entries.len()
        invariant
            entries == config@.entries,
            entries.len() == config.entries@.len(),
            present@.len() == entries.len(),
            i <= config.entries@.len(),
            in_path_order(list@),
            forall|p: Seq<char>|
                #[trigger] is_watched(list@, p) <==> watched_below(config@, present@, p, i as int) || watched_as_parent(config@, p, i as int),
            forall|p: Seq<char>| #[trigger] is_deep(list@, p) <==> watched_below(config@, present@, p, i as int),
        decreases config.entries@.len() - i,
    {
        let entry = &config.entries[i];
        assert(entries[i as int] == entry@);
        let ghost n = i as int;
        proof {
            assert forall|p: Seq<char>|
                #[trigger] watched_below(config@, present@, p, n + 1) <==> watched_below(config@, present@, p, n) || (entry.enabled
                    && entry.directory && present@[n] && parts(entry@.source) == parts(p)) by {
                if watched_below(config@, present@, p, n + 1) && !watched_below(config@, present@, p, n) {
                    let k = choose|k: int|
                        0 <= k < n + 1 && (#[trigger] config@.entries[k]).enabled && config@.entries[k].directory && present@[k] && parts(
                            config@.entries[k].source,
                        ) == parts(p);
                    assert(k == n);
                }
                if entry.enabled && entry.directory && present@[n] && parts(entry@.source) == parts(p) {
                    assert(config@.entries[n].enabled);
                }
            }
            assert forall|p: Seq<char>|
                #[trigger] watched_as_parent(config@, p, n + 1) <==> watched_as_parent(config@, p, n) || (entry.enabled && upper(
                    entry@.source,
                ) is Some && parts(upper(entry@.source)->0) == parts(p)) by {
                if watched_as_parent(config@, p, n + 1) && !watched_as_parent(config@, p, n) {
                    let k = choose|k: int|
                        0 <= k < n + 1 && (#[trigger] config@.entries[k]).enabled && upper(config@.entries[k].source) is Some && parts(
                            upper(config@.entries[k].source)->0,
                        ) == parts(p);
                    assert(k == n);
                }
                if entry.enabled && upper(entry@.source) is Some && parts(upper(entry@.source)->0) == parts(p) {
                    assert(config@.entries[n].enabled);
                }
            }
        }
        if entry.enabled {
            if entry.directory && present[i] {
                add_watch(&mut list, entry.source.as_str(), true);
            }
            match parent(entry.source.as_str()) {
                Some(above) => add_watch(&mut list, above.as_str(), false),
                None => (),
            }
        }
        assert forall|p: Seq<char>|
            #[trigger] is_watched(list@, p) <==> watched_below(config@, present@, p, n + 1) || watched_as_parent(config@, p, n + 1) by {}
        assert forall|p: Seq<char>| #[trigger] is_deep(list@, p) <==> watched_below(config@, present@, p, n + 1) by {}
        i = i + 1;
    }
    proof {
        let n = config@.entries.len() as int;
        assert forall|k: int| 0 <= k < list@.len() implies (#[trigger] list@[k]).recursive == watched_below(config@, present@, list@[k].path@, n) by {
            let p = list@[k].path@;
            if list@[k].recursive {
                assert(is_deep(list@, p));
            }
            if is_deep(list@, p) {
                let m = choose|m: int| 0 <= m < list@.len() && parts((#[trigger] list@[m]).path@) == parts(p) && list@[m].recursive;
                lemma_parts_irreflexive(parts(p), 0);
                if m < k {
                    assert(path_before(list@[m].path@, list@[k].path@));
                } else if k < m {
                    assert(path_before(list@[k].path@, list@[m].path@));
                }
            }
        }
    }
    list
}

// ---------------------------------------------------------------------------------------------
// Laws

/// A paused daemon does not synchronize. Told to resume, it catches up: after two seconds at the
/// latest it synchronizes.
pub proof fn lemma_pausing_and_resuming(daemon: Daemon, ordered: u64, now: u64, interval_secs: u64)
    ensures
        !daemon.obeying(Order::Pause, ordered).synchronizing(now, interval_secs),
        elapsed(now, ordered) >= 2000 ==> daemon.obeying(Order::Resume, ordered).synchronizing(now, interval_secs),
{
}

/// Orders other than to resume leave a paused daemon paused.
pub proof fn lemma_only_resuming_ends_a_pause(daemon: Daemon, order: Order, now: u64)
    requires
        daemon.paused,
        order != Order::Resume,
    ensures
        daemon.obeying(order, now).paused,
{
}

} // verus!
