//! Switching to another repository, and forgetting a profile.
use vstd::prelude::*;

use crate::config::{
    clean, destined, overlap, overlaps, relative, store_refusal, Config, ConfigView, Store,
};
use crate::error::{outcome, Error};
use crate::path::{components, is_same, join, joined, parent, parts, strip_prefix, stripped, upper};
use crate::state::{no_history, State};
use crate::text::{same, views};

verus! {

// ---------------------------------------------------------------------------------------------
// The path of a repository

/// The path that is meant, where `~` stands for the home directory, and `absolute` is the path seen
/// from the directory at hand.
pub open spec fn repository_start(
    path: Seq<char>,
    home: Result<Seq<char>, Seq<char>>,
    absolute: Result<Seq<char>, Seq<char>>,
) -> Result<Seq<char>, Seq<char>> {
    match stripped(path, "~"@) {
        Some(rest) => match home {
            Ok(home) => Ok(joined(home, rest)),
            Err(text) => Err(text),
        },
        None => absolute,
    }
}

/// Finds the path that is meant.
pub fn repository_path(path: &str, home: &Result<String, Error>, absolute: &Result<String, Error>) -> (r: Result<String, Error>)
    ensures
        outcome(r) == repository_start(path@, outcome(*home), outcome(*absolute)),
{
    match strip_prefix(path, "~") {
        Some(rest) => match home {
            Ok(home) => Ok(join(home.as_str(), rest.as_str())),
            Err(error) => Err(Error { text: error.text.clone() }),
        },
        None => match absolute {
            Ok(path) => Ok(path.clone()),
            Err(error) => Err(Error { text: error.text.clone() }),
        },
    }
}

/// A path that is being resolved part by part, so that links and `..` are followed before anything
/// is made.
pub struct Resolver {
    rest: Vec<String>,
    position: usize,
    resolved: String,
}

#[verifier::ext_equal]
pub struct ResolverView {
    /// The parts that are left.
    pub rest: Seq<Seq<char>>,
    pub resolved: Seq<char>,
}

impl View for Resolver {
    type V = ResolverView;

    closed spec fn view(&self) -> ResolverView {
        ResolverView { rest: views(self.rest@).skip(self.position as int), resolved: self.resolved@ }
    }
}

impl ResolverView {
    /// What is resolved without looking: up to a part that has to be looked at, or to the end.
    pub open spec fn advanced(self) -> ResolverView
        decreases self.rest.len(),
    {
        if self.rest.len() == 0 {
            self
        } else if self.rest[0] == "."@ {
            ResolverView { rest: self.rest.skip(1), ..self }.advanced()
        } else if self.rest[0] == ".."@ {
            ResolverView {
                rest: self.rest.skip(1),
                resolved: match upper(self.resolved) {
                    Some(above) => above,
                    None => self.resolved,
                },
            }.advanced()
        } else {
            self
        }
    }
}

impl Resolver {
    /// Whether the resolver is in order.
    pub closed spec fn wf(&self) -> bool {
        self.position <= self.rest@.len()
    }

    /// Begins to resolve a path.
    pub fn new(path: &str) -> (r: Resolver)
        ensures
            r.wf(),
            r@ == (ResolverView { rest: parts(path@), resolved: Seq::empty() }),
    {
        let r = Resolver { rest: components(path), position: 0, resolved: String::new() };
        assert(r@.rest =~= parts(path@));
        r
    }

    /// The next path to be looked at, or none when everything is resolved.
    pub fn step(&mut self) -> (r: Option<String>)
        requires
            old(self).wf(),
        ensures
            final(self).wf(),
            ({
                let ahead = old(self)@.advanced();
                if ahead.rest.len() == 0 {
                    r is None && final(self)@ == ahead
                } else {
                    let place = joined(ahead.resolved, ahead.rest[0]);
                    r is Some && r->0@ == place && final(self)@ == (ResolverView { rest: ahead.rest.skip(1), resolved: place })
                }
            }),
    {
        let ghost wanted = self@.advanced();
        let count: usize = self.rest.len();
        while self.position < self.rest.len()
            invariant
                self.wf(),
                count == self.rest@.len(),
                wanted == old(self)@.advanced(),
                wanted == self@.advanced(),
            decreases self.rest@.len() - self.position,
        {
            let part = self.rest[self.position].clone();
            let ghost prior = self@;
            proof {
                assert(prior.rest[0] == part@);
                reveal_strlit(".");
                reveal_strlit("..");
            }
            self.position = self.position + 1;
            assert(self@.rest =~= prior.rest.skip(1));
            if same(part.as_str(), "..") {
                match parent(self.resolved.as_str()) {
                    Some(above) => self.resolved = above,
                    None => (),
                }
            } else if !same(part.as_str(), ".") {
                self.resolved = join(self.resolved.as_str(), part.as_str());
                assert(self@.rest =~= wanted.rest.skip(1));
                return Some(self.resolved.clone());
            }
        }
        assert(self@.rest.len() == 0);
        None
    }

    /// Takes note of where the path that was looked at leads, where something stands there.
    pub fn found(&mut self, canonical: String)
        requires
            old(self).wf(),
        ensures
            final(self).wf(),
            final(self)@ == (ResolverView { resolved: canonical@, ..old(self)@ }),
    {
        self.resolved = canonical;
    }

    /// The path as far as it is resolved.
    pub fn finish(self) -> (r: String)
        ensures
            r@ == self@.resolved,
    {
        self.resolved
    }
}

// ---------------------------------------------------------------------------------------------
// Another target

/// What becomes of a change of the target.
pub enum Retarget {
    /// The target stays, and so does the history.
    Same,
    /// Another target: the history begins anew.
    Switch(Config),
}

/// The configuration with another target.
pub open spec fn with_target(old: ConfigView, repository: Seq<char>, subdir: Option<Seq<char>>) -> Result<ConfigView, Seq<char>> {
    match subdir {
        None => Ok(ConfigView { repository, ..old }),
        Some(subdir) => match clean(subdir) {
            Err(text) => Err(text),
            Ok(subdir) => Ok(ConfigView { repository, subdir, ..old }),
        },
    }
}

/// Whether two configurations have the same target.
pub open spec fn same_target(a: ConfigView, b: ConfigView) -> bool {
    parts(a.repository) == parts(b.repository) && parts(a.subdir) == parts(b.subdir)
}

/// Why a change of the target is refused.
pub open spec fn retarget_refusal(root: Seq<char>, old: ConfigView, new: ConfigView, home: Result<Seq<char>, Seq<char>>) -> Option<Seq<char>> {
    match store_refusal(root, new, home) {
        Some(text) => Some(text),
        None => if parts(new.repository) != parts(old.repository) && overlap(new.repository, old.repository) {
            Some("the old and new repositories must not be nested inside each other"@)
        } else {
            None
        },
    }
}

/// Decides on a change of the target: the sources and options stay as they are.
pub fn retarget(store: &Store, old: &Config, repository: String, subdir: Option<&str>, home: &Result<String, Error>) -> (r: Result<Retarget, Error>)
    ensures
        match with_target(old@, repository@, crate::config::seen(subdir)) {
            Err(text) => r is Err && r->Err_0@ == text,
            Ok(new) => match retarget_refusal(store.root@, old@, new, outcome(*home)) {
                Some(text) => r is Err && r->Err_0@ == text,
                None => if same_target(new, old@) {
                    r is Ok && r->Ok_0 is Same
                } else {
                    r is Ok && r->Ok_0 is Switch && r->Ok_0->Switch_0@ == new
                },
            },
        },
{
    let mut config = old.copy();
    config.repository = repository;
    match subdir {
        Some(subdir) => match relative(subdir) {
            Ok(subdir) => config.subdir = subdir,
            Err(error) => return Err(error),
        },
        None => (),
    }
    match store.save_config(&config, home) {
        Ok(_) => (),
        Err(error) => return Err(error),
    }
    let same_repository = is_same(config.repository.as_str(), old.repository.as_str());
    if !same_repository && overlaps(config.repository.as_str(), old.repository.as_str()) {
        return Err(Error::new("the old and new repositories must not be nested inside each other"));
    }
    if same_repository && is_same(config.subdir.as_str(), old.subdir.as_str()) {
        return Ok(Retarget::Same);
    }
    Ok(Retarget::Switch(config))
}

/// The paths of the repository that have to be reachable before a target is used: the subdirectory
/// itself, and where each entry goes.
pub open spec fn target_paths(config: ConfigView) -> Seq<Seq<char>> {
    seq![joined(config.subdir, ".filetrail-check"@)] + Seq::new(
        config.entries.len(),
        |i: int| destined(config.subdir, config.entries[i].target),
    )
}

/// The paths of the repository that have to be reachable before a target is used.
pub fn paths_to_check(config: &Config) -> (r: Vec<String>)
    ensures
        views(r@) == target_paths(config@),
{
    let mut list: Vec<String> = Vec::new();
    list.push(join(config.subdir.as_str(), ".filetrail-check"));
    let mut i: usize = 0;
    while i < config.entries.len()
        invariant
            i <= config.entries@.len(),
            list@.len() == i + 1,
            list@[0]@ == joined(config@.subdir, ".filetrail-check"@),
            forall|k: int| 0 <= k < i ==> (#[trigger] list@[k + 1])@ == destined(config@.subdir, config@.entries[k].target),
        decreases config.entries@.len() - i,
    {
        assert(config@.entries[i as int] == config.entries@[i as int]@);
        let ghost prior = list@;
        list.push(config.destination(&config.entries[i]));
        assert forall|k: int| 0 <= k < i + 1 implies (#[trigger] list@[k + 1])@ == destined(config@.subdir, config@.entries[k].target) by {
            if k < i {
                assert(list@[k + 1] == prior[k + 1]);
            }
        }
        i = i + 1;
    }
    proof {
        assert forall|k: int| 0 <= k < list@.len() implies #[trigger] views(list@)[k] == target_paths(config@)[k] by {
            if k > 0 {
                assert(list@[k - 1 + 1]@ == destined(config@.subdir, config@.entries[k - 1].target));
            }
        }
        assert(views(list@) =~= target_paths(config@));
    }
    list
}

/// Completes a change of the target that was begun: the configuration that was written down is let
/// through where it can be used, and with it goes an empty history.
pub fn recover_retarget(store: &Store, pending: Config, home: &Result<String, Error>) -> (r: Result<(State, Config), Error>)
    ensures
        match store_refusal(store.root@, pending@, outcome(*home)) {
            Some(text) => r is Err && r->Err_0@ == text,
            None => r is Ok && r->Ok_0.1 == pending && r->Ok_0.0@ == no_history() && r->Ok_0.0.wf(),
        },
{
    match store.config(pending, home) {
        Ok(config) => Ok((State::new(), config)),
        Err(error) => Err(error),
    }
}

// ---------------------------------------------------------------------------------------------
// Forgetting a profile

/// The files of a profile, in the order in which they are removed. The locks stay.
pub open spec fn profile_names() -> Seq<Seq<char>> {
    seq![
        "pending-retarget.toml"@,
        "config.toml"@,
        "state.db"@,
        "state.db-journal"@,
        "state.db-wal"@,
        "state.db-shm"@,
        "daemon.sock"@,
    ]
}

/// The files of a profile, in the order in which they are removed.
pub fn deinit(store: &Store) -> (r: Vec<String>)
    ensures
        views(r@) == profile_names().map_values(|name: Seq<char>| joined(store.root@, name)),
{
    let root = store.root.as_str();
    let list: Vec<String> = vec![
        join(root, "pending-retarget.toml"),
        join(root, "config.toml"),
        join(root, "state.db"),
        join(root, "state.db-journal"),
        join(root, "state.db-wal"),
        join(root, "state.db-shm"),
        join(root, "daemon.sock"),
    ];
    assert(views(list@) =~= profile_names().map_values(|name: Seq<char>| joined(store.root@, name)));
    list
}

/// Whether the wait for the daemon to end is over, given whether its lock could be taken and how many
/// milliseconds have passed; or why it is given up.
pub fn await_daemon(locked: bool, waited: u64) -> (r: Result<bool, Error>)
    ensures
        locked ==> r is Ok && r->Ok_0,
        !locked && waited < 10000 ==> r is Ok && !r->Ok_0,
        !locked && waited >= 10000 ==> r is Err && r->Err_0@ == "cannot stop daemon; profile has been kept"@,
{
    if locked {
        Ok(true)
    } else if waited >= 10000 {
        Err(Error::new("cannot stop daemon; profile has been kept"))
    } else {
        Ok(false)
    }
}

// ---------------------------------------------------------------------------------------------
// Laws

/// Another target keeps the sources and all options.
pub proof fn lemma_retargeting_keeps_sources(old: ConfigView, repository: Seq<char>, subdir: Option<Seq<char>>)
    requires
        with_target(old, repository, subdir) is Ok,
    ensures
        with_target(old, repository, subdir)->Ok_0.entries == old.entries,
        with_target(old, repository, subdir)->Ok_0.exclude == old.exclude,
        with_target(old, repository, subdir)->Ok_0.scan_interval_secs == old.scan_interval_secs,
{
}

/// A target that is switched to lies apart from the old one, unless it is the same repository.
pub proof fn lemma_a_new_repository_lies_apart(root: Seq<char>, old: ConfigView, new: ConfigView, home: Result<Seq<char>, Seq<char>>)
    requires
        retarget_refusal(root, old, new, home) is None,
        parts(new.repository) != parts(old.repository),
    ensures
        !overlap(new.repository, old.repository),
{
}

} // verus!
