//! What a commit takes, and what is shown of changes.
use vstd::prelude::*;
use vstd::seq_lib::group_to_multiset_ensures;
use vstd::utf8::encode_utf8;

use crate::commit::{told, CommitAnswer, CommitPhaseView, CommitRequestView, CommitView};
use crate::config::{all_clean, clean, destined, lemma_clean_is_stable, ConfigView};
use crate::fingerprint::Look;
use crate::git::{
    change_paths, chosen_message, commit_refusal, count, debug_quoted, deed, details, is_managed, is_staged, letter, looks_fit, message_on,
    patch_bytes, quoted_paths, selection, sorted_changes, status_lines, summary, ChangeView, Deed, DiffLine, Patch,
};
use crate::laws::copying::{free_way, lemma_free_from, lemma_the_way_is_looked_at, leads_down};
use crate::order::{lemma_order_exists, lemma_rearranged, ordered_positions, precedes, sorted};
use crate::path::{names, parts, under};
use crate::state::{State, StateView};
use crate::sync::between_directories;
use crate::text::{before, decimal, joined_lines, whitespace};

verus! {

// ---------------------------------------------------------------------------------------------
// What is taken

/// Whether something of a change is staged: one of the five flags of the index is set.
pub open spec fn touches_index(status: u32) -> bool {
    ||| status & 1u32 != 0
    ||| status & 2u32 != 0
    ||| status & 4u32 != 0
    ||| status & 8u32 != 0
    ||| status & 16u32 != 0
}

/// A change is staged where one of the flags of the index is set.
pub proof fn lemma_touches_index(status: u32)
    ensures
        touches_index(status) == is_staged(status),
{
    assert(status & 31u32 != 0 <==> (status & 1u32 != 0 || status & 2u32 != 0 || status & 4u32 != 0 || status & 8u32 != 0 || status & 16u32
        != 0)) by (bit_vector);
}

/// Whether a path belongs to an entry: the entry owns it, and it is where the entry goes or lies below
/// that.
pub open spec fn belongs(config: ConfigView, state: StateView, path: Seq<char>) -> bool {
    state.owned.contains_key(path) && exists|k: int|
        0 <= k < config.entries.len() && (#[trigger] config.entries[k]).id == state.owned[path] && parts(
            destined(config.subdir, config.entries[k].target),
        ).is_prefix_of(parts(path))
}

/// The managed paths are those that belong to an entry.
pub proof fn lemma_belongs(config: ConfigView, state: StateView, path: Seq<char>)
    ensures
        belongs(config, state, path) == is_managed(config, state, path),
{
    if is_managed(config, state, path) {
        let k = choose|k: int|
            0 <= k < config.entries.len() && (#[trigger] config.entries[k]).id == state.owned[path] && crate::git::covers(
                config,
                config.entries[k],
                path,
            );
        assert(config.entries[k].id == state.owned[path]);
    }
    if belongs(config, state, path) {
        let k = choose|k: int|
            0 <= k < config.entries.len() && (#[trigger] config.entries[k]).id == state.owned[path] && parts(
                destined(config.subdir, config.entries[k].target),
            ).is_prefix_of(parts(path));
        assert(crate::git::covers(config, config.entries[k], path));
    }
}

/// Whether a path is one of the named paths or lies below one; all are where none is named.
pub open spec fn is_named(paths: Seq<Seq<char>>, path: Seq<char>) -> bool {
    paths.len() == 0 || exists|k: int| 0 <= k < paths.len() && names(#[trigger] paths[k]).is_prefix_of(parts(path))
}

/// What cleaning a list of paths gives: all of them in clean form, or why the first is refused that is.
pub proof fn lemma_lists_are_cleaned(paths: Seq<Seq<char>>, i: int)
    requires
        0 <= i <= paths.len(),
    ensures
        all_clean(paths, i) is Ok <==> forall|k: int| i <= k < paths.len() ==> clean(#[trigger] paths[k]) is Ok,
        all_clean(paths, i) is Ok ==> all_clean(paths, i)->Ok_0.len() == paths.len() - i && forall|k: int|
            i <= k < paths.len() ==> #[trigger] clean(paths[k])->Ok_0 == all_clean(paths, i)->Ok_0[k - i],
        all_clean(paths, i) is Err ==> exists|k: int|
            i <= k < paths.len() && clean(#[trigger] paths[k]) == Err::<Seq<char>, Seq<char>>(all_clean(paths, i)->Err_0) && forall|j: int|
                i <= j < k ==> clean(#[trigger] paths[j]) is Ok,
    decreases paths.len() - i,
{
    if i < paths.len() {
        lemma_lists_are_cleaned(paths, i + 1);
        if clean(paths[i]) is Err {
            assert(clean(paths[i]) == Err::<Seq<char>, Seq<char>>(all_clean(paths, i)->Err_0));
        } else if all_clean(paths, i + 1) is Err {
            let k = choose|k: int|
                i + 1 <= k < paths.len() && clean(#[trigger] paths[k]) == Err::<Seq<char>, Seq<char>>(all_clean(paths, i + 1)->Err_0)
                    && forall|j: int| i + 1 <= j < k ==> clean(#[trigger] paths[j]) is Ok;
            assert(clean(paths[k]) == Err::<Seq<char>, Seq<char>>(all_clean(paths, i)->Err_0));
        } else {
            let list = all_clean(paths, i)->Ok_0;
            let rest = all_clean(paths, i + 1)->Ok_0;
            assert(list =~= seq![clean(paths[i])->Ok_0] + rest);
            assert forall|k: int| i <= k < paths.len() implies #[trigger] clean(paths[k])->Ok_0 == list[k - i] by {
                if k > i {
                    assert(list[k - i] == rest[k - (i + 1)]);
                }
            }
        }
    }
}

proof fn lemma_is_named(paths: Seq<Seq<char>>, path: Seq<char>)
    requires
        all_clean(paths, 0) is Ok,
    ensures
        is_named(paths, path) == crate::git::is_chosen(all_clean(paths, 0)->Ok_0, path),
{
    lemma_lists_are_cleaned(paths, 0);
    let list = all_clean(paths, 0)->Ok_0;
    assert forall|k: int| 0 <= k < paths.len() implies names(#[trigger] paths[k]).is_prefix_of(parts(path)) == under(path, list[k]) by {
        assert(clean(paths[k])->Ok_0 == list[k - 0]);
        lemma_clean_is_stable(paths[k]);
    }
    if is_named(paths, path) && paths.len() > 0 {
        let k = choose|k: int| 0 <= k < paths.len() && names(#[trigger] paths[k]).is_prefix_of(parts(path));
        assert(under(path, list[k]));
    }
    if crate::git::is_chosen(list, path) && paths.len() > 0 {
        let k = choose|k: int| 0 <= k < list.len() && under(path, #[trigger] list[k]);
        assert(names(paths[k]).is_prefix_of(parts(path)));
    }
}

/// Whether a commit takes a change.
pub open spec fn is_taken(config: ConfigView, state: StateView, paths: Seq<Seq<char>>, change: ChangeView) -> bool {
    belongs(config, state, change.path) && is_named(paths, change.path)
}

/// A commit takes exactly the changes that belong to an entry and that are one of the named paths or lie
/// below one, each as often as it is reported, and in the order in which they are. Where there is none,
/// where a path is refused, and where anything is staged, it takes nothing.
pub proof fn lemma_a_commit_takes_what_is_named(config: ConfigView, state: StateView, all: Seq<ChangeView>, paths: Seq<Seq<char>>)
    ensures
        (exists|k: int| 0 <= k < all.len() && touches_index((#[trigger] all[k]).status)) ==> selection(config, state, all, paths) is Err,
        (exists|k: int| 0 <= k < paths.len() && clean(#[trigger] paths[k]) is Err) ==> selection(config, state, all, paths) is Err,
        (forall|k: int| 0 <= k < all.len() ==> !touches_index((#[trigger] all[k]).status)) && (forall|k: int|
            0 <= k < paths.len() ==> clean(#[trigger] paths[k]) is Ok) ==> {
            let taken = selection(config, state, all, paths);
            &&& taken is Ok <==> exists|k: int| 0 <= k < all.len() && is_taken(config, state, paths, #[trigger] all[k])
            &&& taken is Ok ==> forall|change: ChangeView| #[trigger]
                taken->Ok_0.to_multiset().count(change) == if is_taken(config, state, paths, change) {
                    all.to_multiset().count(change)
                } else {
                    0
                }
            &&& taken is Ok ==> forall|change: ChangeView| #[trigger]
                taken->Ok_0.contains(change) <==> all.contains(change) && is_taken(config, state, paths, change)
            &&& taken is Ok ==> forall|i: int, j: int|
                0 <= i < j < taken->Ok_0.len() ==> comes_first(all, #[trigger] taken->Ok_0[i], #[trigger] taken->Ok_0[j])
        },
{
    assert forall|k: int| 0 <= k < all.len() implies touches_index((#[trigger] all[k]).status) == is_staged(all[k].status) by {
        lemma_touches_index(all[k].status);
    }
    if exists|k: int| 0 <= k < all.len() && touches_index((#[trigger] all[k]).status) {
        let k = choose|k: int| 0 <= k < all.len() && touches_index((#[trigger] all[k]).status);
        assert(is_staged(all[k].status));
    }
    lemma_lists_are_cleaned(paths, 0);
    if (forall|k: int| 0 <= k < all.len() ==> !touches_index((#[trigger] all[k]).status)) && (forall|k: int|
        0 <= k < paths.len() ==> clean(#[trigger] paths[k]) is Ok) {
        let chosen = all_clean(paths, 0)->Ok_0;
        let keep = |change: ChangeView| is_managed(config, state, change.path) && crate::git::is_chosen(chosen, change.path);
        assert forall|change: ChangeView| #[trigger] keep(change) == is_taken(config, state, paths, change) by {
            lemma_belongs(config, state, change.path);
            lemma_is_named(paths, change.path);
        }
        let taken = all.filter(keep);
        assert forall|change: ChangeView| #[trigger] taken.to_multiset().count(change) == if is_taken(config, state, paths, change) {
            all.to_multiset().count(change)
        } else {
            0
        } by {
            lemma_filtered(all, keep, change);
        }
        assert forall|change: ChangeView| #[trigger] taken.contains(change) <==> all.contains(change) && is_taken(config, state, paths, change) by {
            lemma_filtered(all, keep, change);
        }
        lemma_filtered_in_order(all, keep);
        assert(taken.len() > 0 <==> exists|k: int| 0 <= k < all.len() && is_taken(config, state, paths, #[trigger] all[k])) by {
            if taken.len() > 0 {
                assert(taken.contains(taken[0]));
                let k = choose|k: int| 0 <= k < all.len() && all[k] == taken[0];
                assert(is_taken(config, state, paths, all[k]));
            }
            if exists|k: int| 0 <= k < all.len() && is_taken(config, state, paths, #[trigger] all[k]) {
                let k = choose|k: int| 0 <= k < all.len() && is_taken(config, state, paths, #[trigger] all[k]);
                assert(all.contains(all[k]));
                assert(taken.contains(all[k]));
            }
        }
    }
}

/// Whether one change stands before another in a list.
pub open spec fn comes_first(all: Seq<ChangeView>, a: ChangeView, b: ChangeView) -> bool {
    exists|i: int, j: int| 0 <= i < j < all.len() && #[trigger] all[i] == a && #[trigger] all[j] == b
}

proof fn lemma_filtered(all: Seq<ChangeView>, keep: spec_fn(ChangeView) -> bool, change: ChangeView)
    ensures
        all.filter(keep).to_multiset().count(change) == if keep(change) { all.to_multiset().count(change) } else { 0 },
        all.filter(keep).contains(change) <==> all.contains(change) && keep(change),
    decreases all.len(),
{
    broadcast use group_to_multiset_ensures;

    reveal(Seq::filter);
    if all.len() > 0 {
        let init = all.drop_last();
        lemma_filtered(init, keep, change);
        assert(init.push(all.last()) =~= all);
    }
    assert(all.contains(change) <==> all.to_multiset().count(change) > 0);
    let kept = all.filter(keep);
    assert(kept.contains(change) <==> kept.to_multiset().count(change) > 0);
}

proof fn lemma_filtered_in_order(all: Seq<ChangeView>, keep: spec_fn(ChangeView) -> bool)
    ensures
        forall|i: int, j: int| 0 <= i < j < all.filter(keep).len() ==> comes_first(all, #[trigger] all.filter(keep)[i], #[trigger] all.filter(keep)[j]),
    decreases all.len(),
{
    reveal(Seq::filter);
    if all.len() > 0 {
        let init = all.drop_last();
        let kept = all.filter(keep);
        let before = init.filter(keep);
        lemma_filtered_in_order(init, keep);
        assert forall|i: int, j: int| 0 <= i < j < kept.len() implies comes_first(all, #[trigger] kept[i], #[trigger] kept[j]) by {
            if j < before.len() {
                assert(comes_first(init, before[i], before[j]));
                let (a, b) = choose|a: int, b: int| 0 <= a < b < init.len() && #[trigger] init[a] == before[i] && #[trigger] init[b] == before[j];
                assert(all[a] == kept[i] && all[b] == kept[j]);
            } else {
                lemma_filtered(init, keep, before[i]);
                assert(before.contains(before[i]));
                let a = choose|a: int| 0 <= a < init.len() && init[a] == before[i];
                assert(all[a] == kept[i] && all[all.len() - 1] == kept[j]);
            }
        }
    }
}

/// Changes can be committed exactly where none of them has a conflict and the way to each is free.
pub proof fn lemma_what_stops_a_commit(repository: Seq<char>, state: StateView, changes: Seq<ChangeView>, looks: Seq<Vec<Look>>, i: int)
    requires
        looks_fit(repository, changes, looks),
        forall|k: int| 0 <= k < changes.len() ==> clean((#[trigger] changes[k]).path) is Ok,
        0 <= i,
    ensures
        commit_refusal(repository, state, changes, looks, i) is None <==> forall|k: int|
            i <= k < changes.len() ==> !state.conflicts.contains_key((#[trigger] changes[k]).path) && free_way(looks[k]@),
    decreases changes.len() - i,
{
    if i < changes.len() {
        lemma_what_stops_a_commit(repository, state, changes, looks, i + 1);
        let look = looks[i];
        assert(clean(changes[i].path) is Ok);
        lemma_free_from(between_directories(repository, changes[i].path), look@, 0);
    }
}

/// The first of the changes that has a conflict, with a way to each before it that is free, is named.
pub proof fn lemma_conflicts_are_named(repository: Seq<char>, state: StateView, changes: Seq<ChangeView>, looks: Seq<Vec<Look>>, i: int, k: int)
    requires
        looks_fit(repository, changes, looks),
        0 <= i <= k < changes.len(),
        state.conflicts.contains_key(changes[k].path),
        forall|j: int|
            i <= j < k ==> !state.conflicts.contains_key((#[trigger] changes[j]).path) && clean(changes[j].path) is Ok && free_way(looks[j]@),
    ensures
        commit_refusal(repository, state, changes, looks, i) == Some("unresolved synchronization conflict: "@ + changes[k].path),
    decreases k - i,
{
    if i < k {
        let look = looks[i];
        assert(!state.conflicts.contains_key(changes[i].path));
        lemma_free_from(between_directories(repository, changes[i].path), look@, 0);
        lemma_conflicts_are_named(repository, state, changes, looks, i + 1, k);
    }
}

// ---------------------------------------------------------------------------------------------
// Messages

/// The word for a change, going by its flags: new in the working tree, deleted there, or else modified.
pub open spec fn word(status: u32) -> Seq<char> {
    if status & 128u32 != 0 {
        "add"@
    } else if status & 512u32 != 0 {
        "delete"@
    } else {
        "modify"@
    }
}

proof fn lemma_word(status: u32)
    ensures
        word(status) == crate::git::deed_word(deed(status)),
        (status & 128u32 != 0) == (deed(status) == Deed::Add),
        (status & 128u32 == 0 && status & 512u32 != 0) == (deed(status) == Deed::Delete),
{
    assert((status & 128u32 != 0) == (status & 128u32 == 128u32)) by (bit_vector);
    assert((status & 512u32 != 0) == (status & 512u32 == 512u32)) by (bit_vector);
}

proof fn lemma_count(changes: Seq<ChangeView>, kind: Deed)
    ensures
        count(changes, kind) == changes.filter(|change: ChangeView| deed(change.status) == kind).len(),
    decreases changes.len(),
{
    reveal(Seq::filter);
    if changes.len() > 0 {
        lemma_count(changes.drop_last(), kind);
    }
}

proof fn lemma_same_filter(changes: Seq<ChangeView>, p: spec_fn(ChangeView) -> bool, q: spec_fn(ChangeView) -> bool)
    requires
        forall|change: ChangeView| #[trigger] p(change) == q(change),
    ensures
        changes.filter(p) == changes.filter(q),
{
    assert(p =~= q);
}

/// A given message is taken as it is unless it holds nothing but white space. Without one, the message
/// tells how many files there are, and how many of them were added, modified and deleted, and has one
/// line for each, in order, with a word for what was done and its path in quotes.
pub proof fn lemma_messages_tell_what_changed(given: Option<Seq<char>>, changes: Seq<ChangeView>)
    requires
        0 < changes.len() <= usize::MAX,
    ensures
        given is Some && (exists|i: int| 0 <= i < given->0.len() && !whitespace(#[trigger] given->0[i])) ==> chosen_message(given, changes)
            == Ok::<Seq<char>, Seq<char>>(given->0),
        given is Some && (forall|i: int| 0 <= i < given->0.len() ==> whitespace(#[trigger] given->0[i])) ==> chosen_message(given, changes) is Err,
        given is None ==> chosen_message(given, changes) is Ok,
        given is None ==> exists|lines: Seq<Seq<char>>|
            {
                &&& chosen_message(given, changes)->Ok_0 == "FileTrail: sync "@ + decimal(changes.len()) + " files (+"@ + decimal(
                    changes.filter(|change: ChangeView| change.status & 128u32 != 0).len(),
                ) + " ~"@ + decimal(changes.filter(|change: ChangeView| change.status & 128u32 == 0 && change.status & 512u32 == 0).len()) + " -"@
                    + decimal(changes.filter(|change: ChangeView| change.status & 128u32 == 0 && change.status & 512u32 != 0).len()) + ")"@
                    + "\n\n"@ + #[trigger] joined_lines(lines, "\n"@)
                &&& lines.to_multiset() == changes.map_values(|change: ChangeView| word(change.status) + " "@ + debug_quoted(change.path)).to_multiset()
                &&& forall|i: int, j: int| 0 <= i < j < lines.len() ==> before(#[trigger] lines[i], #[trigger] lines[j]) || lines[i] == lines[j]
            },
{
    if given is None {
        let all = details(changes, quoted_paths(changes));
        let lines = sorted(all);
        lemma_order_exists(all);
        crate::order::lemma_sorted(all);
        assert(all =~= changes.map_values(|change: ChangeView| word(change.status) + " "@ + debug_quoted(change.path))) by {
            assert forall|k: int| 0 <= k < all.len() implies all[k] == word(changes[k].status) + " "@ + debug_quoted(changes[k].path) by {
                lemma_word(changes[k].status);
            }
        }
        lemma_count(changes, Deed::Add);
        lemma_count(changes, Deed::Modify);
        lemma_count(changes, Deed::Delete);
        assert forall|change: ChangeView| true implies (change.status & 128u32 != 0) == (deed((#[trigger] change.status)) == Deed::Add) && (change.status & 128u32 == 0
            && change.status & 512u32 != 0) == (deed(change.status) == Deed::Delete) by {
            lemma_word(change.status);
        }
        lemma_same_filter(
            changes,
            |change: ChangeView| deed(change.status) == Deed::Add,
            |change: ChangeView| change.status & 128u32 != 0,
        );
        lemma_same_filter(
            changes,
            |change: ChangeView| deed(change.status) == Deed::Modify,
            |change: ChangeView| change.status & 128u32 == 0 && change.status & 512u32 == 0,
        );
        lemma_same_filter(
            changes,
            |change: ChangeView| deed(change.status) == Deed::Delete,
            |change: ChangeView| change.status & 128u32 == 0 && change.status & 512u32 != 0,
        );
        assert(message_on(changes, quoted_paths(changes)) == summary(changes) + "\n\n"@ + joined_lines(lines, "\n"@));
    }
}

// ---------------------------------------------------------------------------------------------
// Patches

/// Every patch with one or more differing files is shown in full: its label, and then each of its lines,
/// one behind the other, with the sign of those that were added, removed or kept. A patch without a
/// differing file is left out.
pub proof fn lemma_patches_are_shown_in_full(label: Seq<char>, patch: Patch)
    ensures
        patch.deltas == 0 ==> patch_bytes(label, patch).len() == 0,
        patch.deltas > 0 ==> patch_bytes(label, patch) == encode_utf8(label) + patch.lines@.map_values(
            |line: DiffLine|
                if line.origin == '+' || line.origin == '-' || line.origin == ' ' {
                    seq![line.origin as u8] + line.content@
                } else {
                    line.content@
                },
        ).flatten(),
{
    lemma_lines_flat(patch.lines@);
}

proof fn lemma_lines_flat(lines: Seq<DiffLine>)
    ensures
        crate::git::lines_bytes(lines) == lines.map_values(
            |line: DiffLine|
                if line.origin == '+' || line.origin == '-' || line.origin == ' ' {
                    seq![line.origin as u8] + line.content@
                } else {
                    line.content@
                },
        ).flatten(),
    decreases lines.len(),
{
    let f = |line: DiffLine|
        if line.origin == '+' || line.origin == '-' || line.origin == ' ' {
            seq![line.origin as u8] + line.content@
        } else {
            line.content@
        };
    let all = lines.map_values(f);
    all.lemma_flatten_and_flatten_alt_are_equivalent();
    if lines.len() > 0 {
        let init = lines.drop_last();
        lemma_lines_flat(init);
        assert(all.drop_last() =~= init.map_values(f));
        init.map_values(f).lemma_flatten_and_flatten_alt_are_equivalent();
        assert(crate::git::line_bytes(lines.last()) =~= f(lines.last()));
    }
}

// ---------------------------------------------------------------------------------------------
// Status

/// The letter of a change goes by the flags of the index, or of the working tree, in this order: in
/// conflict, new, deleted, renamed, of another type, modified.
pub proof fn lemma_letters_go_by_flags(status: u32)
    ensures
        status & 32768u32 != 0 ==> letter(status, true) == 'U' && letter(status, false) == 'U',
        status & 32768u32 == 0 ==> {
            &&& letter(status, true) == 'A' <==> status & 1u32 != 0
            &&& letter(status, true) == 'D' <==> status & 1u32 == 0 && status & 4u32 != 0
            &&& letter(status, true) == 'R' <==> status & 1u32 == 0 && status & 4u32 == 0 && status & 8u32 != 0
            &&& letter(status, true) == 'T' <==> status & 1u32 == 0 && status & 4u32 == 0 && status & 8u32 == 0 && status & 16u32 != 0
            &&& letter(status, true) == 'M' <==> status & 31u32 == 2u32
            &&& letter(status, true) == ' ' <==> status & 31u32 == 0
            &&& letter(status, false) == 'A' <==> status & 128u32 != 0
            &&& letter(status, false) == 'D' <==> status & 128u32 == 0 && status & 512u32 != 0
            &&& letter(status, false) == 'R' <==> status & 128u32 == 0 && status & 512u32 == 0 && status & 2048u32 != 0
            &&& letter(status, false) == 'T' <==> status & 128u32 == 0 && status & 512u32 == 0 && status & 2048u32 == 0 && status & 1024u32 != 0
            &&& letter(status, false) == 'M' <==> status & 3968u32 == 256u32
            &&& letter(status, false) == ' ' <==> status & 3968u32 == 0
        },
{
    assert((status & 32768u32 != 0) == (status & 32768u32 == 32768u32)) by (bit_vector);
    assert((status & 1u32 != 0) == (status & 1u32 == 1u32)) by (bit_vector);
    assert((status & 2u32 != 0) == (status & 2u32 == 2u32)) by (bit_vector);
    assert((status & 4u32 != 0) == (status & 4u32 == 4u32)) by (bit_vector);
    assert((status & 8u32 != 0) == (status & 8u32 == 8u32)) by (bit_vector);
    assert((status & 16u32 != 0) == (status & 16u32 == 16u32)) by (bit_vector);
    assert((status & 128u32 != 0) == (status & 128u32 == 128u32)) by (bit_vector);
    assert((status & 256u32 != 0) == (status & 256u32 == 256u32)) by (bit_vector);
    assert((status & 512u32 != 0) == (status & 512u32 == 512u32)) by (bit_vector);
    assert((status & 1024u32 != 0) == (status & 1024u32 == 1024u32)) by (bit_vector);
    assert((status & 2048u32 != 0) == (status & 2048u32 == 2048u32)) by (bit_vector);
    assert(status & 31u32 == 2u32 <==> status & 1u32 == 0 && status & 2u32 != 0 && status & 4u32 == 0 && status & 8u32 == 0 && status & 16u32 == 0)
        by (bit_vector);
    assert(status & 31u32 == 0 <==> status & 1u32 == 0 && status & 2u32 == 0 && status & 4u32 == 0 && status & 8u32 == 0 && status & 16u32 == 0)
        by (bit_vector);
    assert(status & 3968u32 == 256u32 <==> status & 128u32 == 0 && status & 256u32 != 0 && status & 512u32 == 0 && status & 1024u32 == 0 && status
        & 2048u32 == 0) by (bit_vector);
    assert(status & 3968u32 == 0 <==> status & 128u32 == 0 && status & 256u32 == 0 && status & 512u32 == 0 && status & 1024u32 == 0 && status
        & 2048u32 == 0) by (bit_vector);
}

/// The status tells of the repository and the last synchronization, of every change whether it is
/// managed, of every managed path that Git ignores, and of every conflict, and of nothing else.
pub proof fn lemma_the_status_leaves_nothing_out(config: ConfigView, state: State, changes: Seq<ChangeView>, ignored: Seq<Seq<char>>, k: int, path: Seq<char>)
    requires
        state.wf(),
    ensures
        ({
            let lines = status_lines(config, state, changes, ignored);
            &&& lines.len() == 3 + changes.len() + ignored.len() + state.conflicts.rows@.len()
            &&& lines[0] == "Repository: "@ + config.repository
            &&& lines[1] == "Subdirectory: "@ + (if config.subdir.len() == 0 { "."@ } else { config.subdir })
            &&& lines[2] == "Last sync (Unix seconds): "@ + (if state.last_sync is Some {
                "Some("@ + decimal(state.last_sync->0 as nat) + ")"@
            } else {
                "None"@
            })
            &&& 0 <= k < changes.len() ==> lines[3 + k] == seq![letter(changes[k].status, true), letter(changes[k].status, false)] + (if belongs(
                config,
                state@,
                changes[k].path,
            ) {
                " ["@ + "managed"@ + "] "@
            } else {
                " ["@ + "other"@ + "] "@
            }) + changes[k].path
            &&& 0 <= k < ignored.len() ==> lines[3 + changes.len() + k] == "!! [ignored] "@ + ignored[k]
            &&& state@.conflicts.contains_key(path) ==> lines.contains("conflict "@ + path + ": "@ + state@.conflicts[path])
        }),
{
    let lines = status_lines(config, state, changes, ignored);
    if 0 <= k < changes.len() {
        lemma_belongs(config, state@, changes[k].path);
        assert(lines[3 + k] =~= seq![letter(changes[k].status, true), letter(changes[k].status, false)] + (if belongs(
            config,
            state@,
            changes[k].path,
        ) {
            " ["@ + "managed"@ + "] "@
        } else {
            " ["@ + "other"@ + "] "@
        }) + changes[k].path);
    }
    if state@.conflicts.contains_key(path) {
        state.conflicts.lemma_domain();
        let i = choose|i: int| 0 <= i < state.conflicts.rows@.len() && state.conflicts.rows@[i].key@ == path;
        assert(state.conflicts.keys()[i] == path);
        assert(lines[3 + changes.len() + ignored.len() + i] == "conflict "@ + path + ": "@ + state@.conflicts[path]);
    }
}

/// Putting changes in order keeps all of them, and puts them in ascending order of their paths.
pub proof fn lemma_changes_are_put_in_order(changes: Seq<ChangeView>)
    requires
        changes.len() <= usize::MAX,
    ensures
        sorted_changes(changes).to_multiset() == changes.to_multiset(),
        forall|i: int, j: int|
            0 <= i < j < changes.len() ==> before((#[trigger] sorted_changes(changes)[i]).path, (#[trigger] sorted_changes(changes)[j]).path)
                || sorted_changes(changes)[i].path == sorted_changes(changes)[j].path,
{
    let keys = change_paths(changes);
    lemma_order_exists(keys);
    let order = ordered_positions(keys);
    let places = order.map_values(|x: usize| x as int);
    assert(places.no_duplicates()) by {
        assert forall|i: int, j: int| 0 <= i < places.len() && 0 <= j < places.len() && i != j implies places[i] != places[j] by {
            crate::text::lemma_before_irreflexive(keys[places[i]], 0);
            if i < j {
                assert(precedes(keys, order[i] as int, order[j] as int));
            } else {
                assert(precedes(keys, order[j] as int, order[i] as int));
            }
        }
    }
    assert forall|i: int| 0 <= i < places.len() implies 0 <= #[trigger] places[i] < changes.len() by {
        assert(0 <= order[i] < keys.len());
    }
    lemma_rearranged(changes, places);
    assert(sorted_changes(changes) =~= Seq::new(changes.len(), |i: int| changes[places[i]]));
    assert forall|i: int, j: int| 0 <= i < j < changes.len() implies before(
        (#[trigger] sorted_changes(changes)[i]).path,
        (#[trigger] sorted_changes(changes)[j]).path,
    ) || sorted_changes(changes)[i].path == sorted_changes(changes)[j].path by {
        assert(precedes(keys, order[i] as int, order[j] as int));
    }
}

// ---------------------------------------------------------------------------------------------
// Making the commit

/// A commit begins with the changes that are selected, and nothing staged; where nothing can be
/// selected, it is refused for that reason.
pub proof fn lemma_where_a_commit_begins(config: ConfigView, state: StateView, all: Seq<ChangeView>, paths: Seq<Seq<char>>, given: Option<Seq<char>>)
    ensures
        ({
            let v = crate::commit::begun(config, state, all, paths, given);
            &&& v.config == config && v.state == state && v.given == given && v.staged == 0
            &&& match selection(config, state, all, paths) {
                Err(text) => v.phase == (CommitPhaseView::Refused { text }) && v.request() is Finished,
                Ok(selected) => v.phase is Looking && v.selected == selected,
            }
        }),
{
}

/// Once the ways are known, the commit is refused where something stops it or no message can be had; else
/// the author is asked for, with all changes still selected.
pub proof fn lemma_what_follows_the_looks(v: CommitView, looks: Vec<Vec<Look>>)
    requires
        v.phase is Looking,
        looks@.len() == v.selected.len(),
        forall|k: int|
            0 <= k < looks@.len() && clean(v.selected[k].path) is Ok ==> (#[trigger] looks@[k])@.len() == between_directories(
                v.config.repository,
                v.selected[k].path,
            ).len(),
    ensures
        ({
            let q = v.after(CommitAnswer::Looks(looks));
            &&& q.selected == v.selected && q.staged == v.staged
            &&& match commit_refusal(v.config.repository, v.state, v.selected, looks@, 0) {
                Some(text) => q.phase == (CommitPhaseView::Refused { text }),
                None => match chosen_message(v.given, v.selected) {
                    Err(text) => q.phase == (CommitPhaseView::Refused { text }),
                    Ok(message) => q.request() is Author && q.message == message,
                },
            }
        }),
{
}

/// Before anything is staged, the directories on the way to each of the changes are looked at.
pub proof fn lemma_the_way_to_each_change_is_looked_at(v: CommitView, k: int)
    requires
        v.phase is Looking,
        v.config.repository.len() > 0,
        0 <= k < v.selected.len(),
        clean(v.selected[k].path) is Ok,
    ensures
        v.request() matches CommitRequestView::Looks { paths } && paths.len() == v.selected.len() && leads_down(
            paths[k],
            v.config.repository,
            v.selected[k].path,
        ),
{
    lemma_the_way_is_looked_at(v.config.repository, v.selected[k].path);
}

/// The answers that everything was done.
pub open spec fn done(n: nat) -> Seq<CommitAnswer> {
    Seq::new(n, |i: int| CommitAnswer::Done)
}

/// Once the author is known, every change is staged, one after the other, taken out of the index where
/// it was deleted, and then the commit is made with the message.
pub proof fn lemma_every_change_is_staged(v: CommitView, k: nat)
    requires
        v.phase is Authoring,
        v.staged == 0,
        k <= v.selected.len(),
    ensures
        ({
            let q = told(v, done((k + 1) as nat));
            &&& k < v.selected.len() ==> q.request() == (CommitRequestView::Stage {
                path: v.selected[k as int].path,
                out: v.selected[k as int].status & 512u32 != 0,
            })
            &&& k == v.selected.len() ==> q.request() == (CommitRequestView::Commit { message: v.message })
            &&& q.selected == v.selected && q.message == v.message && q.staged == k
        }),
    decreases k,
{
    let answers = done((k + 1) as nat);
    assert(answers.drop_last() =~= done(k));
    if k < v.selected.len() {
        let status = v.selected[k as int].status;
        assert((status & 512u32 != 0) == (status & 512u32 == 512u32)) by (bit_vector);
    }
    if k == 0 {
        assert(answers.drop_last() =~= Seq::empty());
        assert(told(v, answers.drop_last()) == v);
    } else {
        lemma_every_change_is_staged(v, (k - 1) as nat);
        assert(done(((k - 1) + 1) as nat) =~= done(k));
    }
}

/// Once the commit is made, the index is written, and what is shown of it is its name and its message.
pub proof fn lemma_a_commit_ends_with_the_index(v: CommitView, id: String)
    requires
        v.phase is Committing,
    ensures
        ({
            let q = v.after(CommitAnswer::Committed(id));
            let r = q.after(CommitAnswer::Done);
            &&& q.request() is WriteIndex && q.id == id@
            &&& r.request() is Finished && r.phase is Finished && r.id == id@ && r.message == v.message
        }),
{
}

/// Whatever fails, the commit is refused for that reason.
pub proof fn lemma_failures_refuse_a_commit(v: CommitView, error: crate::error::Error)
    requires
        !(v.phase is Finished),
        !(v.phase is Refused),
    ensures
        v.after(CommitAnswer::Failed(error)).phase == (CommitPhaseView::Refused { text: error@ }),
{
}

} // verus!
