//! Paths, the history and what is written of it, and fingerprints.
use vstd::prelude::*;
use vstd::utf8::{decode_utf8, valid_utf8};

use crate::config::{destined, ConfigView};
use crate::fingerprint::{file_tag, link_tag, permissions};
use crate::path::{
    absolute, chain, joined, leaf, lemma_assembled, lemma_cut, lemma_joined, lemma_names, lemma_stripped, names, parts,
    parts_before, path_before, pieces, spelled, stripped, stripped_bytes, under, unspelled, upper,
};
use crate::restore::{in_use, is_highest, without_baselines};
use crate::state::{
    altered, baselines, decoded, gone, lemma_difference, no_history, owners, reasons, updates, writable, BaselineView, State,
    StateView, Stored,
};
use crate::sync::text_of;
use crate::text::before;

verus! {

// ---------------------------------------------------------------------------------------------
// Paths

/// The directory that holds a path has all its parts but the last. Only the empty path and the root have
/// none.
pub proof fn lemma_what_holds_a_path(s: Seq<char>)
    ensures
        upper(s) is None <==> parts(s).len() == 0 || parts(s) == seq!["/"@],
        upper(s) is Some ==> parts(upper(s)->0) == parts(s).drop_last(),
{
    let n = parts(s).len() as int;
    lemma_names(s);
    reveal_strlit("/");
    if n == 1 {
        if absolute(s) {
            assert(parts(s)[0] =~= "/"@);
            assert(parts(s) =~= seq!["/"@]);
        } else if parts(s) == seq!["/"@] {
            assert(parts(s)[0][0] == '/');
            if crate::path::marked(s) {
                assert(parts(s)[0] == s.take(1));
                assert(s.take(1)[0] == s[0]);
            } else {
                assert(crate::path::nameable(names(s)[0]));
            }
        }
    }
    if n > 0 {
        lemma_cut(s, n - 1);
        assert(parts(s).take(n - 1) =~= parts(s).drop_last());
    }
}

/// The name of a path is its last part, unless that is no name of an entry of a directory.
pub proof fn lemma_the_name_is_the_last_part(s: Seq<char>)
    ensures
        leaf(s) is Some <==> parts(s).len() > 0 && parts(s).last() != "/"@ && parts(s).last() != "."@ && parts(s).last() != ".."@,
        leaf(s) is Some ==> leaf(s)->0 == parts(s).last(),
{
}

/// The directories above a path have its first parts, one less each time: down to the root, or to the
/// empty path.
pub proof fn lemma_the_way_up(s: Seq<char>, k: int)
    ensures
        absolute(s) ==> chain(s).len() == parts(s).len(),
        !absolute(s) ==> chain(s).len() == parts(s).len() + 1,
        chain(s).len() > 0 ==> chain(s)[0] == s,
        0 <= k < chain(s).len() ==> parts(chain(s)[k]) == parts(s).take(parts(s).len() - k),
{
    let n = parts(s).len() as int;
    if 0 <= k < chain(s).len() {
        lemma_cut(s, n - k);
        assert(parts(s).take(n) =~= parts(s));
    }
}

proof fn lemma_parts_behind(p: Seq<Seq<char>>, a: Seq<Seq<char>>, b: Seq<Seq<char>>, i: int)
    requires
        0 <= i <= p.len(),
    ensures
        parts_before(p + a, p + b, i) == parts_before(p + a, p + b, p.len() as int),
    decreases p.len() - i,
{
    if i < p.len() {
        assert((p + a)[i] == (p + b)[i]);
        lemma_parts_behind(p, a, b, i + 1);
    }
}

/// Whether a part is a name.
pub open spec fn is_name(part: Seq<char>) -> bool {
    part != "/"@ && part != "."@ && part != ".."@
}

/// Paths stand in the order of their parts where these first differ: a path behind the directories above
/// it, and names in the order of their texts, behind the root, `.` and `..`.
pub proof fn lemma_the_order_of_paths(s: Seq<char>, t: Seq<char>, p: Seq<Seq<char>>, a: Seq<Seq<char>>, b: Seq<Seq<char>>)
    requires
        parts(s) == p + a,
        parts(t) == p + b,
        a.len() > 0 && b.len() > 0 ==> a[0] != b[0],
    ensures
        b.len() == 0 ==> !path_before(s, t),
        a.len() == 0 && b.len() > 0 ==> path_before(s, t),
        a.len() > 0 && b.len() > 0 && is_name(a[0]) && is_name(b[0]) ==> path_before(s, t) == before(a[0], b[0]),
        a.len() > 0 && b.len() > 0 && is_name(a[0]) && !is_name(b[0]) ==> !path_before(s, t),
        a.len() > 0 && b.len() > 0 && !is_name(a[0]) && is_name(b[0]) ==> path_before(s, t),
        a.len() > 0 && b.len() > 0 && a[0] == "/"@ ==> path_before(s, t),
        a.len() > 0 && b.len() > 0 && a[0] == "."@ && b[0] == ".."@ ==> path_before(s, t),
        a.len() > 0 && b.len() > 0 && a[0] == ".."@ && b[0] == "."@ ==> !path_before(s, t),
{
    lemma_parts_behind(p, a, b, 0);
    reveal_strlit("/");
    reveal_strlit(".");
    reveal_strlit("..");
    assert("/"@[0] != "."@[0]);
    assert("/"@[0] != ".."@[0]);
    assert("."@.len() != ".."@.len());
    if a.len() > 0 {
        assert((p + a)[p.len() as int] == a[0]);
    }
    if b.len() > 0 {
        assert((p + b)[p.len() as int] == b[0]);
    }
}

/// A target goes below the subdirectory, at its own names.
pub proof fn lemma_targets_go_below_the_subdirectory(subdir: Seq<char>, target: Seq<char>)
    requires
        !absolute(subdir),
        !absolute(target),
    ensures
        names(destined(subdir, target)) == names(subdir) + names(target),
        parts(destined(subdir, target)) == names(subdir) + names(target),
{
    lemma_joined(subdir, target);
    let all = joined(subdir, target);
    lemma_names(all);
    lemma_assembled(names(all));
    assert(!absolute(all)) by {
        if subdir.len() == 0 {
            assert(all == target);
        }
    }
}

/// What is left of a path below another, both given by their bytes: their parts are read off the bytes.
pub proof fn lemma_what_is_left_of_bytes(path: Seq<u8>, base: Seq<u8>)
    requires
        parts(spelled(base)).len() > 0,
    ensures
        stripped_bytes(path, base) is Some <==> parts(spelled(base)).is_prefix_of(parts(spelled(path))),
        stripped_bytes(path, base) is Some ==> parts(spelled(path)) == parts(spelled(base)) + names(spelled(stripped_bytes(path, base)->0)),
{
    let s = spelled(path);
    if under(s, spelled(base)) {
        lemma_stripped(s, spelled(base));
        let rest = stripped(s, spelled(base))->0;
        crate::path::lemma_pieces_within(s);
        assert(spelled(unspelled(rest)) =~= rest) by {
            assert forall|i: int| 0 <= i < rest.len() implies (#[trigger] rest[i] as u8) as char == rest[i] by {
                let from = parts(spelled(base)).len() as int;
                let to = parts(s).len() as int;
                assert(from < to);
                let at = pieces(s)[from].0 + i;
                if from < to - 1 {
                    assert(pieces(s)[from].1 <= pieces(s)[to - 1].0);
                }
                assert(rest[i] == s[at]);
                assert(s[at] == path[at] as char);
                let byte = path[at];
                assert((byte as char) as u8 == byte);
            }
        }
    }
}

/// Bytes are spelled one by one.
pub proof fn lemma_bytes_are_spelled(bytes: Seq<u8>, i: int)
    ensures
        spelled(bytes).len() == bytes.len(),
        0 <= i < bytes.len() ==> spelled(bytes)[i] as int == bytes[i] as int,
{
}

/// The text of bytes is what they encode, where they encode one.
pub proof fn lemma_texts_are_decoded(bytes: Seq<u8>)
    ensures
        valid_utf8(bytes) ==> text_of(bytes) == decode_utf8(bytes),
{
}

// ---------------------------------------------------------------------------------------------
// Numbers of entries

/// The largest number in use is at least that of every entry, and of everything that the history owns or
/// has a baseline for, and it is one of these, or 0.
pub proof fn lemma_no_number_is_larger(config: ConfigView, state: StateView, n: u64, k: int, path: Seq<char>)
    requires
        is_highest(config, state, n),
    ensures
        0 <= k < config.entries.len() ==> config.entries[k].id <= n,
        state.owned.contains_key(path) ==> state.owned[path] <= n,
        state.files.contains_key(path) ==> state.files[path].entry <= n,
        n > 0 ==> (exists|j: int| 0 <= j < config.entries.len() && (#[trigger] config.entries[j]).id == n) || (exists|p: Seq<char>|
            #[trigger] state.owned.contains_key(p) && state.owned[p] == n) || (exists|p: Seq<char>| #[trigger] state.files.contains_key(p)
            && state.files[p].entry == n),
{
    if 0 <= k < config.entries.len() {
        assert(in_use(config, state, config.entries[k].id));
    }
    if state.owned.contains_key(path) {
        assert(in_use(config, state, state.owned[path]));
    }
    if state.files.contains_key(path) {
        assert(in_use(config, state, state.files[path].entry));
    }
}

/// A history without its baselines has everything else.
pub proof fn lemma_only_baselines_are_left_out(state: StateView)
    ensures
        without_baselines(state, true) == state,
        without_baselines(state, false).owned == state.owned,
        without_baselines(state, false).conflicts == state.conflicts,
        without_baselines(state, false).files == Map::<Seq<char>, BaselineView>::empty(),
{
}

// ---------------------------------------------------------------------------------------------
// The database

proof fn lemma_rows(stored: Stored, k: int, n: int)
    requires
        0 <= k < n,
    ensures
        n <= stored.ownership@.len() && (forall|j: int| k < j < n ==> (#[trigger] stored.ownership@[j]).0@ != stored.ownership@[k].0@) ==> owners(
            stored.ownership@.take(n),
        ).contains_key(stored.ownership@[k].0@) && owners(stored.ownership@.take(n))[stored.ownership@[k].0@] == stored.ownership@[k].1 as u64,
        n <= stored.baselines@.len() && (forall|j: int| k < j < n ==> (#[trigger] stored.baselines@[j]).0@ != stored.baselines@[k].0@) ==> baselines(
            stored.baselines@.take(n),
        ).contains_key(stored.baselines@[k].0@) && baselines(stored.baselines@.take(n))[stored.baselines@[k].0@] == (BaselineView {
            entry: stored.baselines@[k].1 as u64,
            fingerprint: stored.baselines@[k].2@,
        }),
        n <= stored.conflicts@.len() && (forall|j: int| k < j < n ==> (#[trigger] stored.conflicts@[j]).0@ != stored.conflicts@[k].0@) ==> reasons(
            stored.conflicts@.take(n),
        ).contains_key(stored.conflicts@[k].0@) && reasons(stored.conflicts@.take(n))[stored.conflicts@[k].0@] == stored.conflicts@[k].1@,
    decreases n,
{
    if n <= stored.ownership@.len() {
        let rows = stored.ownership@.take(n);
        assert(rows.drop_last() =~= stored.ownership@.take(n - 1));
        assert(rows.last() == stored.ownership@[n - 1]);
    }
    if n <= stored.baselines@.len() {
        let rows = stored.baselines@.take(n);
        assert(rows.drop_last() =~= stored.baselines@.take(n - 1));
        assert(rows.last() == stored.baselines@[n - 1]);
    }
    if n <= stored.conflicts@.len() {
        let rows = stored.conflicts@.take(n);
        assert(rows.drop_last() =~= stored.conflicts@.take(n - 1));
        assert(rows.last() == stored.conflicts@[n - 1]);
    }
    if k < n - 1 {
        lemma_rows(stored, k, n - 1);
    }
}

/// A database is read exactly where it is one of ours in the known version and holds no negative number.
/// What is read is what its rows say, of rows on the same path the last.
pub proof fn lemma_rows_are_read(stored: Stored, k: int)
    requires
        0 <= k,
    ensures
        decoded(stored) is Ok <==> stored.application == 0x4654_524c && stored.version == 1 && (forall|j: int|
            0 <= j < stored.ownership@.len() ==> (#[trigger] stored.ownership@[j]).1 >= 0) && (forall|j: int|
            0 <= j < stored.baselines@.len() ==> (#[trigger] stored.baselines@[j]).1 >= 0) && (stored.last_sync is Some ==> stored.last_sync->0 >= 0),
        decoded(stored) matches Ok(state) ==> {
            &&& k < stored.ownership@.len() && (forall|j: int|
                k < j < stored.ownership@.len() ==> (#[trigger] stored.ownership@[j]).0@ != stored.ownership@[k].0@) ==> state.owned.contains_key(
                stored.ownership@[k].0@,
            ) && state.owned[stored.ownership@[k].0@] == stored.ownership@[k].1
            &&& k < stored.baselines@.len() && (forall|j: int|
                k < j < stored.baselines@.len() ==> (#[trigger] stored.baselines@[j]).0@ != stored.baselines@[k].0@) ==> state.files.contains_key(
                stored.baselines@[k].0@,
            ) && state.files[stored.baselines@[k].0@].entry == stored.baselines@[k].1 && state.files[stored.baselines@[k].0@].fingerprint
                == stored.baselines@[k].2@
            &&& k < stored.conflicts@.len() && (forall|j: int|
                k < j < stored.conflicts@.len() ==> (#[trigger] stored.conflicts@[j]).0@ != stored.conflicts@[k].0@) ==> state.conflicts.contains_key(
                stored.conflicts@[k].0@,
            ) && state.conflicts[stored.conflicts@[k].0@] == stored.conflicts@[k].1@
            &&& stored.last_sync is Some ==> state.last_sync is Some && state.last_sync->0 == stored.last_sync->0
            &&& stored.last_sync is None ==> state.last_sync is None
        },
{
    let a = stored.ownership@;
    let b = stored.baselines@;
    let c = stored.conflicts@;
    assert(a.take(a.len() as int) =~= a);
    assert(b.take(b.len() as int) =~= b);
    assert(c.take(c.len() as int) =~= c);
    if k < a.len() {
        lemma_rows(stored, k, a.len() as int);
    }
    if k < b.len() {
        lemma_rows(stored, k, b.len() as int);
    }
    if k < c.len() {
        lemma_rows(stored, k, c.len() as int);
    }
}

proof fn lemma_no_rows(stored: Stored, path: Seq<char>, n: int)
    requires
        0 <= n,
    ensures
        n <= stored.ownership@.len() && (forall|j: int| 0 <= j < n ==> (#[trigger] stored.ownership@[j]).0@ != path) ==> !owners(
            stored.ownership@.take(n),
        ).contains_key(path),
        n <= stored.baselines@.len() && (forall|j: int| 0 <= j < n ==> (#[trigger] stored.baselines@[j]).0@ != path) ==> !baselines(
            stored.baselines@.take(n),
        ).contains_key(path),
        n <= stored.conflicts@.len() && (forall|j: int| 0 <= j < n ==> (#[trigger] stored.conflicts@[j]).0@ != path) ==> !reasons(
            stored.conflicts@.take(n),
        ).contains_key(path),
    decreases n,
{
    if n > 0 {
        lemma_no_rows(stored, path, n - 1);
        if n <= stored.ownership@.len() {
            let rows = stored.ownership@.take(n);
            assert(rows.drop_last() =~= stored.ownership@.take(n - 1));
            assert(rows.last() == stored.ownership@[n - 1]);
        }
        if n <= stored.baselines@.len() {
            let rows = stored.baselines@.take(n);
            assert(rows.drop_last() =~= stored.baselines@.take(n - 1));
            assert(rows.last() == stored.baselines@[n - 1]);
        }
        if n <= stored.conflicts@.len() {
            let rows = stored.conflicts@.take(n);
            assert(rows.drop_last() =~= stored.conflicts@.take(n - 1));
            assert(rows.last() == stored.conflicts@[n - 1]);
        }
    }
}

/// Nothing is read that no row says.
pub proof fn lemma_nothing_else_is_read(stored: Stored, path: Seq<char>)
    ensures
        decoded(stored) matches Ok(state) ==> {
            &&& (forall|j: int| 0 <= j < stored.ownership@.len() ==> (#[trigger] stored.ownership@[j]).0@ != path) ==> !state.owned.contains_key(path)
            &&& (forall|j: int| 0 <= j < stored.baselines@.len() ==> (#[trigger] stored.baselines@[j]).0@ != path) ==> !state.files.contains_key(path)
            &&& (forall|j: int| 0 <= j < stored.conflicts@.len() ==> (#[trigger] stored.conflicts@[j]).0@ != path) ==> !state.conflicts.contains_key(path)
        },
{
    let a = stored.ownership@;
    let b = stored.baselines@;
    let c = stored.conflicts@;
    assert(a.take(a.len() as int) =~= a);
    assert(b.take(b.len() as int) =~= b);
    assert(c.take(c.len() as int) =~= c);
    lemma_no_rows(stored, path, a.len() as int);
    lemma_no_rows(stored, path, b.len() as int);
    lemma_no_rows(stored, path, c.len() as int);
}

/// Before anything was synchronized, a history is empty.
pub proof fn lemma_histories_begin_empty(path: Seq<char>)
    ensures
        !no_history().owned.contains_key(path),
        !no_history().files.contains_key(path),
        !no_history().conflicts.contains_key(path),
        no_history().last_sync is None,
{
}

/// A history that has not changed is not written.
pub proof fn lemma_unchanged_histories_are_not_written(earlier: State, now: State)
    requires
        earlier.wf(),
        now.wf(),
        earlier@ == now@,
    ensures
        updates(earlier, now).len() == 0,
{
    earlier.owned.lemma_domain();
    now.owned.lemma_domain();
    earlier.files.lemma_domain();
    now.files.lemma_domain();
    earlier.conflicts.lemma_domain();
    now.conflicts.lemma_domain();
    lemma_difference(earlier.owned@, earlier.owned.keys(), now.owned@, now.owned.keys());
    lemma_difference(earlier.files@, earlier.files.keys(), now.files@, now.files.keys());
    lemma_difference(earlier.conflicts@, earlier.conflicts.keys(), now.conflicts@, now.conflicts.keys());
    lemma_holds_nothing(gone(earlier.owned.keys(), now.owned@));
    lemma_holds_nothing(gone(earlier.files.keys(), now.files@));
    lemma_holds_nothing(gone(earlier.conflicts.keys(), now.conflicts@));
    lemma_holds_nothing(altered(now.owned.keys(), now.owned@, earlier.owned@));
    lemma_holds_nothing(altered(now.files.keys(), now.files@, earlier.files@));
    lemma_holds_nothing(altered(now.conflicts.keys(), now.conflicts@, earlier.conflicts@));
}

proof fn lemma_holds_nothing(list: Seq<Seq<char>>)
    ensures
        (forall|k: Seq<char>| !list.contains(k)) ==> list.len() == 0,
{
    if list.len() > 0 {
        assert(list.contains(list[0]));
    }
}

/// A database takes every number that it can hold.
pub proof fn lemma_which_histories_can_be_written(earlier: State, now: State)
    requires
        forall|k: Seq<char>| now.owned@.contains_key(k) ==> #[trigger] now.owned@[k] <= 0x7fff_ffff_ffff_ffff,
        forall|k: Seq<char>| now.files@.contains_key(k) ==> (#[trigger] now.files@[k]).entry <= 0x7fff_ffff_ffff_ffff,
        now.last_sync is Some ==> now.last_sync->0 <= 0x7fff_ffff_ffff_ffff,
    ensures
        writable(earlier, now),
{
}

// ---------------------------------------------------------------------------------------------
// Fingerprints

/// What is hashed begins with a tag, of a file with its permission bits as four bytes, the lowest first.
pub proof fn lemma_what_fingerprints_begin_with(mode: u32)
    ensures
        link_tag() == seq![115u8, 121u8, 109u8, 108u8, 105u8, 110u8, 107u8, 0u8],
        file_tag(mode).len() == 9,
        file_tag(mode).take(5) == seq![102u8, 105u8, 108u8, 101u8, 0u8],
        file_tag(mode)[5] + 256 * file_tag(mode)[6] + 65536 * file_tag(mode)[7] + 16777216 * file_tag(mode)[8] == mode & 511u32,
        permissions(mode) == mode & 511u32,
{
    assert(file_tag(mode).take(5) =~= seq![102u8, 105u8, 108u8, 101u8, 0u8]);
    assert(mode & 511u32 <= 511u32) by (bit_vector);
}

} // verus!
