//! Paths as text: the parts that a path is made of, and what is read off them.
//!
//! A path is a sequence of parts separated by slashes. Empty parts do not count, and neither does
//! a part `.`, except for one at the very start. A leading slash is a part of its own.
use vstd::prelude::*;

use crate::text::{
    before, characters, is_before, lemma_before_irreflexive, lemma_before_total, lemma_before_transitive, same, slice, views,
};

verus! {

/// Where the run of characters without a slash that begins at `i` ends.
pub open spec fn run_end(s: Seq<char>, i: int) -> int
    decreases s.len() - i,
{
    if i < 0 || i >= s.len() || s[i] == '/' {
        i
    } else {
        run_end(s, i + 1)
    }
}

/// What the end of a run is.
pub proof fn lemma_run_end(s: Seq<char>, i: int)
    requires
        0 <= i <= s.len(),
    ensures
        i <= run_end(s, i) <= s.len(),
        forall|k: int| i <= k < run_end(s, i) ==> s[k] != '/',
        run_end(s, i) < s.len() ==> s[run_end(s, i)] == '/',
    decreases s.len() - i,
{
    if i < s.len() && s[i] != '/' {
        lemma_run_end(s, i + 1);
    }
}

proof fn lemma_run_end_is(s: Seq<char>, i: int, j: int)
    requires
        0 <= i <= j <= s.len(),
        forall|k: int| i <= k < j ==> s[k] != '/',
        j < s.len() ==> s[j] == '/',
    ensures
        run_end(s, i) == j,
    decreases j - i,
{
    if i < j {
        lemma_run_end_is(s, i + 1, j);
    }
}

/// Where the names of `s` stand, from position `i` on: the runs other than `.`.
pub open spec fn spans_from(s: Seq<char>, i: int) -> Seq<(int, int)>
    decreases s.len() - i,
    via spans_from_decreases
{
    if i < 0 || i >= s.len() {
        Seq::empty()
    } else if s[i] == '/' {
        spans_from(s, i + 1)
    } else {
        let j = run_end(s, i);
        if j == i + 1 && s[i] == '.' {
            spans_from(s, j)
        } else {
            seq![(i, j)] + spans_from(s, j)
        }
    }
}

#[via_fn]
proof fn spans_from_decreases(s: Seq<char>, i: int) {
    if 0 <= i < s.len() {
        lemma_run_end(s, i);
    }
}

/// Whether `s` begins with a part that is no name: a slash, or a part `.`.
pub open spec fn marked(s: Seq<char>) -> bool {
    s.len() > 0 && (s[0] == '/' || (s[0] == '.' && (s.len() == 1 || s[1] == '/')))
}

/// Where the parts of a path stand.
pub open spec fn pieces(s: Seq<char>) -> Seq<(int, int)> {
    if marked(s) {
        seq![(0int, 1int)] + spans_from(s, 0)
    } else {
        spans_from(s, 0)
    }
}

/// The text that stands in each span.
pub open spec fn texts(s: Seq<char>, spans: Seq<(int, int)>) -> Seq<Seq<char>> {
    Seq::new(spans.len(), |k: int| s.subrange(spans[k].0, spans[k].1))
}

/// The parts of a path that are names.
pub open spec fn names(s: Seq<char>) -> Seq<Seq<char>> {
    texts(s, spans_from(s, 0))
}

/// The parts of a path: perhaps `/` or `.`, then names.
pub open spec fn parts(s: Seq<char>) -> Seq<Seq<char>> {
    texts(s, pieces(s))
}

/// Whether a path begins at the root.
pub open spec fn absolute(s: Seq<char>) -> bool {
    s.len() > 0 && s[0] == '/'
}

/// Whether the path `s` is `base` or lies below it.
pub open spec fn under(s: Seq<char>, base: Seq<char>) -> bool {
    parts(base).is_prefix_of(parts(s))
}

/// The text of the parts of `s` from part `from` up to part `to`.
pub open spec fn between(s: Seq<char>, from: int, to: int) -> Seq<char> {
    if 0 <= from < to <= pieces(s).len() {
        s.subrange(pieces(s)[from].0, pieces(s)[to - 1].1)
    } else {
        Seq::empty()
    }
}

/// What is left of `s` below `base`.
pub open spec fn stripped(s: Seq<char>, base: Seq<char>) -> Option<Seq<char>> {
    if under(s, base) {
        Some(between(s, parts(base).len() as int, parts(s).len() as int))
    } else {
        None
    }
}

/// The directory that holds `s`.
pub open spec fn upper(s: Seq<char>) -> Option<Seq<char>> {
    let n = parts(s).len() as int;
    if n == 0 || (n == 1 && absolute(s)) {
        None
    } else {
        Some(between(s, 0, n - 1))
    }
}

/// Whether a part names an entry of a directory.
pub open spec fn plain(part: Seq<char>) -> bool {
    part != "/"@ && part != "."@ && part != ".."@
}

/// The last part of `s`, where it names an entry of a directory.
pub open spec fn leaf(s: Seq<char>) -> Option<Seq<char>> {
    if parts(s).len() > 0 && plain(parts(s).last()) {
        Some(parts(s).last())
    } else {
        None
    }
}

/// The path `b`, taken from the directory `a`.
pub open spec fn joined(a: Seq<char>, b: Seq<char>) -> Seq<char> {
    if absolute(b) {
        b
    } else if a.len() == 0 || a.last() == '/' {
        a + b
    } else {
        a.push('/') + b
    }
}

/// The path made of the given parts.
pub open spec fn assembled(list: Seq<Seq<char>>) -> Seq<char>
    decreases list.len(),
{
    if list.len() == 0 {
        Seq::empty()
    } else {
        joined(assembled(list.drop_last()), list.last())
    }
}

/// Whether `n` can stand as a name in a path.
pub open spec fn nameable(n: Seq<char>) -> bool {
    n.len() > 0 && n != "."@ && forall|k: int| 0 <= k < n.len() ==> n[k] != '/'
}

// ---------------------------------------------------------------------------------------------
// Facts about spans

/// Whether a span of `s` that does not begin before `i` holds a name.
spec fn holds_name(s: Seq<char>, i: int, p: (int, int)) -> bool {
    &&& i <= p.0 < p.1 <= s.len()
    &&& forall|m: int| p.0 <= m < p.1 ==> s[m] != '/'
    &&& !(p.1 == p.0 + 1 && s[p.0] == '.')
}

proof fn lemma_spans_within(s: Seq<char>, i: int)
    requires
        0 <= i <= s.len(),
    ensures
        forall|k: int| 0 <= k < spans_from(s, i).len() ==> holds_name(s, i, #[trigger] spans_from(s, i)[k]),
        forall|k: int, l: int| 0 <= k < l < spans_from(s, i).len() ==> (#[trigger] spans_from(s, i)[k]).1 <= (#[trigger] spans_from(s, i)[l]).0,
    decreases s.len() - i,
{
    let all = spans_from(s, i);
    if i < s.len() {
        if s[i] == '/' {
            lemma_spans_within(s, i + 1);
            assert(all == spans_from(s, i + 1));
        } else {
            lemma_run_end(s, i);
            let j = run_end(s, i);
            let tail = spans_from(s, j);
            lemma_spans_within(s, j);
            if j == i + 1 && s[i] == '.' {
                assert(all == tail);
            } else {
                assert(all == seq![(i, j)] + tail);
                assert(holds_name(s, i, (i, j)));
                assert forall|k: int| 0 <= k < all.len() implies holds_name(s, i, #[trigger] all[k]) by {
                    if k > 0 {
                        assert(all[k] == tail[k - 1]);
                        assert(holds_name(s, j, tail[k - 1]));
                    }
                }
                assert forall|k: int, l: int| 0 <= k < l < all.len() implies (#[trigger] all[k]).1 <= (#[trigger] all[l]).0 by {
                    assert(all[l] == tail[l - 1]);
                    assert(holds_name(s, j, tail[l - 1]));
                    if k > 0 {
                        assert(all[k] == tail[k - 1]);
                    }
                }
            }
        }
    }
}

/// The parts of a path stand in it one after the other.
pub proof fn lemma_pieces_within(s: Seq<char>)
    ensures
        forall|k: int| 0 <= k < pieces(s).len() ==> 0 <= (#[trigger] pieces(s)[k]).0 < pieces(s)[k].1 <= s.len(),
        forall|k: int, l: int| 0 <= k < l < pieces(s).len() ==> (#[trigger] pieces(s)[k]).1 <= (#[trigger] pieces(s)[l]).0,
{
    lemma_spans_within(s, 0);
    if marked(s) {
        let tail = spans_from(s, 0);
        assert forall|k: int| 0 <= k < tail.len() implies 1 <= (#[trigger] tail[k]).0 by {
            let p = tail[k];
            if p.0 == 0 {
                if s[0] == '.' {
                    if s.len() > 1 {
                        assert(s[1] == '/');
                    }
                }
            }
        }
        assert forall|k: int| 1 <= k < pieces(s).len() implies #[trigger] pieces(s)[k] == tail[k - 1] by {}
    }
}

/// Every name of a path can stand as a name.
pub proof fn lemma_names(s: Seq<char>)
    ensures
        forall|k: int| 0 <= k < names(s).len() ==> nameable(#[trigger] names(s)[k]),
        marked(s) ==> parts(s) == seq![s.take(1)] + names(s),
        !marked(s) ==> parts(s) == names(s),
{
    lemma_spans_within(s, 0);
    reveal_strlit(".");
    assert forall|k: int| 0 <= k < names(s).len() implies nameable(#[trigger] names(s)[k]) by {
        let p = spans_from(s, 0)[k];
        let n = names(s)[k];
        if n == "."@ {
            assert(n.len() == 1);
            assert(n[0] == s[p.0]);
        }
        assert forall|m: int| 0 <= m < n.len() implies n[m] != '/' by {
            assert(n[m] == s[p.0 + m]);
        }
    }
    if marked(s) {
        assert(parts(s) =~= seq![s.take(1)] + names(s)) by {
            assert(s.take(1) == s.subrange(0, 1));
        }
    } else {
        assert(parts(s) =~= names(s));
    }
}

/// The spans of a text that begins with `a`, where no run goes across the end of `a`.
proof fn lemma_spans_split(a: Seq<char>, s: Seq<char>, i: int)
    requires
        0 <= i <= a.len() <= s.len(),
        s.take(a.len() as int) == a,
        a.len() == 0 || a.last() == '/' || a.len() == s.len() || s[a.len() as int] == '/',
    ensures
        spans_from(s, i) == spans_from(a, i) + spans_from(s, a.len() as int),
    decreases a.len() - i,
{
    let n = a.len() as int;
    assert forall|k: int| 0 <= k < n implies a[k] == s[k] by {
        assert(s.take(n)[k] == s[k]);
    }
    if i < n {
        if a[i] == '/' {
            lemma_spans_split(a, s, i + 1);
        } else {
            lemma_run_end(a, i);
            let j = run_end(a, i);
            if j == n {
                assert(a[n - 1] != '/');
            }
            lemma_run_end_is(s, i, j);
            lemma_spans_split(a, s, j);
            assert(spans_from(s, i) =~= spans_from(a, i) + spans_from(s, n));
        }
    } else {
        assert(spans_from(s, i) =~= spans_from(a, i) + spans_from(s, n));
    }
}

/// Spans moved by a distance.
pub open spec fn moved(spans: Seq<(int, int)>, by: int) -> Seq<(int, int)> {
    Seq::new(spans.len(), |k: int| (spans[k].0 + by, spans[k].1 + by))
}

/// The spans of a text that ends with `b`.
proof fn lemma_spans_moved(a: Seq<char>, b: Seq<char>, i: int)
    requires
        0 <= i <= b.len(),
    ensures
        spans_from(a + b, a.len() + i) == moved(spans_from(b, i), a.len() as int),
    decreases b.len() - i,
{
    let n = a.len() as int;
    let s = a + b;
    if i < b.len() {
        assert(s[n + i] == b[i]);
        if b[i] == '/' {
            lemma_spans_moved(a, b, i + 1);
        } else {
            lemma_run_end(b, i);
            let j = run_end(b, i);
            assert forall|k: int| n + i <= k < n + j implies s[k] != '/' by {
                assert(s[k] == b[k - n]);
            }
            lemma_run_end_is(s, n + i, n + j);
            lemma_spans_moved(a, b, j);
        }
        assert(spans_from(s, n + i) =~= moved(spans_from(b, i), n));
    } else {
        assert(spans_from(s, n + i) =~= moved(spans_from(b, i), n));
    }
}

/// The parts of a joined path are those of the directory, then the names of the path in it.
pub proof fn lemma_joined(a: Seq<char>, b: Seq<char>)
    requires
        !absolute(b),
    ensures
        names(joined(a, b)) == names(a) + names(b),
        a.len() > 0 ==> parts(joined(a, b)) == parts(a) + names(b),
        a.len() > 0 ==> absolute(joined(a, b)) == absolute(a),
        a.len() == 0 ==> joined(a, b) == b,
        under(joined(a, b), a),
{
    if a.len() == 0 {
        assert(joined(a, b) =~= b);
        assert(names(a) =~= Seq::empty());
        assert(names(a) + names(b) =~= names(b));
        assert(parts(a) =~= Seq::empty());
        assert(parts(a).is_prefix_of(parts(joined(a, b))));
    } else {
        let t = if a.last() == '/' { a } else { a.push('/') };
        let s = joined(a, b);
        assert(s == t + b);
        let n = t.len() as int;
        assert(s.take(n) =~= t);
        assert(s.take(a.len() as int) =~= a);
        lemma_spans_split(t, s, 0);
        assert(t.take(a.len() as int) =~= a);
        lemma_spans_split(a, t, 0);
        lemma_spans_moved(t, b, 0);
        let tail = spans_from(t, a.len() as int);
        assert(tail =~= Seq::empty()) by {
            if t != a {
                assert(t[a.len() as int] == '/');
                assert(spans_from(t, a.len() as int + 1) =~= Seq::empty());
            }
        }
        let left = spans_from(a, 0);
        let right = spans_from(b, 0);
        assert(spans_from(t, 0) =~= left);
        assert(spans_from(s, 0) == left + moved(right, n));
        lemma_spans_within(a, 0);
        lemma_spans_within(b, 0);
        assert(names(s) =~= names(a) + names(b)) by {
            assert forall|k: int| 0 <= k < names(s).len() implies #[trigger] names(s)[k] == (names(a) + names(b))[k] by {
                if k < left.len() {
                    let p = left[k];
                    assert(spans_from(s, 0)[k] == p);
                    assert(s.subrange(p.0, p.1) =~= a.subrange(p.0, p.1));
                } else {
                    let p = right[k - left.len()];
                    assert(spans_from(s, 0)[k] == moved(right, n)[k - left.len()]);
                    assert(s.subrange(p.0 + n, p.1 + n) =~= b.subrange(p.0, p.1));
                }
            }
        }
        assert(s[0] == a[0]);
        assert(marked(s) == marked(a)) by {
            if a.len() > 1 {
                assert(s[1] == a[1]);
            } else if s.len() > 1 && a[0] != '/' {
                assert(s[1] == '/');
            }
        }
        lemma_names(s);
        lemma_names(a);
        assert(s.take(1) =~= a.take(1));
        assert(parts(s) =~= parts(a) + names(b));
        assert(parts(a).is_prefix_of(parts(s)));
    }
}

/// A name is a path of one part.
pub proof fn lemma_name(n: Seq<char>)
    requires
        nameable(n),
    ensures
        !absolute(n),
        !marked(n),
        names(n) == seq![n],
        parts(n) == seq![n],
{
    reveal_strlit(".");
    assert(n[0] != '/');
    if n.len() == 1 && n[0] == '.' {
        assert(n =~= "."@);
    }
    lemma_run_end_is(n, 0, n.len() as int);
    assert(spans_from(n, n.len() as int) =~= Seq::empty());
    assert(spans_from(n, 0) =~= seq![(0int, n.len() as int)]);
    assert(n.subrange(0, n.len() as int) =~= n);
    assert(names(n) =~= seq![n]);
    if n.len() > 1 {
        assert(n[1] != '/');
    }
    lemma_names(n);
}

/// The parts of a path made of names are those names.
pub proof fn lemma_assembled(list: Seq<Seq<char>>)
    requires
        forall|k: int| 0 <= k < list.len() ==> nameable(#[trigger] list[k]),
    ensures
        names(assembled(list)) == list,
        parts(assembled(list)) == list,
        !absolute(assembled(list)),
        assembled(list).len() == 0 <==> list.len() == 0,
    decreases list.len(),
{
    if list.len() == 0 {
        assert(names(assembled(list)) =~= list);
        assert(parts(assembled(list)) =~= list);
    } else {
        let init = list.drop_last();
        let n = list.last();
        lemma_assembled(init);
        lemma_name(n);
        lemma_joined(assembled(init), n);
        assert(init + seq![n] =~= list);
    }
}

/// A path made of names does not end in `/`.
proof fn lemma_assembled_end(list: Seq<Seq<char>>)
    requires
        forall|k: int| 0 <= k < list.len() ==> nameable(#[trigger] list[k]),
        list.len() > 0,
    ensures
        assembled(list).len() > 0,
        assembled(list).last() != '/',
{
    let n = list.last();
    assert(nameable(list[list.len() - 1]));
    assert(!absolute(n));
    assert(assembled(list).last() == n.last());
}

/// The path made of names and more names is the path made of these, taken from the directory made of
/// those.
pub proof fn lemma_assembled_in_two(a: Seq<Seq<char>>, b: Seq<Seq<char>>)
    requires
        forall|k: int| 0 <= k < a.len() ==> nameable(#[trigger] a[k]),
        forall|k: int| 0 <= k < b.len() ==> nameable(#[trigger] b[k]),
        b.len() > 0,
    ensures
        assembled(a + b) == joined(assembled(a), assembled(b)),
    decreases b.len(),
{
    let init = b.drop_last();
    let n = b.last();
    assert(nameable(b[b.len() - 1]));
    assert((a + b).drop_last() =~= a + init);
    assert((a + b).last() == n);
    if init.len() == 0 {
        assert(a + init =~= a);
        assert(assembled(init) =~= Seq::empty());
        assert(assembled(b) =~= n);
    } else {
        lemma_assembled_in_two(a, init);
        lemma_assembled_end(init);
        lemma_assembled(init);
        let front = assembled(a);
        let middle = assembled(init);
        if a.len() > 0 {
            lemma_assembled_end(a);
        } else {
            assert(front =~= Seq::empty());
        }
        let back = joined(middle, n);
        assert(!absolute(middle));
        assert(back[0] == middle[0]);
        assert(joined(front, middle).last() == middle.last());
        assert(joined(joined(front, middle), n) =~= joined(front, back));
    }
}

/// Whether no run of `s` goes across position `i`.
spec fn boundary(s: Seq<char>, i: int) -> bool {
    i <= 0 || i >= s.len() || s[i - 1] == '/' || s[i] == '/'
}

proof fn lemma_spans_bounded(s: Seq<char>, i: int)
    requires
        0 <= i <= s.len(),
        boundary(s, i),
    ensures
        forall|k: int| 0 <= k < spans_from(s, i).len() ==> boundary(s, (#[trigger] spans_from(s, i)[k]).0) && boundary(s, spans_from(s, i)[k].1),
    decreases s.len() - i,
{
    let all = spans_from(s, i);
    if i < s.len() {
        if s[i] == '/' {
            lemma_spans_bounded(s, i + 1);
            assert(all == spans_from(s, i + 1));
        } else {
            lemma_run_end(s, i);
            let j = run_end(s, i);
            let tail = spans_from(s, j);
            lemma_spans_bounded(s, j);
            if j == i + 1 && s[i] == '.' {
                assert(all == tail);
            } else {
                assert(all == seq![(i, j)] + tail);
                assert forall|k: int| 0 <= k < all.len() implies boundary(s, (#[trigger] all[k]).0) && boundary(s, all[k].1) by {
                    if k > 0 {
                        assert(all[k] == tail[k - 1]);
                    }
                }
            }
        }
    }
}

/// Cutting a path at the end of its last name takes no name away.
proof fn lemma_spans_trimmed(s: Seq<char>, b: int)
    requires
        spans_from(s, 0).len() > 0,
        b == spans_from(s, 0).last().1,
    ensures
        0 < b <= s.len(),
        spans_from(s.take(b), 0) == spans_from(s, 0),
{
    let all = spans_from(s, 0);
    lemma_spans_within(s, 0);
    lemma_spans_bounded(s, 0);
    assert(holds_name(s, 0, all[all.len() - 1]));
    let u = s.take(b);
    assert(boundary(s, b));
    if b < s.len() && s[b] != '/' {
        assert(u.last() == s[b - 1]);
    }
    lemma_spans_split(u, s, 0);
    lemma_spans_within(s, b);
    let tail = spans_from(s, b);
    if tail.len() > 0 {
        assert(all.last() == tail.last());
        assert(holds_name(s, b, tail[tail.len() - 1]));
    }
    assert(all =~= spans_from(u, 0));
}

/// Cutting a path at the start of a name leaves that name and those after it.
proof fn lemma_spans_cut(u: Seq<char>, k: int)
    requires
        0 <= k < spans_from(u, 0).len(),
    ensures
        ({
            let a = spans_from(u, 0)[k].0;
            &&& 0 <= a < u.len()
            &&& moved(spans_from(u.skip(a), 0), a) == spans_from(u, 0).skip(k)
        }),
{
    let all = spans_from(u, 0);
    let a = all[k].0;
    lemma_spans_within(u, 0);
    lemma_spans_bounded(u, 0);
    assert(holds_name(u, 0, all[k]));
    let head = u.take(a);
    let t = u.skip(a);
    assert(head + t =~= u);
    assert(boundary(u, a));
    assert(u[a] != '/');
    if a > 0 {
        assert(head.last() == u[a - 1]);
    }
    lemma_spans_split(head, u, 0);
    lemma_spans_moved(head, t, 0);
    let left = spans_from(head, 0);
    let right = moved(spans_from(t, 0), a);
    assert(all == left + right);
    lemma_spans_within(head, 0);
    lemma_spans_within(t, 0);
    if left.len() > k {
        assert(all[k] == left[k]);
        assert(holds_name(head, 0, left[k]));
    }
    if left.len() < k {
        let m = left.len() as int;
        assert(all[m] == right[0]);
        assert(holds_name(t, 0, spans_from(t, 0)[0]));
        assert(all[m].1 <= all[k].0);
    }
    assert(right =~= all.skip(k));
}

/// The text up to a part of a path holds the parts up to it.
pub proof fn lemma_cut(s: Seq<char>, k: int)
    requires
        0 <= k <= parts(s).len(),
    ensures
        parts(between(s, 0, k)) == parts(s).take(k),
        absolute(between(s, 0, k)) == (absolute(s) && k > 0),
{
    let c = between(s, 0, k);
    let all = spans_from(s, 0);
    lemma_spans_within(s, 0);
    lemma_spans_bounded(s, 0);
    lemma_pieces_within(s);
    if k == 0 {
        assert(pieces(c) =~= Seq::empty());
        assert(parts(c) =~= parts(s).take(k));
    } else {
        let b = pieces(s)[k - 1].1;
        assert(s.len() > 0);
        if !marked(s) {
            lemma_run_end(s, 0);
            assert(pieces(s)[0].0 == 0);
        }
        assert(c =~= s.take(b));
        let mark: int = if marked(s) { 1 } else { 0 };
        if k == mark {
            assert(c.len() == 1 && c[0] == s[0]);
            assert(spans_from(c, 1) =~= Seq::empty());
            if c[0] == '.' {
                lemma_run_end_is(c, 0, 1);
            }
            assert(spans_from(c, 0) =~= Seq::empty());
            assert(marked(c));
            assert(pieces(c) =~= seq![(0int, 1int)]);
            assert(parts(c)[0] =~= parts(s)[0]);
            assert(parts(c) =~= parts(s).take(k));
        } else {
            let m = k - 1 - mark;
            assert(all[m].1 == b) by {
                assert(pieces(s)[k - 1] == all[m]);
            }
            assert(holds_name(s, 0, all[m]));
            assert(boundary(s, b));
            assert(s[b - 1] != '/');
            assert(s.take(b) == c);
            lemma_spans_split(c, s, 0);
            lemma_spans_within(c, 0);
            lemma_spans_within(s, b);
            let left = spans_from(c, 0);
            let right = spans_from(s, b);
            assert(all == left + right);
            if left.len() > m + 1 {
                assert(holds_name(c, 0, left[m + 1]));
                assert(all[m + 1] == left[m + 1]);
                assert(all[m].1 <= all[m + 1].0);
            }
            if left.len() <= m {
                assert(all[m] == right[m - left.len()]);
                assert(holds_name(s, b, right[m - left.len()]));
            }
            assert(left =~= all.take(m + 1));
            if m > 0 {
                assert(all[0].1 <= all[m].0);
            }
            assert(holds_name(s, 0, all[0]));
            assert(marked(c) == marked(s)) by {
                if s[0] == '.' && s.len() > 1 {
                    if b == 1 {
                        assert(all[0].0 == 0 && all[0].1 == 1);
                    }
                    assert(c[1] == s[1]);
                }
            }
            assert(pieces(c) =~= pieces(s).take(k));
            assert forall|i: int| 0 <= i < k implies parts(c)[i] == #[trigger] parts(s)[i] by {
                let p = pieces(s)[i];
                assert(pieces(c)[i] == p);
                if i < k - 1 {
                    assert(p.1 <= pieces(s)[k - 1].0);
                }
                assert(c.subrange(p.0, p.1) =~= s.subrange(p.0, p.1));
            }
            assert(parts(c) =~= parts(s).take(k));
        }
    }
}

/// The text from one name of a path to its last holds those names.
pub proof fn lemma_between(s: Seq<char>, k: int)
    requires
        0 <= k <= parts(s).len(),
        marked(s) ==> k >= 1,
    ensures
        ({
            let rest = between(s, k, parts(s).len() as int);
            &&& names(rest) == parts(s).skip(k)
            &&& parts(rest) == names(rest)
            &&& !absolute(rest)
            &&& !marked(rest)
        }),
{
    let n = parts(s).len() as int;
    let rest = between(s, k, n);
    lemma_names(s);
    if k == n {
        assert(names(rest) =~= parts(s).skip(k));
        assert(parts(rest) =~= names(rest));
    } else {
        let all = spans_from(s, 0);
        let d: int = if marked(s) { 1 } else { 0 };
        let m = k - d;
        let a = all[m].0;
        let b = all.last().1;
        assert(pieces(s)[k] == all[m]);
        assert(pieces(s)[n - 1] == all.last());
        lemma_spans_trimmed(s, b);
        let u = s.take(b);
        lemma_spans_cut(u, m);
        assert(rest =~= u.skip(a));
        lemma_spans_within(s, 0);
        lemma_spans_within(u, 0);
        let here = spans_from(rest, 0);
        lemma_spans_within(rest, 0);
        assert(moved(here, a) == all.skip(m));
        assert(names(rest) =~= parts(s).skip(k)) by {
            assert(moved(here, a).len() == here.len());
            assert(all.skip(m).len() == all.len() - m);
            assert(pieces(s).len() == all.len() + d);
            assert(parts(s).skip(k).len() == n - k);
            assert forall|i: int| 0 <= i < here.len() implies #[trigger] names(rest)[i] == parts(s).skip(k)[i] by {
                let p = here[i];
                assert(holds_name(rest, 0, p));
                assert(moved(here, a)[i] == all[m + i]);
                assert(rest.subrange(p.0, p.1) =~= s.subrange(p.0 + a, p.1 + a));
            }
        }
        let first = here[0];
        assert(moved(here, a)[0] == all[m]);
        assert(holds_name(rest, 0, first));
        assert(first.0 == 0);
        assert(rest[0] != '/');
        assert(!marked(rest)) by {
            if marked(rest) {
                if rest.len() > 1 {
                    assert(rest[1] == '/');
                    assert(first.1 <= 1);
                }
            }
        }
        lemma_names(rest);
    }
}

/// What is left of a path below another are the parts that follow.
pub proof fn lemma_stripped(s: Seq<char>, base: Seq<char>)
    requires
        under(s, base),
        parts(base).len() > 0 || !marked(s),
    ensures
        stripped(s, base) is Some,
        parts(s) == parts(base) + names(stripped(s, base)->0),
        parts(stripped(s, base)->0) == names(stripped(s, base)->0),
        !absolute(stripped(s, base)->0),
{
    let k = parts(base).len() as int;
    lemma_between(s, k);
    assert(parts(s).subrange(0, k) + parts(s).skip(k) =~= parts(s));
}

// ---------------------------------------------------------------------------------------------
// Reading paths

fn find_run_end(s: &Vec<char>, from: usize) -> (r: usize)
    requires
        from <= s@.len(),
    ensures
        r == run_end(s@, from as int),
        from <= r <= s@.len(),
{
    let mut i: usize = from;
    while i < s.len() && s[i] != '/'
        invariant
            from <= i <= s@.len(),
            run_end(s@, from as int) == run_end(s@, i as int),
        decreases s@.len() - i,
    {
        i = i + 1;
    }
    i
}

/// Whether executable spans stand for the given ones.
spec fn located(found: Seq<(usize, usize)>, spans: Seq<(int, int)>) -> bool {
    found.len() == spans.len() && forall|k: int| 0 <= k < found.len() ==> (#[trigger] found[k]).0 == spans[k].0 && found[k].1 == spans[k].1
}

fn locate(s: &Vec<char>) -> (r: Vec<(usize, usize)>)
    ensures
        located(r@, pieces(s@)),
{
    let mut out: Vec<(usize, usize)> = Vec::new();
    if s.len() > 0 && (s[0] == '/' || (s[0] == '.' && (s.len() == 1 || s[1] == '/'))) {
        out.push((0, 1));
    }
    let ghost mut done: Seq<(int, int)> = if marked(s@) {
        seq![(0int, 1int)]
    } else {
        Seq::empty()
    };
    let mut i: usize = 0;
    assert(done + spans_from(s@, 0) =~= pieces(s@));
    while i < s.len()
        invariant
            i <= s@.len(),
            located(out@, done),
            done + spans_from(s@, i as int) == pieces(s@),
        decreases s@.len() - i,
    {
        if s[i] == '/' {
            i = i + 1;
        } else {
            proof {
                lemma_run_end(s@, i as int);
            }
            let j: usize = find_run_end(s, i);
            let ghost rest = spans_from(s@, i as int);
            assert(j > i) by {
                assert(run_end(s@, i as int) == run_end(s@, i + 1));
                lemma_run_end(s@, i + 1);
            }
            if !(j == i + 1 && s[i] == '.') {
                out.push((i, j));
                proof {
                    assert(done + rest =~= done.push((i as int, j as int)) + spans_from(s@, j as int));
                    done = done.push((i as int, j as int));
                }
            }
            i = j;
        }
    }
    assert(done + Seq::<(int, int)>::empty() =~= done);
    out
}

/// The parts of a path.
pub fn components(path: &str) -> (r: Vec<String>)
    ensures
        views(r@) == parts(path@),
{
    let text = characters(path);
    let spans = locate(&text);
    proof {
        lemma_pieces_within(path@);
    }
    let mut out: Vec<String> = Vec::new();
    let mut i: usize = 0;
    while i < spans.len()
        invariant
            text@ == path@,
            located(spans@, pieces(path@)),
            forall|k: int| 0 <= k < pieces(path@).len() ==> 0 <= (#[trigger] pieces(path@)[k]).0 < pieces(path@)[k].1 <= path@.len(),
            i <= spans@.len(),
            out@.len() == i,
            forall|k: int| 0 <= k < i ==> (#[trigger] out@[k])@ == parts(path@)[k],
        decreases spans@.len() - i,
    {
        assert(pieces(path@)[i as int].0 == spans@[i as int].0);
        out.push(slice(&text, spans[i].0, spans[i].1));
        i = i + 1;
    }
    assert(views(out@) =~= parts(path@));
    out
}

/// Whether a path begins at the root.
pub fn is_absolute(path: &str) -> (r: bool)
    ensures
        r == absolute(path@),
{
    let text = characters(path);
    text.len() > 0 && text[0] == '/'
}

/// Whether one list of texts begins with another.
fn begins_with(list: &Vec<String>, start: &Vec<String>) -> (r: bool)
    ensures
        r == views(start@).is_prefix_of(views(list@)),
{
    if start.len() > list.len() {
        return false;
    }
    let mut i: usize = 0;
    while i < start.len()
        invariant
            i <= start@.len() <= list@.len(),
            forall|k: int| 0 <= k < i ==> start@[k]@ == list@[k]@,
        decreases start@.len() - i,
    {
        if !same(start[i].as_str(), list[i].as_str()) {
            assert(views(list@).subrange(0, start@.len() as int)[i as int] != views(start@)[i as int]);
            return false;
        }
        i = i + 1;
    }
    assert(views(list@).subrange(0, start@.len() as int) =~= views(start@));
    true
}

/// Whether two texts are the same path.
pub fn is_same(a: &str, b: &str) -> (r: bool)
    ensures
        r == (parts(a@) == parts(b@)),
{
    let x = components(a);
    let y = components(b);
    if x.len() != y.len() {
        assert(views(x@).len() != views(y@).len());
        return false;
    }
    let r = begins_with(&x, &y);
    assert(views(x@).subrange(0, views(x@).len() as int) =~= views(x@));
    r
}

/// Whether `path` is `base` or lies below it.
pub fn starts_with(path: &str, base: &str) -> (r: bool)
    ensures
        r == under(path@, base@),
{
    begins_with(&components(path), &components(base))
}

fn cut(path: &str, from: usize, to: usize) -> (r: String)
    requires
        from <= to <= pieces(path@).len(),
    ensures
        r@ == between(path@, from as int, to as int),
{
    let text = characters(path);
    let spans = locate(&text);
    if from < to {
        proof {
            lemma_pieces_within(path@);
            assert(pieces(path@)[from as int].0 == spans@[from as int].0);
            assert(pieces(path@)[to - 1].1 == spans@[to - 1].1);
            if from < to - 1 {
                assert(pieces(path@)[from as int].1 <= pieces(path@)[to - 1].0);
            }
        }
        slice(&text, spans[from].0, spans[to - 1].1)
    } else {
        String::new()
    }
}

/// The text of `path` from a part on to the last.
pub fn rest_from(path: &str, from: usize) -> (r: String)
    ensures
        r@ == between(path@, from as int, parts(path@).len() as int),
{
    let all = components(path);
    assert(views(all@).len() == pieces(path@).len());
    if from <= all.len() {
        cut(path, from, all.len())
    } else {
        String::new()
    }
}

/// What is left of `path` below `base`.
pub fn strip_prefix(path: &str, base: &str) -> (r: Option<String>)
    ensures
        match r {
            Some(rest) => stripped(path@, base@) == Some(rest@),
            None => stripped(path@, base@) is None,
        },
{
    let all = components(path);
    let start = components(base);
    assert(views(all@).len() == pieces(path@).len());
    assert(views(start@).len() == parts(base@).len());
    if begins_with(&all, &start) {
        Some(cut(path, start.len(), all.len()))
    } else {
        None
    }
}

/// The directory that holds `path`.
pub fn parent(path: &str) -> (r: Option<String>)
    ensures
        match r {
            Some(above) => upper(path@) == Some(above@),
            None => upper(path@) is None,
        },
{
    let all = components(path);
    assert(views(all@).len() == pieces(path@).len());
    if all.len() == 0 || (all.len() == 1 && is_absolute(path)) {
        None
    } else {
        Some(cut(path, 0, all.len() - 1))
    }
}

/// The last part of `path`, where it names an entry of a directory.
pub fn file_name(path: &str) -> (r: Option<String>)
    ensures
        match r {
            Some(name) => leaf(path@) == Some(name@),
            None => leaf(path@) is None,
        },
{
    let all = components(path);
    assert(views(all@).len() == parts(path@).len());
    if all.len() == 0 {
        return None;
    }
    let last: usize = all.len() - 1;
    assert(views(all@).last() == all@[last as int]@);
    let part = all[last].as_str();
    if same(part, "/") || same(part, ".") || same(part, "..") {
        None
    } else {
        Some(all[last].clone())
    }
}

/// The path `b`, taken from the directory `a`.
pub fn join(a: &str, b: &str) -> (r: String)
    ensures
        r@ == joined(a@, b@),
{
    if is_absolute(b) {
        return b.to_owned();
    }
    let text = characters(a);
    let mut out = a.to_owned();
    if text.len() > 0 && text[text.len() - 1] != '/' {
        out.push('/');
    }
    out.append(b);
    out
}

/// The path made of the given parts.
pub fn assemble(list: &Vec<String>) -> (r: String)
    ensures
        r@ == assembled(views(list@)),
{
    let mut out = String::new();
    let mut i: usize = 0;
    assert(views(list@).take(0).len() == 0);
    while i < list.len()
        invariant
            i <= list@.len(),
            out@ == assembled(views(list@).take(i as int)),
        decreases list@.len() - i,
    {
        out = join(out.as_str(), list[i].as_str());
        assert(views(list@).take(i + 1).drop_last() =~= views(list@).take(i as int));
        assert(views(list@).take(i + 1).last() == list@[i as int]@);
        i = i + 1;
    }
    assert(views(list@).take(list@.len() as int) =~= views(list@));
    out
}

/// `s` and the directories above it, from the inside out: down to the root where `s` is absolute,
/// and down to the empty path where it is not.
pub open spec fn chain(s: Seq<char>) -> Seq<Seq<char>> {
    let n = parts(s).len();
    Seq::new(
        if absolute(s) { n } else { n + 1 },
        |k: int| if k == 0 { s } else { between(s, 0, n - k) },
    )
}

/// `path` and the directories above it, from the inside out.
pub fn ancestors(path: &str) -> (r: Vec<String>)
    ensures
        views(r@) == chain(path@),
{
    let all = components(path);
    assert(views(all@).len() == pieces(path@).len());
    let top = is_absolute(path);
    let mut out: Vec<String> = Vec::new();
    out.push(path.to_owned());
    let mut left: usize = all.len();
    proof {
        lemma_names(path@);
    }
    while left > 0 && !(top && left == 1)
        invariant
            parts(path@).len() == all@.len(),
            top == absolute(path@),
            top ==> left > 0,
            left <= all@.len(),
            out@.len() == all@.len() - left + 1,
            forall|k: int| 0 <= k < out@.len() ==> (#[trigger] out@[k])@ == chain(path@)[k],
        decreases left,
    {
        left = left - 1;
        out.push(cut(path, 0, left));
    }
    assert(views(out@) =~= chain(path@));
    out
}

/// The rank of the kind of a part among the kinds: the root, `.`, `..`, and names.
pub open spec fn rank(part: Seq<char>) -> int {
    if part == "/"@ {
        0
    } else if part == "."@ {
        1
    } else if part == ".."@ {
        2
    } else {
        3
    }
}

/// Whether a part comes before another.
pub open spec fn part_before(a: Seq<char>, b: Seq<char>) -> bool {
    rank(a) < rank(b) || (rank(a) == 3 && rank(b) == 3 && before(a, b))
}

/// Whether the parts `a` come before the parts `b`, looking from position `i` on.
pub open spec fn parts_before(a: Seq<Seq<char>>, b: Seq<Seq<char>>, i: int) -> bool
    decreases a.len() - i,
{
    if i < 0 || i >= b.len() {
        false
    } else if i >= a.len() {
        true
    } else if a[i] != b[i] {
        part_before(a[i], b[i])
    } else {
        parts_before(a, b, i + 1)
    }
}

/// Whether the path `a` comes before the path `b`, part by part.
pub open spec fn path_before(a: Seq<char>, b: Seq<char>) -> bool {
    parts_before(parts(a), parts(b), 0)
}

fn rank_of(part: &str) -> (r: u8)
    ensures
        r == rank(part@),
{
    if same(part, "/") {
        0
    } else if same(part, ".") {
        1
    } else if same(part, "..") {
        2
    } else {
        3
    }
}

/// Whether the path `a` comes before the path `b`, part by part.
pub fn is_path_before(a: &str, b: &str) -> (r: bool)
    ensures
        r == path_before(a@, b@),
{
    let x = components(a);
    let y = components(b);
    assert(views(x@).len() == x@.len());
    assert(views(y@).len() == y@.len());
    let mut i: usize = 0;
    while i < x.len() && i < y.len() && same(x[i].as_str(), y[i].as_str())
        invariant
            views(x@) == parts(a@),
            views(y@) == parts(b@),
            views(x@).len() == x@.len(),
            views(y@).len() == y@.len(),
            i <= x@.len(),
            i <= y@.len(),
            path_before(a@, b@) == parts_before(parts(a@), parts(b@), i as int),
        decreases x@.len() - i,
    {
        assert(parts(a@)[i as int] == x@[i as int]@);
        assert(parts(b@)[i as int] == y@[i as int]@);
        i = i + 1;
    }
    if i >= y.len() {
        false
    } else if i >= x.len() {
        true
    } else {
        assert(parts(a@)[i as int] == x@[i as int]@);
        assert(parts(b@)[i as int] == y@[i as int]@);
        let left = rank_of(x[i].as_str());
        let right = rank_of(y[i].as_str());
        left < right || (left == 3 && right == 3 && is_before(x[i].as_str(), y[i].as_str()))
    }
}

/// No path comes before itself.
pub proof fn lemma_parts_irreflexive(a: Seq<Seq<char>>, i: int)
    requires
        0 <= i,
    ensures
        !parts_before(a, a, i),
    decreases a.len() - i,
{
    if i < a.len() {
        lemma_parts_irreflexive(a, i + 1);
    }
}

/// The order of paths is transitive.
pub proof fn lemma_parts_transitive(a: Seq<Seq<char>>, b: Seq<Seq<char>>, c: Seq<Seq<char>>, i: int)
    requires
        0 <= i,
        parts_before(a, b, i),
        parts_before(b, c, i),
    ensures
        parts_before(a, c, i),
    decreases a.len() - i,
{
    if i < a.len() {
        if a[i] == b[i] && b[i] == c[i] {
            lemma_parts_transitive(a, b, c, i + 1);
        } else if a[i] != b[i] && b[i] != c[i] {
            if rank(a[i]) == 3 && rank(b[i]) == 3 && rank(c[i]) == 3 {
                lemma_before_transitive(a[i], b[i], c[i], 0);
            }
            if a[i] == c[i] {
                lemma_before_irreflexive(a[i], 0);
            }
        }
    }
}

/// Two different paths are ordered.
pub proof fn lemma_parts_total(a: Seq<Seq<char>>, b: Seq<Seq<char>>, i: int)
    requires
        0 <= i <= a.len(),
        i <= b.len(),
        a.take(i) == b.take(i),
    ensures
        a == b || parts_before(a, b, i) || parts_before(b, a, i),
    decreases a.len() - i,
{
    if i < a.len() && i < b.len() {
        if a[i] == b[i] {
            assert(a.take(i + 1) =~= a.take(i).push(a[i]));
            assert(b.take(i + 1) =~= b.take(i).push(b[i]));
            lemma_parts_total(a, b, i + 1);
        } else {
            assert(a[i].take(0) =~= b[i].take(0));
            lemma_before_total(a[i], b[i], 0);
        }
    } else if a.len() == b.len() {
        assert(a.take(i) =~= a);
        assert(b.take(i) =~= b);
    }
}

// ---------------------------------------------------------------------------------------------
// Paths as bytes

/// Bytes, spelled with one character for each. Slashes and dots are single bytes that stand in no
/// other character, so that the parts of a path can be read off its spelling.
pub open spec fn spelled(bytes: Seq<u8>) -> Seq<char> {
    bytes.map_values(|b: u8| b as char)
}

/// The bytes that a text spells.
pub open spec fn unspelled(s: Seq<char>) -> Seq<u8> {
    s.map_values(|c: char| c as u8)
}

/// What is left of a path below another, both given by their bytes.
pub open spec fn stripped_bytes(path: Seq<u8>, base: Seq<u8>) -> Option<Seq<u8>> {
    match stripped(spelled(path), spelled(base)) {
        Some(rest) => Some(unspelled(rest)),
        None => None,
    }
}

fn spell(bytes: &[u8]) -> (r: String)
    ensures
        r@ == spelled(bytes@),
{
    let mut out = String::new();
    let mut i: usize = 0;
    assert(out@ =~= spelled(bytes@).take(0));
    while i < bytes.len()
        invariant
            i <= bytes@.len(),
            out@ == spelled(bytes@).take(i as int),
        decreases bytes@.len() - i,
    {
        out.push(bytes[i] as char);
        assert(spelled(bytes@).take(i + 1) =~= spelled(bytes@).take(i as int).push(bytes@[i as int] as char));
        i = i + 1;
    }
    assert(spelled(bytes@).take(i as int) =~= spelled(bytes@));
    out
}

fn unspell(s: &str) -> (r: Vec<u8>)
    ensures
        r@ == unspelled(s@),
{
    let text = characters(s);
    let mut out: Vec<u8> = Vec::new();
    let mut i: usize = 0;
    while i < text.len()
        invariant
            text@ == s@,
            i <= text@.len(),
            out@ == unspelled(s@).take(i as int),
        decreases text@.len() - i,
    {
        out.push(text[i] as u8);
        assert(unspelled(s@).take(i + 1) =~= unspelled(s@).take(i as int).push(s@[i as int] as u8));
        i = i + 1;
    }
    assert(unspelled(s@).take(i as int) =~= unspelled(s@));
    out
}

/// What is left of a path below another, both given by their bytes.
pub fn strip_prefix_bytes(path: &[u8], base: &[u8]) -> (r: Option<Vec<u8>>)
    ensures
        match r {
            Some(rest) => stripped_bytes(path@, base@) == Some(rest@),
            None => stripped_bytes(path@, base@) is None,
        },
{
    match strip_prefix(spell(path).as_str(), spell(base).as_str()) {
        Some(rest) => Some(unspell(rest.as_str())),
        None => None,
    }
}

} // verus!
