//! Putting texts in order.
use vstd::prelude::*;
use vstd::relations::total_ordering;
use vstd::seq_lib::{group_to_multiset_ensures, lemma_sorted_unique};
use vstd::set_lib::{lemma_int_range, lemma_subset_equality, set_int_range};

use crate::text::{before, is_before, lemma_before_irreflexive, lemma_before_total, lemma_before_transitive, views};

verus! {

/// Whether the text at position `a` comes before the one at `b`, where of equal texts the one that
/// stands first comes first.
pub open spec fn precedes(keys: Seq<Seq<char>>, a: int, b: int) -> bool {
    before(keys[a], keys[b]) || (keys[a] == keys[b] && a < b)
}

/// Whether `order` lists the positions of texts in the order of the texts.
pub open spec fn is_order(keys: Seq<Seq<char>>, order: Seq<usize>) -> bool {
    &&& order.len() == keys.len()
    &&& forall|i: int| 0 <= i < order.len() ==> 0 <= #[trigger] order[i] < keys.len()
    &&& forall|i: int, j: int| 0 <= i < j < order.len() ==> precedes(keys, #[trigger] order[i] as int, #[trigger] order[j] as int)
}

proof fn lemma_precedes_transitive(keys: Seq<Seq<char>>, a: int, b: int, c: int)
    requires
        precedes(keys, a, b),
        precedes(keys, b, c),
    ensures
        precedes(keys, a, c),
{
    if before(keys[a], keys[b]) && before(keys[b], keys[c]) {
        lemma_before_transitive(keys[a], keys[b], keys[c], 0);
    }
}

/// The positions of texts in the order of the texts.
pub open spec fn ordered_positions(keys: Seq<Seq<char>>) -> Seq<usize> {
    choose|order: Seq<usize>| is_order(keys, order)
}

/// The positions of texts in the order of the texts.
pub fn order(keys: &Vec<String>) -> (r: Vec<usize>)
    ensures
        is_order(views(keys@), r@),
        r@ == ordered_positions(views(keys@)),
{
    let ghost all = views(keys@);
    let mut out: Vec<usize> = Vec::new();
    let mut i: usize = 0;
    assert(all.len() == keys@.len());
    while i < keys.len()
        invariant
            all == views(keys@),
            all.len() == keys@.len(),
            i <= keys@.len(),
            out@.len() == i,
            forall|k: int| 0 <= k < i ==> 0 <= #[trigger] out@[k] < i,
            forall|k: int, l: int| 0 <= k < l < i ==> precedes(all, #[trigger] out@[k] as int, #[trigger] out@[l] as int),
        decreases keys@.len() - i,
    {
        assert(all[i as int] == keys@[i as int]@);
        let mut low: usize = 0;
        let mut high: usize = out.len();
        while low < high
            invariant
                all == views(keys@),
                all.len() == keys@.len(),
                i < keys@.len(),
                all[i as int] == keys@[i as int]@,
                out@.len() == i,
                low <= high <= out@.len(),
                forall|k: int| 0 <= k < i ==> 0 <= #[trigger] out@[k] < i,
                forall|k: int, l: int| 0 <= k < l < i ==> precedes(all, #[trigger] out@[k] as int, #[trigger] out@[l] as int),
                forall|k: int| 0 <= k < low ==> precedes(all, #[trigger] out@[k] as int, i as int),
                forall|k: int| high <= k < i ==> precedes(all, i as int, #[trigger] out@[k] as int),
            decreases high - low,
        {
            let middle: usize = low + (high - low) / 2;
            let other: usize = out[middle];
            assert(0 <= out@[middle as int] < i);
            assert(all[other as int] == keys@[other as int]@);
            if is_before(keys[i].as_str(), keys[other].as_str()) {
                assert forall|k: int| middle <= k < i implies precedes(all, i as int, #[trigger] out@[k] as int) by {
                    if k > middle {
                        lemma_precedes_transitive(all, i as int, out@[middle as int] as int, out@[k] as int);
                    }
                }
                high = middle;
            } else {
                proof {
                    assert(all[i as int].take(0) =~= all[other as int].take(0));
                    lemma_before_total(all[i as int], all[other as int], 0);
                }
                assert(precedes(all, other as int, i as int));
                assert forall|k: int| 0 <= k < middle + 1 implies precedes(all, #[trigger] out@[k] as int, i as int) by {
                    if k < middle {
                        lemma_precedes_transitive(all, out@[k] as int, out@[middle as int] as int, i as int);
                    }
                }
                low = middle + 1;
            }
        }
        let ghost prior = out@;
        out.insert(low, i);
        assert(out@ == prior.insert(low as int, i));
        assert forall|k: int, l: int| 0 <= k < l < i + 1 implies precedes(all, #[trigger] out@[k] as int, #[trigger] out@[l] as int) by {
            let a = if k < low { k } else { k - 1 };
            let b = if l < low { l } else { l - 1 };
            if k == low {
                assert(out@[l] == prior[b]);
            } else if l == low {
                assert(out@[k] == prior[a]);
            } else {
                assert(out@[k] == prior[a] && out@[l] == prior[b]);
            }
        }
        assert forall|k: int| 0 <= k < i + 1 implies 0 <= #[trigger] out@[k] < i + 1 by {
            let a = if k < low { k } else { k - 1 };
            if k != low {
                assert(out@[k] == prior[a]);
            }
        }
        i = i + 1;
    }
    proof {
        lemma_one_order(all, out@, ordered_positions(all), 0);
    }
    out
}

/// Texts in order.
pub open spec fn sorted(list: Seq<Seq<char>>) -> Seq<Seq<char>> {
    Seq::new(list.len(), |i: int| list[ordered_positions(list)[i] as int])
}

/// Puts texts in order.
pub fn sort(list: &Vec<String>) -> (r: Vec<String>)
    ensures
        views(r@) == sorted(views(list@)),
{
    let places = order(list);
    let mut out: Vec<String> = Vec::new();
    let mut i: usize = 0;
    while i < places.len()
        invariant
            is_order(views(list@), places@),
            places@ == ordered_positions(views(list@)),
            i <= places@.len(),
            out@.len() == i,
            forall|k: int| 0 <= k < i ==> (#[trigger] out@[k])@ == views(list@)[places@[k] as int],
        decreases places@.len() - i,
    {
        assert(0 <= places@[i as int] < views(list@).len());
        out.push(list[places[i]].clone());
        i = i + 1;
    }
    assert(views(out@) =~= sorted(views(list@)));
    out
}

/// There is only one order: two lists of positions that are in order are the same.
pub proof fn lemma_one_order(keys: Seq<Seq<char>>, a: Seq<usize>, b: Seq<usize>, i: int)
    requires
        is_order(keys, a),
        is_order(keys, b),
        0 <= i <= a.len(),
        forall|k: int| 0 <= k < i ==> a[k] == b[k],
    ensures
        a == b,
    decreases a.len() - i,
{
    if i < a.len() {
        lemma_position(keys, a, b[i] as int);
        lemma_position(keys, b, a[i] as int);
        let m = choose|m: int| 0 <= m < a.len() && a[m] == b[i];
        let n = choose|n: int| 0 <= n < b.len() && b[n] == a[i];
        if m < i {
            assert(b[m] == a[m]);
            lemma_irreflexive(keys, b[i] as int);
            assert(precedes(keys, b[m] as int, b[i] as int));
        }
        if n < i {
            assert(a[n] == b[n]);
            lemma_irreflexive(keys, a[i] as int);
            assert(precedes(keys, a[n] as int, a[i] as int));
        }
        if m > i && n > i {
            assert(precedes(keys, a[i] as int, a[m] as int));
            assert(precedes(keys, b[i] as int, b[n] as int));
            lemma_precedes_transitive(keys, a[i] as int, b[i] as int, a[i] as int);
            lemma_irreflexive(keys, a[i] as int);
        }
        assert(a[i] == b[i]);
        lemma_one_order(keys, a, b, i + 1);
    } else {
        assert(a =~= b);
    }
}

proof fn lemma_irreflexive(keys: Seq<Seq<char>>, a: int)
    ensures
        !precedes(keys, a, a),
{
    lemma_before_irreflexive(keys[a], 0);
}

/// Every position stands somewhere in an order.
pub proof fn lemma_position(keys: Seq<Seq<char>>, order: Seq<usize>, p: int)
    requires
        is_order(keys, order),
        0 <= p < keys.len(),
    ensures
        exists|m: int| 0 <= m < order.len() && order[m] == p,
{
    let s = order.map_values(|x: usize| x as int);
    assert forall|i: int, j: int| 0 <= i < s.len() && 0 <= j < s.len() && i != j implies s[i] != s[j] by {
        lemma_irreflexive(keys, s[i]);
        if i < j {
            assert(precedes(keys, order[i] as int, order[j] as int));
        } else {
            assert(precedes(keys, order[j] as int, order[i] as int));
        }
    }
    assert(s.no_duplicates());
    let range = set_int_range(0, keys.len() as int);
    lemma_int_range(0, keys.len() as int);
    s.unique_seq_to_set();
    assert(s.to_set().subset_of(range)) by {
        assert forall|x: int| s.to_set().contains(x) implies range.contains(x) by {
            let i = choose|i: int| 0 <= i < s.len() && s[i] == x;
            assert(0 <= order[i] < keys.len());
        }
    }
    lemma_subset_equality(s.to_set(), range);
    assert(range.contains(p));
    assert(s.to_set().contains(p));
    let m = choose|m: int| 0 <= m < s.len() && s[m] == p;
    assert(order[m] == p);
}

/// Whether a text comes before another or is the same.
pub open spec fn not_after(a: Seq<char>, b: Seq<char>) -> bool {
    a == b || before(a, b)
}

/// Elements taken by positions that are all different, as many as there are, are the same elements.
/// Rearranging a list keeps what it holds.
pub proof fn lemma_rearranged<A>(list: Seq<A>, places: Seq<int>)
    requires
        places.len() == list.len(),
        places.no_duplicates(),
        forall|i: int| 0 <= i < places.len() ==> 0 <= #[trigger] places[i] < list.len(),
    ensures
        Seq::new(list.len(), |i: int| list[places[i]]).to_multiset() == list.to_multiset(),
    decreases list.len(),
{
    broadcast use group_to_multiset_ensures;

    let taken = Seq::new(list.len(), |i: int| list[places[i]]);
    if list.len() == 0 {
        assert(taken =~= list);
    } else {
        let n = list.len() - 1;
        let p = places[n];
        let fewer = list.remove(p);
        let moved = Seq::new(n as nat, |i: int| if places[i] < p { places[i] } else { places[i] - 1 });
        assert forall|i: int| 0 <= i < moved.len() implies 0 <= #[trigger] moved[i] < fewer.len() by {
            assert(0 <= places[i] < list.len());
            assert(places[i] != places[n]);
        }
        assert(moved.no_duplicates()) by {
            assert forall|i: int, j: int| 0 <= i < moved.len() && 0 <= j < moved.len() && i != j implies moved[i] != moved[j] by {
                assert(places[i] != places[j]);
                assert(places[i] != places[n]);
                assert(places[j] != places[n]);
            }
        }
        lemma_rearranged(fewer, moved);
        let short = Seq::new(fewer.len(), |i: int| fewer[moved[i]]);
        assert(taken =~= short.push(list[p])) by {
            assert forall|i: int| 0 <= i < n implies taken[i] == short[i] by {
                assert(places[i] != places[n]);
                assert(0 <= places[i] < list.len());
            }
        }
        assert(taken.to_multiset() =~= list.to_multiset()) by {
            assert(list.to_multiset().count(list[p]) > 0) by {
                assert(list.contains(list[p]));
            }
            assert(fewer.to_multiset() == list.to_multiset().remove(list[p]));
        }
    }
}

/// Sorting keeps the texts and puts them in ascending order.
pub proof fn lemma_sorted(list: Seq<Seq<char>>)
    requires
        is_order(list, ordered_positions(list)),
    ensures
        sorted(list).to_multiset() == list.to_multiset(),
        forall|i: int, j: int| 0 <= i < j < list.len() ==> not_after(#[trigger] sorted(list)[i], #[trigger] sorted(list)[j]),
{
    let order = ordered_positions(list);
    let places = order.map_values(|x: usize| x as int);
    assert(places.no_duplicates()) by {
        assert forall|i: int, j: int| 0 <= i < places.len() && 0 <= j < places.len() && i != j implies places[i] != places[j] by {
            lemma_irreflexive(list, places[i]);
            if i < j {
                assert(precedes(list, order[i] as int, order[j] as int));
            } else {
                assert(precedes(list, order[j] as int, order[i] as int));
            }
        }
    }
    assert forall|i: int| 0 <= i < places.len() implies 0 <= #[trigger] places[i] < list.len() by {
        assert(0 <= order[i] < list.len());
    }
    lemma_rearranged(list, places);
    assert(sorted(list) =~= Seq::new(list.len(), |i: int| list[places[i]]));
    assert forall|i: int, j: int| 0 <= i < j < list.len() implies not_after(#[trigger] sorted(list)[i], #[trigger] sorted(list)[j]) by {
        assert(precedes(list, order[i] as int, order[j] as int));
    }
}

/// There is an order of every list that fits in memory.
pub proof fn lemma_order_exists(keys: Seq<Seq<char>>)
    requires
        keys.len() <= usize::MAX,
    ensures
        is_order(keys, ordered_positions(keys)),
    decreases keys.len(),
{
    let order = lemma_make_order(keys);
    assert(is_order(keys, order));
}

proof fn lemma_make_order(keys: Seq<Seq<char>>) -> (order: Seq<usize>)
    requires
        keys.len() <= usize::MAX,
    ensures
        is_order(keys, order),
    decreases keys.len(),
{
    if keys.len() == 0 {
        Seq::empty()
    } else {
        let n = keys.len() - 1;
        let init = keys.drop_last();
        let fewer = lemma_make_order(init);
        let s = lemma_place(keys, fewer, n, 0);
        let order = fewer.insert(s, n as usize);
        assert forall|i: int, j: int| 0 <= i < j < order.len() implies precedes(keys, #[trigger] order[i] as int, #[trigger] order[j] as int) by {
            let a = if i < s { i } else { i - 1 };
            let b = if j < s { j } else { j - 1 };
            if i == s {
                assert(order[j] == fewer[b]);
            } else if j == s {
                assert(order[i] == fewer[a]);
            } else {
                assert(order[i] == fewer[a] && order[j] == fewer[b]);
                assert(precedes(init, fewer[a] as int, fewer[b] as int));
            }
        }
        assert forall|i: int| 0 <= i < order.len() implies 0 <= #[trigger] order[i] < keys.len() by {
            let a = if i < s { i } else { i - 1 };
            if i != s {
                assert(order[i] == fewer[a]);
            }
        }
        order
    }
}

/// Where the last text stands among the others, which are in order.
proof fn lemma_place(keys: Seq<Seq<char>>, fewer: Seq<usize>, n: int, i: int) -> (s: int)
    requires
        0 <= n == keys.len() - 1,
        is_order(keys.drop_last(), fewer),
        0 <= i <= fewer.len(),
        forall|k: int| 0 <= k < i ==> precedes(keys, #[trigger] fewer[k] as int, n),
    ensures
        0 <= s <= fewer.len(),
        forall|k: int| 0 <= k < s ==> precedes(keys, #[trigger] fewer[k] as int, n),
        forall|k: int| s <= k < fewer.len() ==> precedes(keys, n, #[trigger] fewer[k] as int),
    decreases fewer.len() - i,
{
    let init = keys.drop_last();
    if i == fewer.len() {
        i
    } else {
        let f = fewer[i] as int;
        assert(0 <= fewer[i] < init.len());
        assert(0 <= f < n);
        assert(init[f] == keys[f]);
        assert(keys[n].take(0) =~= keys[f].take(0));
        lemma_before_total(keys[n], keys[f], 0);
        if before(keys[n], keys[f]) {
            assert forall|k: int| i <= k < fewer.len() implies precedes(keys, n, #[trigger] fewer[k] as int) by {
                if k > i {
                    assert(precedes(init, fewer[i] as int, fewer[k] as int));
                    assert(0 <= fewer[k] < init.len());
                    assert(init[fewer[k] as int] == keys[fewer[k] as int]);
                    lemma_precedes_transitive(keys, n, f, fewer[k] as int);
                }
            }
            i
        } else {
            assert(precedes(keys, f, n));
            lemma_place(keys, fewer, n, i + 1)
        }
    }
}

/// Sorting goes by the texts alone: lists of the same texts, in whatever order, are sorted alike.
pub proof fn lemma_sorted_alike(a: Seq<Seq<char>>, b: Seq<Seq<char>>)
    requires
        a.to_multiset() == b.to_multiset(),
        a.len() <= usize::MAX,
    ensures
        sorted(a) == sorted(b),
{
    broadcast use group_to_multiset_ensures;

    assert(a.len() == a.to_multiset().len() && b.len() == b.to_multiset().len());
    lemma_order_exists(a);
    lemma_order_exists(b);
    lemma_sorted(a);
    lemma_sorted(b);
    let leq = |x: Seq<char>, y: Seq<char>| not_after(x, y);
    assert(total_ordering(leq)) by {
        assert forall|x: Seq<char>, y: Seq<char>| #[trigger] leq(x, y) && #[trigger] leq(y, x) implies x == y by {
            if x != y {
                lemma_before_transitive(x, y, x, 0);
                lemma_before_irreflexive(x, 0);
            }
        }
        assert forall|x: Seq<char>, y: Seq<char>, z: Seq<char>| #[trigger] leq(x, y) && #[trigger] leq(y, z) implies leq(x, z) by {
            if x != y && y != z {
                lemma_before_transitive(x, y, z, 0);
            }
        }
        assert forall|x: Seq<char>, y: Seq<char>| #[trigger] leq(x, y) || #[trigger] leq(y, x) by {
            assert(x.take(0) =~= y.take(0));
            lemma_before_total(x, y, 0);
        }
    }
    lemma_sorted_unique(sorted(a), sorted(b), leq);
}

/// Elements in another order give the same results in another order.
pub proof fn lemma_mapped_alike<A, B>(a: Seq<A>, b: Seq<A>, f: spec_fn(A) -> B)
    requires
        a.to_multiset() == b.to_multiset(),
    ensures
        a.map_values(f).to_multiset() == b.map_values(f).to_multiset(),
    decreases a.len(),
{
    broadcast use group_to_multiset_ensures;

    assert(a.len() == a.to_multiset().len() && b.len() == b.to_multiset().len());
    if a.len() == 0 {
        assert(a =~= b);
    } else {
        let n = a.len() - 1;
        let x = a[n];
        assert(a.contains(x));
        assert(b.to_multiset().count(x) > 0);
        let j = choose|j: int| 0 <= j < b.len() && b[j] == x;
        let fewer = a.remove(n);
        let others = b.remove(j);
        lemma_mapped_alike(fewer, others, f);
        assert(a.map_values(f).remove(n) =~= fewer.map_values(f));
        assert(b.map_values(f).remove(j) =~= others.map_values(f));
        let left = a.map_values(f).to_multiset();
        let right = b.map_values(f).to_multiset();
        assert(left.remove(f(x)) == right.remove(f(x)));
        assert(a.map_values(f).contains(f(x))) by {
            assert(a.map_values(f)[n] == f(x));
        }
        assert(b.map_values(f).contains(f(x))) by {
            assert(b.map_values(f)[j] == f(x));
        }
        assert(left.count(f(x)) > 0 && right.count(f(x)) > 0);
        assert(left =~= left.remove(f(x)).insert(f(x)));
        assert(right =~= right.remove(f(x)).insert(f(x)));
    }
}

} // verus!
