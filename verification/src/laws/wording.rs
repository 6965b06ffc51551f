//! What is done to texts: trimming, replacing, joining, numbers, and lists of sources.
use vstd::prelude::*;

use crate::globs::{glob_build, glob_parse, parse_refusal, refusal};
use crate::manifest::{gathered, line_source};
use crate::order::{lemma_order_exists, lemma_sorted, sorted};
use crate::text::{
    before, before_from, blank, decimal, end_trimmed, folded, joined_lines, lowered, mapped, replaced, replaced_from, same_ascii,
    signed_decimal, space_end, space_start, stands_at, trimmed, whitespace,
};

verus! {

// ---------------------------------------------------------------------------------------------
// White space

/// The characters that are white space.
pub proof fn lemma_white_space(c: char)
    ensures
        ({
            let code = c as int;
            whitespace(c) <==> 9 <= code <= 13 || code == 32 || code == 133 || code == 160 || code == 5760 || 8192 <= code <= 8202 || code == 8232
                || code == 8233 || code == 8239 || code == 8287 || code == 12288
        }),
{
}

proof fn lemma_space_start(s: Seq<char>, j: int)
    requires
        0 <= j <= s.len(),
    ensures
        0 <= space_start(s, j) <= j,
        forall|k: int| space_start(s, j) <= k < j ==> whitespace(#[trigger] s[k]),
        space_start(s, j) > 0 ==> !whitespace(s[space_start(s, j) - 1]),
    decreases j,
{
    if 0 < j && whitespace(s[j - 1]) {
        lemma_space_start(s, j - 1);
    }
}

proof fn lemma_space_end(s: Seq<char>, i: int)
    requires
        0 <= i <= s.len(),
    ensures
        i <= space_end(s, i) <= s.len(),
        forall|k: int| i <= k < space_end(s, i) ==> whitespace(#[trigger] s[k]),
        space_end(s, i) < s.len() ==> !whitespace(s[space_end(s, i)]),
    decreases s.len() - i,
{
    if i < s.len() && whitespace(s[i]) {
        lemma_space_end(s, i + 1);
    }
}

/// Trimming the end of a text takes off white space, and all of it.
pub proof fn lemma_trimming_the_end(s: Seq<char>)
    ensures
        end_trimmed(s).len() <= s.len(),
        s == end_trimmed(s) + s.skip(end_trimmed(s).len() as int),
        blank(s.skip(end_trimmed(s).len() as int)),
        end_trimmed(s).len() > 0 ==> !whitespace(end_trimmed(s).last()),
{
    lemma_space_start(s, s.len() as int);
    let n = space_start(s, s.len() as int);
    assert(s =~= s.take(n) + s.skip(n));
    assert forall|i: int| 0 <= i < s.skip(n).len() implies whitespace(#[trigger] s.skip(n)[i]) by {
        assert(s.skip(n)[i] == s[n + i]);
    }
}

/// Trimming a text takes white space off both ends, and all of it: a text with white space around it
/// becomes that text.
pub proof fn lemma_trimming(before: Seq<char>, core: Seq<char>, after: Seq<char>)
    requires
        blank(before),
        blank(after),
        core.len() == 0 || (!whitespace(core[0]) && !whitespace(core.last())),
    ensures
        trimmed(before + core + after) == core,
        core.len() > 0 ==> end_trimmed(before + core + after) == before + core,
        core.len() == 0 ==> end_trimmed(before + core + after) == core,
{
    let s = before + core + after;
    lemma_space_start(s, s.len() as int);
    let n = space_start(s, s.len() as int);
    let end = end_trimmed(s);
    if core.len() > 0 {
        let at = before.len() + core.len();
        assert(n == at) by {
            if n < at {
                assert(whitespace(s[at - 1]));
                assert(s[at - 1] == core.last());
            }
            if n > at {
                assert(s[n - 1] == after[n - 1 - at]);
            }
        }
        assert(end =~= before + core);
        lemma_space_end(end, 0);
        let m = space_end(end, 0);
        assert(m == before.len()) by {
            if m > before.len() {
                assert(whitespace(end[before.len() as int]));
                assert(end[before.len() as int] == core[0]);
            }
            if m < before.len() {
                assert(end[m] == before[m]);
            }
        }
        assert(trimmed(s) =~= core);
    } else {
        assert(n == 0) by {
            if n > 0 {
                if n - 1 < before.len() {
                    assert(s[n - 1] == before[n - 1]);
                } else {
                    assert(s[n - 1] == after[n - 1 - before.len()]);
                }
            }
        }
        assert(end =~= core);
        lemma_space_end(end, 0);
        assert(trimmed(s) =~= core);
    }
}

/// Every text is what trimming it gives, with white space around it.
pub proof fn lemma_what_is_trimmed(s: Seq<char>) -> (around: (Seq<char>, Seq<char>))
    ensures
        s == around.0 + trimmed(s) + around.1,
        blank(around.0),
        blank(around.1),
        trimmed(s).len() > 0 ==> !whitespace(trimmed(s)[0]) && !whitespace(trimmed(s).last()),
{
    lemma_trimming_the_end(s);
    let end = end_trimmed(s);
    lemma_space_end(end, 0);
    let m = space_end(end, 0);
    assert(s =~= end.take(m) + end.skip(m) + s.skip(end.len() as int));
    if trimmed(s).len() > 0 {
        assert(trimmed(s)[0] == end[m]);
        assert(trimmed(s).last() == end.last());
    }
    (end.take(m), s.skip(end.len() as int))
}

// ---------------------------------------------------------------------------------------------
// Capitals and order

/// Texts are the same without regard to ASCII capitals exactly where at each place stands the same
/// character, or a capital and its small letter.
pub proof fn lemma_ascii_capitals(a: Seq<char>, b: Seq<char>)
    ensures
        same_ascii(a, b) <==> a.len() == b.len() && forall|i: int|
            0 <= i < a.len() ==> #[trigger] a[i] == b[i] || ('A' <= a[i] <= 'Z' && b[i] as int == a[i] as int + 32) || ('A' <= b[i] <= 'Z' && a[i] as int
                == b[i] as int + 32),
{
    assert forall|c: char, d: char| folded(c) == folded(d) <==> c == d || ('A' <= c <= 'Z' && d as int == c as int + 32) || ('A' <= d <= 'Z'
        && c as int == d as int + 32) by {}
}

/// A letter `A` to `Z` becomes the small one, and nothing else changes.
pub proof fn lemma_small_letters(c: char)
    ensures
        'A' <= c <= 'Z' ==> lowered(c) as int == c as int + 32,
        !('A' <= c <= 'Z') ==> lowered(c) == c,
{
}

proof fn lemma_before_behind(p: Seq<char>, a: Seq<char>, b: Seq<char>, i: int)
    requires
        0 <= i <= p.len(),
    ensures
        before_from(p + a, p + b, i) == before_from(p + a, p + b, p.len() as int),
    decreases p.len() - i,
{
    if i < p.len() {
        assert((p + a)[i] == (p + b)[i]);
        lemma_before_behind(p, a, b, i + 1);
    }
}

/// Texts stand in the order of their characters where they first differ, and behind what they begin
/// with.
pub proof fn lemma_the_first_difference_decides(p: Seq<char>, a: Seq<char>, b: Seq<char>)
    requires
        a.len() > 0 || b.len() > 0,
        a.len() > 0 && b.len() > 0 ==> a[0] != b[0],
    ensures
        before(p + a, p + b) <==> b.len() > 0 && (a.len() == 0 || a[0] < b[0]),
{
    lemma_before_behind(p, a, b, 0);
    if a.len() > 0 {
        assert((p + a)[p.len() as int] == a[0]);
    }
    if b.len() > 0 {
        assert((p + b)[p.len() as int] == b[0]);
    }
}

/// Putting texts in order keeps all of them, and puts each before those that it stands before.
pub proof fn lemma_texts_are_put_in_order(list: Seq<Seq<char>>)
    requires
        list.len() <= usize::MAX,
    ensures
        sorted(list).to_multiset() == list.to_multiset(),
        sorted(list).len() == list.len(),
        forall|i: int, j: int|
            0 <= i < j < list.len() ==> before(#[trigger] sorted(list)[i], #[trigger] sorted(list)[j]) || sorted(list)[i] == sorted(list)[j],
{
    lemma_order_exists(list);
    lemma_sorted(list);
}

// ---------------------------------------------------------------------------------------------
// Numbers

/// The number that decimal digits stand for.
pub open spec fn value(s: Seq<char>) -> int
    decreases s.len(),
{
    if s.len() == 0 {
        0
    } else {
        10 * value(s.drop_last()) + (s.last() as int - '0' as int)
    }
}

/// A number is written in decimal digits that stand for it, without needless zeros.
pub proof fn lemma_numbers_are_decimal(n: nat)
    ensures
        value(decimal(n)) == n,
        decimal(n).len() > 0,
        forall|i: int| 0 <= i < decimal(n).len() ==> '0' <= #[trigger] decimal(n)[i] <= '9',
        decimal(n).len() > 1 ==> decimal(n)[0] != '0',
        n > 0 ==> decimal(n)[0] != '0',
    decreases n,
{
    assert('0' as int == 48);
    if n < 10 {
        let s = decimal(n);
        assert(s.drop_last() =~= Seq::empty());
        assert(value(s.drop_last()) == 0);
        assert(s.last() as int == 48 + n);
    } else {
        lemma_numbers_are_decimal(n / 10);
        let s = decimal(n);
        assert(s.drop_last() =~= decimal(n / 10));
        assert(s.last() as int == 48 + n % 10);
        assert(s[0] == decimal(n / 10)[0]);
        assert forall|i: int| 0 <= i < s.len() implies '0' <= #[trigger] s[i] <= '9' by {
            if i < decimal(n / 10).len() {
                assert(s[i] == decimal(n / 10)[i]);
            }
        }
    }
}

/// Only negative numbers have a sign.
pub proof fn lemma_negative_numbers_have_a_sign(n: int)
    ensures
        n >= 0 ==> signed_decimal(n) == decimal(n as nat),
        n < 0 ==> signed_decimal(n) == "-"@ + decimal((-n) as nat),
{
    reveal_strlit("-");
    assert("-"@ =~= seq!['-']);
}

// ---------------------------------------------------------------------------------------------
// Joining and replacing

/// Texts joined in two lots are the two results with the separator between.
pub proof fn lemma_joining(a: Seq<Seq<char>>, b: Seq<Seq<char>>, one: Seq<char>, separator: Seq<char>)
    ensures
        joined_lines(Seq::empty(), separator) == Seq::<char>::empty(),
        joined_lines(seq![one], separator) == one,
        a.len() > 0 && b.len() > 0 ==> joined_lines(a + b, separator) == joined_lines(a, separator) + separator + joined_lines(b, separator),
    decreases b.len(),
{
    if a.len() > 0 && b.len() > 0 {
        assert((a + b).drop_last() =~= a + b.drop_last());
        assert((a + b).last() == b.last());
        if b.len() == 1 {
            assert(b.drop_last() =~= Seq::empty());
            assert(a + b.drop_last() =~= a);
        } else {
            lemma_joining(a, b.drop_last(), one, separator);
            assert(joined_lines(a, separator) + separator + (joined_lines(b.drop_last(), separator) + separator + b.last()) =~= joined_lines(
                a,
                separator,
            ) + separator + joined_lines(b.drop_last(), separator) + separator + b.last());
        }
    }
}

/// Characters are replaced one by one, in their order.
pub proof fn lemma_mapping_characters(a: Seq<char>, b: Seq<char>, c: char, f: spec_fn(char) -> Seq<char>)
    ensures
        mapped(Seq::empty(), f) == Seq::<char>::empty(),
        mapped(seq![c], f) == f(c),
        mapped(a + b, f) == mapped(a, f) + mapped(b, f),
    decreases b.len(),
{
    assert(seq![c].drop_last() =~= Seq::empty());
    assert(mapped(seq![c].drop_last(), f) =~= Seq::empty());
    assert(mapped(seq![c], f) =~= f(c));
    if b.len() == 0 {
        assert(a + b =~= a);
        assert(mapped(a, f) + mapped(b, f) =~= mapped(a, f));
    } else {
        assert((a + b).drop_last() =~= a + b.drop_last());
        lemma_mapping_characters(a, b.drop_last(), c, f);
        assert(mapped(a + b, f) =~= mapped(a, f) + mapped(b, f));
    }
}

proof fn lemma_replaced_from(s: Seq<char>, pattern: Seq<char>, with: Seq<char>, i: int)
    requires
        0 <= i <= s.len(),
        pattern.len() > 0,
    ensures
        replaced_from(s, pattern, with, i) == replaced(s.skip(i), pattern, with),
{
    assert(s.skip(i).skip(0) =~= s.skip(i));
    lemma_replaced_shift(s, s.skip(i), pattern, with, i, 0);
}

proof fn lemma_replaced_shift(s: Seq<char>, t: Seq<char>, pattern: Seq<char>, with: Seq<char>, i: int, j: int)
    requires
        0 <= j <= t.len(),
        0 <= i <= s.len(),
        s.skip(i) == t.skip(j),
        pattern.len() > 0,
    ensures
        replaced_from(s, pattern, with, i) == replaced_from(t, pattern, with, j),
    decreases s.len() - i,
{
    assert(s.skip(i).len() == s.len() - i && t.skip(j).len() == t.len() - j);
    if i < s.len() {
        assert(j < t.len());
        assert(s.skip(i)[0] == s[i]);
        assert(t.skip(j)[0] == t[j]);
        assert(stands_at(s, pattern, i) == stands_at(t, pattern, j)) by {
            if i + pattern.len() <= s.len() {
                assert(s.subrange(i, i + pattern.len()) =~= s.skip(i).take(pattern.len() as int));
                assert(t.subrange(j, j + pattern.len()) =~= t.skip(j).take(pattern.len() as int));
            }
        }
        if stands_at(s, pattern, i) {
            assert(s.skip(i + pattern.len()) =~= s.skip(i).skip(pattern.len() as int));
            assert(t.skip(j + pattern.len()) =~= t.skip(j).skip(pattern.len() as int));
            lemma_replaced_shift(s, t, pattern, with, i + pattern.len(), j + pattern.len());
        } else {
            assert(s.skip(i + 1) =~= s.skip(i).skip(1));
            assert(t.skip(j + 1) =~= t.skip(j).skip(1));
            lemma_replaced_shift(s, t, pattern, with, i + 1, j + 1);
        }
    }
}

/// Whether a text stands somewhere in another.
pub open spec fn occurs(s: Seq<char>, pattern: Seq<char>, below: int) -> bool {
    exists|i: int| 0 <= i < below && i + pattern.len() <= s.len() && #[trigger] s.subrange(i, i + pattern.len()) == pattern
}

proof fn lemma_replaced_ahead(s: Seq<char>, pattern: Seq<char>, with: Seq<char>, i: int, at: int)
    requires
        0 <= i <= at <= s.len(),
        pattern.len() > 0,
        !occurs(s, pattern, at),
    ensures
        replaced_from(s, pattern, with, i) == s.subrange(i, at) + replaced_from(s, pattern, with, at),
    decreases at - i,
{
    if i < at {
        if stands_at(s, pattern, i) {
            assert(s.subrange(i, i + pattern.len()) == pattern);
            assert(occurs(s, pattern, at));
        }
        lemma_replaced_ahead(s, pattern, with, i + 1, at);
        assert(seq![s[i]] + (s.subrange(i + 1, at) + replaced_from(s, pattern, with, at)) =~= s.subrange(i, at) + replaced_from(s, pattern, with, at));
    } else {
        assert(s.subrange(i, at) =~= Seq::empty());
        assert(Seq::<char>::empty() + replaced_from(s, pattern, with, at) =~= replaced_from(s, pattern, with, at));
    }
}

/// A text in which a pattern does not occur stays as it is. Where it does, its first occurrence gives
/// way to the other text, what stands before it stays, and the rest is treated in the same way.
pub proof fn lemma_replacing(ahead: Seq<char>, pattern: Seq<char>, behind: Seq<char>, with: Seq<char>)
    requires
        pattern.len() > 0,
    ensures
        !occurs(ahead, pattern, ahead.len() as int) ==> replaced(ahead, pattern, with) == ahead,
        !occurs(ahead + pattern + behind, pattern, ahead.len() as int) ==> replaced(ahead + pattern + behind, pattern, with) == ahead + with + replaced(
            behind,
            pattern,
            with,
        ),
{
    if !occurs(ahead, pattern, ahead.len() as int) {
        lemma_replaced_ahead(ahead, pattern, with, 0, ahead.len() as int);
        assert(replaced_from(ahead, pattern, with, ahead.len() as int) =~= Seq::empty());
        assert(replaced(ahead, pattern, with) =~= ahead);
    }
    let s = ahead + pattern + behind;
    let n = ahead.len() as int;
    if !occurs(s, pattern, n) {
        lemma_replaced_ahead(s, pattern, with, 0, n);
        assert(s.subrange(n, n + pattern.len()) =~= pattern);
        assert(stands_at(s, pattern, n));
        lemma_replaced_from(s, pattern, with, n + pattern.len());
        assert(s.skip(n + pattern.len()) =~= behind);
        assert(replaced(s, pattern, with) =~= ahead + with + replaced(behind, pattern, with));
    }
}

// ---------------------------------------------------------------------------------------------
// Patterns and lists of sources

/// Patterns are accepted exactly where each of them parses and they can be compiled together; without
/// patterns there is nothing to refuse. Of those that do not parse, the first is the reason.
pub proof fn lemma_which_patterns_are_accepted(patterns: Seq<Seq<char>>, k: int)
    ensures
        refusal(patterns) is None <==> patterns.len() == 0 || ((forall|i: int| 0 <= i < patterns.len() ==> glob_parse(#[trigger] patterns[i]) is Ok)
            && glob_build(patterns) is Ok),
        0 <= k < patterns.len() && glob_parse(patterns[k]) is Err && (forall|i: int| 0 <= i < k ==> glob_parse(#[trigger] patterns[i]) is Ok)
            ==> refusal(patterns) == Some(glob_parse(patterns[k])->Err_0),
{
    lemma_all_parse(patterns, 0);
    if 0 <= k < patterns.len() && glob_parse(patterns[k]) is Err && (forall|i: int| 0 <= i < k ==> glob_parse(#[trigger] patterns[i]) is Ok) {
        lemma_first_to_fail(patterns, 0, k);
    }
}

proof fn lemma_all_parse(patterns: Seq<Seq<char>>, i: int)
    requires
        0 <= i,
    ensures
        parse_refusal(patterns, i) is None <==> forall|k: int| i <= k < patterns.len() ==> glob_parse(#[trigger] patterns[k]) is Ok,
    decreases patterns.len() - i,
{
    if i < patterns.len() {
        lemma_all_parse(patterns, i + 1);
    }
}

proof fn lemma_first_to_fail(patterns: Seq<Seq<char>>, i: int, k: int)
    requires
        0 <= i <= k < patterns.len(),
        glob_parse(patterns[k]) is Err,
        forall|j: int| 0 <= j < k ==> glob_parse(#[trigger] patterns[j]) is Ok,
    ensures
        parse_refusal(patterns, i) == Some(glob_parse(patterns[k])->Err_0),
    decreases k - i,
{
    if i < k {
        assert(glob_parse(patterns[i]) is Ok);
        lemma_first_to_fail(patterns, i + 1, k);
    }
}

/// A line of a list is a source exactly where it is one word, which is not empty and holds no NUL
/// character; without a word it stands for nothing, and any other line is refused.
pub proof fn lemma_one_source_per_line(words: Seq<Seq<char>>, word: Seq<char>)
    ensures
        line_source(None) is Err,
        line_source(Some(Seq::empty())) == Ok::<Option<Seq<char>>, Seq<char>>(None),
        words.len() > 1 ==> line_source(Some(words)) is Err,
        word.len() > 0 && (forall|i: int| 0 <= i < word.len() ==> #[trigger] word[i] != '\0') ==> line_source(Some(seq![word])) == Ok::<
            Option<Seq<char>>,
            Seq<char>,
        >(Some(word)),
        word.len() == 0 || (exists|i: int| 0 <= i < word.len() && #[trigger] word[i] == '\0') ==> line_source(Some(seq![word])) is Err,
{
}

/// A list that gets one more line gives the same sources as before and that of the line behind them. A
/// line that fails is named by the list and its number, and a list that has failed stays so.
pub proof fn lemma_lists_are_read_line_by_line(
    list: Seq<char>,
    lines: Seq<Result<Option<Seq<char>>, Seq<char>>>,
    resolved: Seq<Result<Seq<char>, Seq<char>>>,
    line: Result<Option<Seq<char>>, Seq<char>>,
    place: Result<Seq<char>, Seq<char>>,
)
    requires
        resolved.len() == lines.len(),
    ensures
        ({
            let sofar = gathered(list, lines, resolved, 0);
            let more = gathered(list, lines.push(line), resolved.push(place), 0);
            let told = list + ":"@ + decimal((lines.len() + 1) as nat) + ": "@;
            &&& lines.len() == 0 ==> sofar == Ok::<Seq<Seq<char>>, Seq<char>>(Seq::empty())
            &&& sofar is Err ==> more == sofar
            &&& sofar is Ok ==> match line {
                Err(text) => more == Err::<Seq<Seq<char>>, Seq<char>>(told + text),
                Ok(None) => more == sofar,
                Ok(Some(_)) => match place {
                    Err(text) => more == Err::<Seq<Seq<char>>, Seq<char>>(told + text),
                    Ok(place) => more == Ok::<Seq<Seq<char>>, Seq<char>>(sofar->Ok_0.push(place)),
                },
            }
        }),
{
    lemma_one_line_more(list, lines, resolved, line, place, 0);
}

proof fn lemma_one_line_more(
    list: Seq<char>,
    lines: Seq<Result<Option<Seq<char>>, Seq<char>>>,
    resolved: Seq<Result<Seq<char>, Seq<char>>>,
    line: Result<Option<Seq<char>>, Seq<char>>,
    place: Result<Seq<char>, Seq<char>>,
    i: int,
)
    requires
        resolved.len() == lines.len(),
        0 <= i <= lines.len(),
    ensures
        ({
            let sofar = gathered(list, lines, resolved, i);
            let more = gathered(list, lines.push(line), resolved.push(place), i);
            let told = list + ":"@ + decimal((lines.len() + 1) as nat) + ": "@;
            &&& sofar is Err ==> more == sofar
            &&& sofar is Ok ==> match line {
                Err(text) => more == Err::<Seq<Seq<char>>, Seq<char>>(told + text),
                Ok(None) => more == sofar,
                Ok(Some(_)) => match place {
                    Err(text) => more == Err::<Seq<Seq<char>>, Seq<char>>(told + text),
                    Ok(place) => more == Ok::<Seq<Seq<char>>, Seq<char>>(sofar->Ok_0.push(place)),
                },
            }
        }),
    decreases lines.len() - i,
{
    let lines2 = lines.push(line);
    let resolved2 = resolved.push(place);
    if i < lines.len() {
        assert(lines2[i] == lines[i]);
        assert(resolved2[i] == resolved[i]);
        lemma_one_line_more(list, lines, resolved, line, place, i + 1);
        let rest = gathered(list, lines, resolved, i + 1);
        if resolved[i] is Ok && rest is Ok && place is Ok {
            assert(seq![resolved[i]->Ok_0] + rest->Ok_0.push(place->Ok_0) =~= (seq![resolved[i]->Ok_0] + rest->Ok_0).push(place->Ok_0));
        }
    } else {
        assert(lines2[i] == line);
        assert(resolved2[i] == place);
        assert(gathered(list, lines2, resolved2, i + 1) == Ok::<Seq<Seq<char>>, Seq<char>>(Seq::empty()));
        if place is Ok {
            assert(seq![place->Ok_0] + Seq::<Seq<char>>::empty() =~= Seq::<Seq<char>>::empty().push(place->Ok_0));
        }
    }
}

} // verus!
