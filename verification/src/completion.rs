//! Shell integration: the hook that startup files get, and how it is kept up to date.
use vstd::prelude::*;

use crate::error::{outcome, Error};
use crate::escape::{escape, escaped, Inside};
use crate::fingerprint::Look;
use crate::path::{join, joined, strip_prefix, stripped};
use crate::text::{
    characters, folded, is_same_ascii, lemma_lines_text, lines_text, one_line, replace, replaced, same, same_ascii, slice, views,
    write_lines,
};

verus! {

/// The line that the hook begins with.
pub const BEGIN: &'static str = "# >>> filetrail completions >>>";

/// The line that the hook ends with.
pub const END: &'static str = "# <<< filetrail completions <<<";

/// A shell that is integrated with.
#[derive(Clone, Copy, Debug, PartialEq, Eq, Structural)]
pub enum Shell {
    Bash,
    Zsh,
    Fish,
    /// A shell that nothing is installed for.
    Other,
}

// ---------------------------------------------------------------------------------------------
// Lines

/// Where the line that begins at `i` ends, with its line break.
pub open spec fn line_end(s: Seq<char>, i: int) -> int
    decreases s.len() - i,
{
    if i < 0 || i >= s.len() {
        s.len() as int
    } else if s[i] == '\n' {
        i + 1
    } else {
        line_end(s, i + 1)
    }
}

proof fn lemma_line_end(s: Seq<char>, i: int)
    requires
        0 <= i < s.len(),
    ensures
        i < line_end(s, i) <= s.len(),
        forall|k: int| i <= k < line_end(s, i) - 1 ==> s[k] != '\n',
        line_end(s, i) < s.len() ==> s[line_end(s, i) - 1] == '\n',
    decreases s.len() - i,
{
    if s[i] != '\n' {
        if i + 1 < s.len() {
            lemma_line_end(s, i + 1);
        } else {
            assert(line_end(s, i + 1) == s.len());
        }
    }
}

pub proof fn lemma_line_end_is(s: Seq<char>, i: int, j: int)
    requires
        0 <= i < j <= s.len(),
        forall|k: int| i <= k < j - 1 ==> s[k] != '\n',
        j == s.len() || s[j - 1] == '\n',
    ensures
        line_end(s, i) == j,
    decreases j - i,
{
    if i + 1 < j {
        lemma_line_end_is(s, i + 1, j);
    } else if s[i] != '\n' {
        assert(line_end(s, i + 1) == s.len());
    }
}

/// The end of `s` up to `j` without the line breaks at its end.
pub open spec fn trimmed(s: Seq<char>, i: int, j: int) -> int
    decreases j - i,
{
    if i < j && (s[j - 1] == '\n' || s[j - 1] == '\r') {
        trimmed(s, i, j - 1)
    } else {
        j
    }
}

pub proof fn lemma_trimmed(s: Seq<char>, i: int, j: int)
    requires
        i <= j,
    ensures
        i <= trimmed(s, i, j) <= j,
    decreases j - i,
{
    if i < j && (s[j - 1] == '\n' || s[j - 1] == '\r') {
        lemma_trimmed(s, i, j - 1);
    }
}

/// A line of a startup file that begins or ends a hook.
pub struct Mark {
    pub begin: bool,
    pub from: int,
    pub to: int,
}

/// The text of the line of `s` from `i` to `j`, without line breaks.
pub open spec fn line_text(s: Seq<char>, i: int, j: int) -> Seq<char> {
    s.subrange(i, trimmed(s, i, j))
}

/// The lines of `s` from `i` on that begin or end a hook.
pub open spec fn marks_from(s: Seq<char>, i: int) -> Seq<Mark>
    decreases s.len() - i,
    via marks_from_decreases
{
    if i < 0 || i >= s.len() {
        Seq::empty()
    } else {
        let j = line_end(s, i);
        let rest = marks_from(s, j);
        if same_ascii(line_text(s, i, j), BEGIN@) {
            seq![Mark { begin: true, from: i, to: j }] + rest
        } else if same_ascii(line_text(s, i, j), END@) {
            seq![Mark { begin: false, from: i, to: j }] + rest
        } else {
            rest
        }
    }
}

#[via_fn]
proof fn marks_from_decreases(s: Seq<char>, i: int) {
    if 0 <= i < s.len() {
        lemma_line_end(s, i);
    }
}

/// The lines of a startup file that begin or end a hook.
pub open spec fn marks(s: Seq<char>) -> Seq<Mark> {
    marks_from(s, 0)
}

/// Whether the marks are those of one hook.
pub open spec fn one_hook(marks: Seq<Mark>) -> bool {
    marks.len() == 2 && marks[0].begin && !marks[1].begin
}

/// A startup file with the hook in place of the one that it has, or else at its end.
pub open spec fn hooked(original: Seq<char>, hook: Seq<char>) -> Result<Seq<char>, Seq<char>> {
    let m = marks(original);
    if m.len() == 0 {
        Ok(closed_line(original) + hook)
    } else if one_hook(m) {
        Ok(original.take(m[0].from) + hook + original.skip(m[1].to))
    } else if m.len() == 1 && m[0].begin {
        Err("incomplete markers; repair the marked block first"@)
    } else {
        Err("duplicate or out-of-order markers; repair the marked block first"@)
    }
}

/// A text with a line break at its end, unless it is empty.
pub open spec fn closed_line(s: Seq<char>) -> Seq<char> {
    if s.len() == 0 || s.last() == '\n' {
        s
    } else {
        s.push('\n')
    }
}

fn find_line_end(s: &Vec<char>, from: usize) -> (r: usize)
    requires
        from < s@.len(),
    ensures
        r == line_end(s@, from as int),
        from < r <= s@.len(),
{
    let mut i: usize = from;
    while i < s.len() && s[i] != '\n'
        invariant
            from <= i <= s@.len(),
            from < s@.len(),
            line_end(s@, from as int) == line_end(s@, i as int),
        decreases s@.len() - i,
    {
        i = i + 1;
    }
    proof {
        lemma_line_end(s@, from as int);
    }
    if i < s.len() {
        i + 1
    } else {
        i
    }
}

fn find_trimmed(s: &Vec<char>, from: usize, to: usize) -> (r: usize)
    requires
        from <= to <= s@.len(),
    ensures
        r == trimmed(s@, from as int, to as int),
        from <= r <= to,
{
    let mut j: usize = to;
    while from < j && (s[j - 1] == '\n' || s[j - 1] == '\r')
        invariant
            from <= j <= to <= s@.len(),
            trimmed(s@, from as int, to as int) == trimmed(s@, from as int, j as int),
        decreases j,
    {
        j = j - 1;
    }
    j
}

struct FoundMark {
    begin: bool,
    from: usize,
    to: usize,
}

spec fn found(list: Seq<FoundMark>) -> Seq<Mark> {
    list.map_values(|m: FoundMark| Mark { begin: m.begin, from: m.from as int, to: m.to as int })
}

fn find_marks(s: &Vec<char>) -> (r: Vec<FoundMark>)
    ensures
        found(r@) == marks(s@),
        forall|k: int| 0 <= k < r@.len() ==> (#[trigger] r@[k]).from < r@[k].to <= s@.len(),
{
    let mut out: Vec<FoundMark> = Vec::new();
    let mut i: usize = 0;
    assert(found(out@) + marks_from(s@, 0) =~= marks(s@));
    while i < s.len()
        invariant
            i <= s@.len(),
            found(out@) + marks_from(s@, i as int) == marks(s@),
            forall|k: int| 0 <= k < out@.len() ==> (#[trigger] out@[k]).from < out@[k].to <= s@.len(),
        decreases s@.len() - i,
    {
        let j: usize = find_line_end(s, i);
        let line = slice(s, i, find_trimmed(s, i, j));
        let ghost prior = found(out@);
        let ghost rest = marks_from(s@, j as int);
        if is_same_ascii(line.as_str(), BEGIN) {
            out.push(FoundMark { begin: true, from: i, to: j });
            let ghost mark = Mark { begin: true, from: i as int, to: j as int };
            assert(found(out@) =~= prior.push(mark));
            assert(prior + (seq![mark] + rest) =~= found(out@) + rest);
        } else if is_same_ascii(line.as_str(), END) {
            out.push(FoundMark { begin: false, from: i, to: j });
            let ghost mark = Mark { begin: false, from: i as int, to: j as int };
            assert(found(out@) =~= prior.push(mark));
            assert(prior + (seq![mark] + rest) =~= found(out@) + rest);
        }
        i = j;
    }
    assert(found(out@) + Seq::<Mark>::empty() =~= found(out@));
    out
}

/// Puts the hook in place of the one that a startup file has, or else at its end. What stands around
/// it is kept.
pub fn replace_hook(original: &str, hook: &str) -> (r: Result<String, Error>)
    ensures
        outcome(r) == hooked(original@, hook@),
{
    let text = characters(original);
    let m = find_marks(&text);
    assert(found(m@).len() == m@.len());
    if m.len() == 0 {
        let mut out = original.to_owned();
        if text.len() > 0 && text[text.len() - 1] != '\n' {
            out.push('\n');
        }
        return Ok(out.concat(hook));
    }
    assert(found(m@)[0].begin == m@[0].begin && found(m@)[0].from == m@[0].from);
    if m.len() == 2 && m[0].begin && !m[1].begin {
        assert(found(m@)[1].begin == m@[1].begin && found(m@)[1].to == m@[1].to);
        let head = slice(&text, 0, m[0].from);
        let tail = slice(&text, m[1].to, text.len());
        assert(head@ =~= original@.take(m@[0].from as int));
        assert(tail@ =~= original@.skip(m@[1].to as int));
        return Ok(head.concat(hook).concat(tail.as_str()));
    }
    proof {
        if m@.len() == 2 {
            assert(found(m@)[1].begin == m@[1].begin);
        }
    }
    if m.len() == 1 && m[0].begin {
        Err(Error::new("incomplete markers; repair the marked block first"))
    } else {
        Err(Error::new("duplicate or out-of-order markers; repair the marked block first"))
    }
}

// ---------------------------------------------------------------------------------------------
// Laws on the hook

/// Marks that stand further on.
pub open spec fn moved_marks(list: Seq<Mark>, by: int) -> Seq<Mark> {
    list.map_values(|m: Mark| Mark { begin: m.begin, from: m.from + by, to: m.to + by })
}

proof fn lemma_trimmed_same(s: Seq<char>, t: Seq<char>, i: int, j: int, by: int)
    requires
        0 <= i <= j <= s.len(),
        0 <= i + by,
        j + by <= t.len(),
        forall|k: int| i <= k < j ==> s[k] == t[k + by],
    ensures
        trimmed(t, i + by, j + by) == trimmed(s, i, j) + by,
        line_text(t, i + by, j + by) == line_text(s, i, j),
    decreases j - i,
{
    lemma_trimmed(s, i, j);
    if i < j {
        assert(s[j - 1] == t[j - 1 + by]);
        if s[j - 1] == '\n' || s[j - 1] == '\r' {
            lemma_trimmed_same(s, t, i, j - 1, by);
        }
    }
    assert(line_text(t, i + by, j + by) =~= line_text(s, i, j));
}

/// The marks of a text that begins with whole lines.
proof fn lemma_marks_split(a: Seq<char>, s: Seq<char>, i: int)
    requires
        0 <= i <= a.len() <= s.len(),
        s.take(a.len() as int) == a,
        a.len() == 0 || a.last() == '\n' || a.len() == s.len(),
    ensures
        marks_from(s, i) == marks_from(a, i) + marks_from(s, a.len() as int),
    decreases a.len() - i,
{
    let n = a.len() as int;
    assert forall|k: int| 0 <= k < n implies a[k] == s[k] by {
        assert(s.take(n)[k] == s[k]);
    }
    if i < n {
        lemma_line_end(a, i);
        let j = line_end(a, i);
        lemma_line_end_is(s, i, j);
        lemma_trimmed_same(a, s, i, j, 0);
        lemma_marks_split(a, s, j);
        assert(marks_from(s, i) =~= marks_from(a, i) + marks_from(s, n));
    } else {
        assert(marks_from(s, i) =~= marks_from(a, i) + marks_from(s, n));
    }
}

/// The marks of a text that ends with another.
proof fn lemma_marks_moved(a: Seq<char>, b: Seq<char>, i: int)
    requires
        0 <= i <= b.len(),
    ensures
        marks_from(a + b, a.len() + i) == moved_marks(marks_from(b, i), a.len() as int),
    decreases b.len() - i,
{
    let n = a.len() as int;
    let s = a + b;
    if i < b.len() {
        lemma_line_end(b, i);
        let j = line_end(b, i);
        assert forall|k: int| n + i <= k < n + j - 1 implies s[k] != '\n' by {
            assert(s[k] == b[k - n]);
        }
        assert(s[n + j - 1] == b[j - 1]);
        lemma_line_end_is(s, n + i, n + j);
        lemma_trimmed_same(b, s, i, j, n);
        lemma_marks_moved(a, b, j);
        assert(marks_from(s, n + i) =~= moved_marks(marks_from(b, i), n));
    } else {
        assert(marks_from(s, n + i) =~= moved_marks(marks_from(b, i), n));
    }
}

pub proof fn lemma_marks_joined(a: Seq<char>, b: Seq<char>)
    requires
        a.len() == 0 || a.last() == '\n' || b.len() == 0,
    ensures
        marks(a + b) == marks(a) + moved_marks(marks(b), a.len() as int),
{
    assert((a + b).take(a.len() as int) =~= a);
    lemma_marks_split(a, a + b, 0);
    lemma_marks_moved(a, b, 0);
}

/// Every mark is a line of its own.
proof fn lemma_marks_within(s: Seq<char>, i: int)
    requires
        0 <= i <= s.len(),
        i == 0 || s[i - 1] == '\n' || i == s.len(),
    ensures
        forall|k: int| 0 <= k < marks_from(s, i).len() ==> {
            let m = #[trigger] marks_from(s, i)[k];
            &&& i <= m.from < m.to <= s.len()
            &&& m.from == 0 || s[m.from - 1] == '\n'
            &&& m.to == s.len() || s[m.to - 1] == '\n'
        },
        forall|k: int, l: int| 0 <= k < l < marks_from(s, i).len() ==> (#[trigger] marks_from(s, i)[k]).to <= (#[trigger] marks_from(s, i)[l]).from,
    decreases s.len() - i,
{
    if i < s.len() {
        lemma_line_end(s, i);
        let j = line_end(s, i);
        lemma_marks_within(s, j);
        let all = marks_from(s, i);
        let rest = marks_from(s, j);
        let d = all.len() - rest.len();
        assert(d == 0 || d == 1);
        assert(d == 0 ==> all == rest);
        assert forall|k: int| d <= k < all.len() implies #[trigger] all[k] == rest[k - d] by {}
    }
}

/// Whether a text is one hook of whole lines.
pub open spec fn is_hook(hook: Seq<char>) -> bool {
    &&& marks(hook).len() == 2
    &&& marks(hook)[0] == (Mark { begin: true, from: 0, to: marks(hook)[0].to })
    &&& marks(hook)[1] == (Mark { begin: false, from: marks(hook)[1].from, to: hook.len() as int })
    &&& hook.len() > 0
    &&& hook.last() == '\n'
}

proof fn lemma_marks_of_parts(s: Seq<char>, from: int, to: int)
    requires
        one_hook(marks(s)),
        from == marks(s)[0].from,
        to == marks(s)[1].to,
    ensures
        0 <= from < to <= s.len(),
        from == 0 || s[from - 1] == '\n',
        to == s.len() || s[to - 1] == '\n',
        marks(s.take(from)).len() == 0,
        marks(s.skip(to)).len() == 0,
{
    lemma_marks_within(s, 0);
    assert(marks(s)[0].to <= marks(s)[1].from);
    lemma_no_marks_before(s, from);
    lemma_no_marks_after(s, to);
}

proof fn lemma_no_marks_before(s: Seq<char>, from: int)
    requires
        marks(s).len() > 0,
        from == marks(s)[0].from,
        0 <= from <= s.len(),
        from == 0 || s[from - 1] == '\n',
    ensures
        marks(s.take(from)).len() == 0,
{
    let a = s.take(from);
    assert(a + s.skip(from) =~= s);
    if from > 0 {
        assert(a.last() == s[from - 1]);
    }
    lemma_marks_joined(a, s.skip(from));
    lemma_marks_within(a, 0);
    if marks(a).len() > 0 {
        assert(marks(s)[0] == marks(a)[0]);
    }
}

proof fn lemma_no_marks_after(s: Seq<char>, to: int)
    requires
        marks(s).len() > 0,
        to == marks(s).last().to,
        marks(s).last().from < to,
        0 < to <= s.len(),
        to == s.len() || s[to - 1] == '\n',
    ensures
        marks(s.skip(to)).len() == 0,
{
    let c = s.take(to);
    let d = s.skip(to);
    assert(c + d =~= s);
    assert(c.last() == s[to - 1]);
    lemma_marks_joined(c, d);
    lemma_marks_within(d, 0);
    let moved = moved_marks(marks(d), to);
    if marks(d).len() > 0 {
        let last = marks(d)[marks(d).len() - 1];
        assert(last.from >= 0);
        assert(moved.last() == (Mark { begin: last.begin, from: last.from + to, to: last.to + to }));
        assert(marks(s).last() == moved.last());
    }
}

/// Putting a hook in twice is the same as putting it in once, and what stands around the hook that
/// was there is kept.
pub proof fn lemma_hooking_twice_changes_nothing(original: Seq<char>, hook: Seq<char>)
    requires
        is_hook(hook),
        hooked(original, hook) is Ok,
    ensures
        hooked(hooked(original, hook)->Ok_0, hook) == hooked(original, hook),
{
    let m = marks(original);
    let before = if m.len() == 0 { closed_line(original) } else { original.take(m[0].from) };
    let after = if m.len() == 0 { Seq::<char>::empty() } else { original.skip(m[1].to) };
    if m.len() == 0 {
        if original.len() > 0 && original.last() != '\n' {
            let line_break = seq!['\n'];
            assert(original + line_break =~= before);
            // The added line break ends the last line and changes no line otherwise.
            lemma_marks_closed(original);
        }
        assert(marks(before).len() == 0);
        assert(marks(after).len() == 0);
    } else {
        lemma_marks_of_parts(original, m[0].from, m[1].to);
        if m[0].from > 0 {
            assert(before.last() == original[m[0].from - 1]);
        }
    }
    let updated = hooked(original, hook)->Ok_0;
    assert(updated =~= before + (hook + after));
    lemma_marks_joined(hook, after);
    lemma_marks_joined(before, hook + after);
    let inner = marks(hook + after);
    assert(moved_marks(marks(after), hook.len() as int).len() == 0);
    assert(inner =~= marks(hook));
    let n = before.len() as int;
    assert(marks(updated) =~= moved_marks(marks(hook), n));
    assert(marks(updated)[0] == (Mark { begin: true, from: n, to: marks(hook)[0].to + n }));
    assert(marks(updated)[1] == (Mark { begin: false, from: marks(hook)[1].from + n, to: hook.len() + n }));
    assert(updated.take(n) =~= before);
    assert(updated.skip(n + hook.len()) =~= after);
    assert(hooked(updated, hook) == Ok::<Seq<char>, Seq<char>>(before + hook + after));
    assert(before + hook + after =~= updated);
}

/// A line break at the end of the last line makes no line a mark.
proof fn lemma_marks_closed(s: Seq<char>)
    requires
        s.len() > 0,
        s.last() != '\n',
        marks(s).len() == 0,
    ensures
        marks(s.push('\n')).len() == 0,
{
    lemma_marks_closed_from(s, 0);
}

proof fn lemma_marks_closed_from(s: Seq<char>, i: int)
    requires
        s.len() > 0,
        s.last() != '\n',
        0 <= i <= s.len(),
        i < s.len() ==> marks_from(s, i).len() == 0,
    ensures
        i < s.len() ==> marks_from(s.push('\n'), i).len() == 0,
    decreases s.len() - i,
{
    let t = s.push('\n');
    if i < s.len() {
        lemma_line_end(s, i);
        let j = line_end(s, i);
        let rest = marks_from(s, j);
        assert(marks_from(s, i).len() >= rest.len());
        if j < s.len() {
            assert(t[j - 1] == s[j - 1]);
            lemma_line_end_is(t, i, j);
            lemma_trimmed_same(s, t, i, j, 0);
            lemma_marks_closed_from(s, j);
        } else {
            if s[j - 1] == '\n' {
                assert(s.last() == '\n');
            }
            assert forall|k: int| i <= k < j implies t[k] != '\n' by {
                assert(t[k] == s[k]);
            }
            lemma_line_end_is(t, i, j + 1);
            assert(t[j] == '\n');
            assert(trimmed(t, i, j + 1) == trimmed(t, i, j));
            lemma_trimmed_same(s, t, i, j, 0);
            assert(line_text(t, i, j + 1) == line_text(s, i, j));
            assert(marks_from(t, j + 1) =~= Seq::empty());
        }
    }
}

// ---------------------------------------------------------------------------------------------
// The executable

/// A path and the home directory with all links resolved.
pub struct Resolved {
    pub path: String,
    pub home: String,
}

/// What is left of a path below the home directory, going by the texts or else by where the links
/// lead.
pub open spec fn below_home(path: Seq<char>, home: Seq<char>, resolved: Option<Resolved>) -> Option<Seq<char>> {
    match stripped(path, home) {
        Some(rest) => Some(rest),
        None => match resolved {
            Some(resolved) => stripped(resolved.path@, resolved.home@),
            None => None,
        },
    }
}

/// What is left of a path below the home directory.
pub fn home_relative(path: &str, home: &str, resolved: &Option<Resolved>) -> (r: Option<String>)
    ensures
        match r {
            Some(rest) => below_home(path@, home@, *resolved) == Some(rest@),
            None => below_home(path@, home@, *resolved) is None,
        },
{
    match strip_prefix(path, home) {
        Some(rest) => Some(rest),
        None => match resolved {
            Some(resolved) => strip_prefix(resolved.path.as_str(), resolved.home.as_str()),
            None => None,
        },
    }
}

/// A path for the user to read, with `$HOME` for the home directory.
pub open spec fn path_shown(path: Seq<char>, home: Option<Seq<char>>, resolved: Option<Resolved>) -> Seq<char> {
    match home {
        None => path,
        Some(home) => match below_home(path, home, resolved) {
            None => path,
            Some(rest) => if rest.len() == 0 {
                "$HOME"@
            } else {
                "$HOME/"@ + rest
            },
        },
    }
}

/// A path for the user to read.
pub fn display_path(path: &str, home: Option<&str>, resolved: &Option<Resolved>) -> (r: String)
    ensures
        r@ == path_shown(path@, crate::config::seen(home), *resolved),
{
    match home {
        None => path.to_owned(),
        Some(home) => match home_relative(path, home, resolved) {
            None => path.to_owned(),
            Some(rest) => {
                proof {
                    reveal_strlit("");
                    assert(rest@.len() == 0 ==> rest@ =~= ""@);
                }
                if same(rest.as_str(), "") {
                    "$HOME".to_owned()
                } else {
                    "$HOME/".to_owned().concat(rest.as_str())
                }
            },
        },
    }
}

/// How a shell is told to run the executable: below `$HOME` where it lies there, so that the line
/// works for every home directory, or else by its whole path.
pub open spec fn expression(shell: Shell, binary: Seq<char>, home: Seq<char>, resolved: Option<Resolved>) -> Seq<char> {
    match below_home(binary, home, resolved) {
        Some(rest) => "\"$HOME"@ + (if rest.len() == 0 {
            ""@
        } else {
            "/"@
        }) + escaped(Inside::DoubleQuotes { fish: shell == Shell::Fish }, rest) + "\""@,
        None => "'"@ + escaped(if shell == Shell::Fish { Inside::FishQuotes } else { Inside::SingleQuotes }, binary) + "'"@,
    }
}

/// How a shell is told to run the executable.
pub fn executable_expression(shell: Shell, binary: &str, home: &str, resolved: &Option<Resolved>) -> (r: String)
    ensures
        r@ == expression(shell, binary@, home@, *resolved),
{
    match home_relative(binary, home, resolved) {
        Some(rest) => {
            proof {
                reveal_strlit("");
                assert(rest@.len() == 0 ==> rest@ =~= ""@);
            }
            let slash = if same(rest.as_str(), "") {
                ""
            } else {
                "/"
            };
            let inner = escape(Inside::DoubleQuotes { fish: shell == Shell::Fish }, rest.as_str());
            "\"$HOME".to_owned().concat(slash).concat(inner.as_str()).concat("\"")
        },
        None => {
            let inside = if shell == Shell::Fish {
                Inside::FishQuotes
            } else {
                Inside::SingleQuotes
            };
            "'".to_owned().concat(escape(inside, binary).as_str()).concat("'")
        },
    }
}

/// The definitions that intercept `cd` in a shell: its template with the executable filled in, and
/// nothing for a shell that has none.
pub fn shell_integration(shell: Shell, template: &str, executable: &str) -> (r: String)
    ensures
        r@ == (if shell == Shell::Other {
            Seq::empty()
        } else {
            replaced(template@, "@FILETRAIL@"@, executable@)
        }),
{
    if shell == Shell::Other {
        return String::new();
    }
    proof {
        reveal_strlit("@FILETRAIL@");
    }
    replace(template, "@FILETRAIL@", executable)
}

// ---------------------------------------------------------------------------------------------
// The hook

/// The lines of the hook between its marks.
pub open spec fn body_lines(shell: Shell, quoted: Seq<char>) -> Seq<Seq<char>> {
    match shell {
        Shell::Bash => seq![
            "if [ -n \"${BASH_VERSION-}\" ] && [ -x "@ + quoted + " ]; then"@,
            "case $- in"@,
            "*i*) eval \"$("@ + quoted + " completions bash)\" ;;"@,
            "esac"@,
            "fi"@,
        ],
        Shell::Zsh => seq![
            "if [[ -o interactive && -x "@ + quoted + " ]]; then"@,
            "if (( ! $+functions[compdef] )); then"@,
            "autoload -Uz compinit"@,
            "compinit -i"@,
            "fi"@,
            "if (( $+functions[compdef] )); then"@,
            "eval \"$("@ + quoted + " completions zsh)\""@,
            "fi"@,
            "fi"@,
        ],
        Shell::Fish => seq!["if test -x "@ + quoted, quoted + " completions fish | source"@, "end"@],
        Shell::Other => seq![],
    }
}

/// The hook of a shell.
pub open spec fn hook_text(shell: Shell, quoted: Seq<char>) -> Seq<char> {
    lines_text(seq![BEGIN@] + body_lines(shell, quoted) + seq![END@])
}

/// The hook that asks the executable for current definitions whenever a shell starts, where `quoted`
/// is how the shell is told to run the executable.
pub fn hook(shell: Shell, quoted: &str) -> (r: Result<String, Error>)
    ensures
        shell != Shell::Other ==> r is Ok && r->Ok_0@ == hook_text(shell, quoted@),
        shell == Shell::Other ==> r is Err && r->Err_0@ == "automatic installation supports bash, zsh, and fish only"@,
{
    let mut lines: Vec<String> = Vec::new();
    lines.push(BEGIN.to_owned());
    match shell {
        Shell::Bash => {
            lines.push("if [ -n \"${BASH_VERSION-}\" ] && [ -x ".to_owned().concat(quoted).concat(" ]; then"));
            lines.push("case $- in".to_owned());
            lines.push("*i*) eval \"$(".to_owned().concat(quoted).concat(" completions bash)\" ;;"));
            lines.push("esac".to_owned());
            lines.push("fi".to_owned());
        },
        Shell::Zsh => {
            lines.push("if [[ -o interactive && -x ".to_owned().concat(quoted).concat(" ]]; then"));
            lines.push("if (( ! $+functions[compdef] )); then".to_owned());
            lines.push("autoload -Uz compinit".to_owned());
            lines.push("compinit -i".to_owned());
            lines.push("fi".to_owned());
            lines.push("if (( $+functions[compdef] )); then".to_owned());
            lines.push("eval \"$(".to_owned().concat(quoted).concat(" completions zsh)\""));
            lines.push("fi".to_owned());
            lines.push("fi".to_owned());
        },
        Shell::Fish => {
            lines.push("if test -x ".to_owned().concat(quoted));
            lines.push(quoted.to_owned().concat(" completions fish | source"));
            lines.push("end".to_owned());
        },
        Shell::Other => {
            return Err(Error::new("automatic installation supports bash, zsh, and fish only"));
        },
    }
    lines.push(END.to_owned());
    assert(views(lines@) =~= seq![BEGIN@] + body_lines(shell, quoted@) + seq![END@]);
    Ok(write_lines(&lines))
}

// ---------------------------------------------------------------------------------------------
// Startup files

/// The directory that the environment names, where it does.
pub fn environment_directory(value: Option<&str>, fallback: &str) -> (r: String)
    ensures
        r@ == chosen_directory(crate::config::seen(value), fallback@),
{
    match value {
        Some(value) => {
            proof {
                reveal_strlit("");
                assert(value@.len() == 0 ==> value@ =~= ""@);
            }
            if same(value, "") {
                fallback.to_owned()
            } else {
                value.to_owned()
            }
        },
        None => fallback.to_owned(),
    }
}

/// The directory that the environment names, or else the fallback.
pub open spec fn chosen_directory(value: Option<Seq<char>>, fallback: Seq<char>) -> Seq<char> {
    match value {
        Some(value) => if value.len() == 0 {
            fallback
        } else {
            value
        },
        None => fallback,
    }
}

/// The login profiles of Bash, in the order in which it looks for them.
pub open spec fn login_profiles(home: Seq<char>) -> Seq<Seq<char>> {
    seq![joined(home, ".bash_profile"@), joined(home, ".bash_login"@), joined(home, ".profile"@)]
}

/// The login profiles of Bash, in the order in which it looks for them.
pub fn bash_profiles(home: &str) -> (r: Vec<String>)
    ensures
        views(r@) == login_profiles(home@),
{
    let list: Vec<String> = vec![join(home, ".bash_profile"), join(home, ".bash_login"), join(home, ".profile")];
    assert(views(list@) =~= login_profiles(home@));
    list
}

/// The login profile that Bash reads: the first that exists, of those from `i` on, or else the first
/// of all.
pub open spec fn login_profile(profiles: Seq<Seq<char>>, looks: Seq<Look>, i: int) -> Result<Seq<char>, Seq<char>>
    decreases profiles.len() - i,
{
    if i < 0 || i >= profiles.len() {
        Ok(profiles[0])
    } else {
        match looks[i] {
            Look::Missing => login_profile(profiles, looks, i + 1),
            Look::Failed(error) => Err(error@),
            _ => Ok(profiles[i]),
        }
    }
}

/// The startup files of a shell.
pub open spec fn startup_paths(
    shell: Shell,
    home: Seq<char>,
    zsh: Option<Seq<char>>,
    config: Option<Seq<char>>,
    looks: Seq<Look>,
) -> Result<Seq<Seq<char>>, Seq<char>> {
    match shell {
        Shell::Bash => match login_profile(login_profiles(home), looks, 0) {
            Err(text) => Err(text),
            Ok(login) => Ok(seq![joined(home, ".bashrc"@), login]),
        },
        Shell::Zsh => Ok(seq![joined(chosen_directory(zsh, home), ".zshrc"@)]),
        Shell::Fish => {
            let fish = joined(chosen_directory(config, joined(home, ".config"@)), "fish"@);
            Ok(seq![joined(fish, "completions/filetrail.fish"@), joined(fish, "functions/filetrail.fish"@)])
        },
        Shell::Other => Err("automatic installation supports bash, zsh, and fish only"@),
    }
}

/// Finds the startup files that get the hook, where `zsh` and `config` are what the environment says
/// of ZDOTDIR and XDG_CONFIG_HOME, and `looks` tells what stands at the login profiles of Bash.
pub fn install(shell: Shell, home: &str, zsh: Option<&str>, config: Option<&str>, looks: &Vec<Look>) -> (r: Result<Vec<String>, Error>)
    requires
        shell == Shell::Bash ==> looks@.len() == 3,
    ensures
        match r {
            Ok(paths) => startup_paths(shell, home@, crate::config::seen(zsh), crate::config::seen(config), looks@) == Ok::<
                Seq<Seq<char>>,
                Seq<char>,
            >(views(paths@)),
            Err(error) => startup_paths(shell, home@, crate::config::seen(zsh), crate::config::seen(config), looks@) == Err::<
                Seq<Seq<char>>,
                Seq<char>,
            >(error@),
        },
{
    match shell {
        Shell::Bash => {
            let profiles = bash_profiles(home);
            let ghost all = login_profiles(home@);
            assert(views(profiles@).len() == profiles@.len());
            let mut login = profiles[0].clone();
            assert(all[0] == profiles@[0]@);
            let mut i: usize = 0;
            let mut found_one = false;
            while i < profiles.len() && !found_one
                invariant
                    views(profiles@) == all,
                    all == login_profiles(home@),
                    profiles@.len() == 3,
                    looks@.len() == 3,
                    i <= profiles@.len(),
                    !found_one ==> login@ == all[0] && login_profile(all, looks@, 0) == login_profile(all, looks@, i as int),
                    found_one ==> login_profile(all, looks@, 0) == Ok::<Seq<char>, Seq<char>>(login@),
                    shell == Shell::Bash,
                decreases profiles@.len() - i + (if found_one { 0int } else { 1int }),
            {
                assert(all[i as int] == profiles@[i as int]@);
                match &looks[i] {
                    Look::Missing => {
                        i = i + 1;
                    },
                    Look::Failed(error) => return Err(Error { text: error.text.clone() }),
                    _ => {
                        login = profiles[i].clone();
                        found_one = true;
                    },
                }
            }
            let paths: Vec<String> = vec![join(home, ".bashrc"), login];
            assert(views(paths@) =~= seq![joined(home@, ".bashrc"@), login@]);
            Ok(paths)
        },
        Shell::Zsh => {
            let directory = environment_directory(zsh, home);
            let paths: Vec<String> = vec![join(directory.as_str(), ".zshrc")];
            assert(views(paths@) =~= seq![joined(directory@, ".zshrc"@)]);
            Ok(paths)
        },
        Shell::Fish => {
            let directory = environment_directory(config, join(home, ".config").as_str());
            let fish = join(directory.as_str(), "fish");
            let paths: Vec<String> = vec![
                join(fish.as_str(), "completions/filetrail.fish"),
                join(fish.as_str(), "functions/filetrail.fish"),
            ];
            assert(views(paths@) =~= seq![
                joined(fish@, "completions/filetrail.fish"@),
                joined(fish@, "functions/filetrail.fish"@),
            ]);
            Ok(paths)
        },
        Shell::Other => Err(Error::new("automatic installation supports bash, zsh, and fish only")),
    }
}

// ---------------------------------------------------------------------------------------------
// New texts

/// What stands at a startup file, with all links resolved.
pub enum Startup {
    Missing,
    /// It cannot be looked at.
    Failed(Error),
    /// It is a link that leads nowhere.
    Unresolved(Error),
    /// It is no regular file.
    Irregular,
    Unreadable(Error),
    /// Its text, and where the links lead, for the user to read.
    Text { shown: String, text: String },
}

/// The text that tells that the hook of a startup file is broken.
pub open spec fn broken_text(shown: Seq<char>, text: Seq<char>) -> Seq<char> {
    "invalid FileTrail completion block in "@ + shown + ": "@ + text
}

/// The new text of a startup file, or why it is left alone.
pub open spec fn update_of(shown: Seq<char>, found: Startup, hook: Seq<char>) -> Result<Seq<char>, Seq<char>> {
    match found {
        Startup::Missing => match hooked(Seq::empty(), hook) {
            Ok(text) => Ok(text),
            Err(text) => Err(broken_text(shown, text)),
        },
        Startup::Failed(error) => Err(error@),
        Startup::Unresolved(error) => Err("cannot resolve "@ + shown + ": "@ + error@),
        Startup::Irregular => Err(shown + " is not a regular file"@),
        Startup::Unreadable(error) => Err("cannot read "@ + shown + ": "@ + error@),
        Startup::Text { shown: resolved, text: original } => match hooked(original@, hook) {
            Ok(text) => Ok(text),
            Err(text) => Err(broken_text(resolved@, text)),
        },
    }
}

fn about_broken(error: Error, shown: &str) -> (r: Error)
    ensures
        r@ == broken_text(shown@, error@),
{
    error.within("invalid FileTrail completion block in ".to_owned().concat(shown).as_str())
}

/// The new text of a startup file, where `shown` is its path for the user to read.
pub fn prepare_update(shown: &str, found: &Startup, hook: &str) -> (r: Result<String, Error>)
    ensures
        outcome(r) == update_of(shown@, *found, hook@),
{
    match found {
        Startup::Missing => {
            proof {
                reveal_strlit("");
                assert(""@ =~= Seq::empty());
            }
            match replace_hook("", hook) {
                Ok(text) => Ok(text),
                Err(error) => Err(about_broken(error, shown)),
            }
        },
        Startup::Failed(error) => Err(Error { text: error.text.clone() }),
        Startup::Unresolved(error) => {
            let error = Error { text: error.text.clone() };
            Err(error.within("cannot resolve ".to_owned().concat(shown).as_str()))
        },
        Startup::Irregular => Err(Error::about(shown, " is not a regular file")),
        Startup::Unreadable(error) => {
            let error = Error { text: error.text.clone() };
            Err(error.within("cannot read ".to_owned().concat(shown).as_str()))
        },
        Startup::Text { shown: resolved, text: original } => match replace_hook(original.as_str(), hook) {
            Ok(text) => Ok(text),
            Err(error) => Err(about_broken(error, resolved.as_str())),
        },
    }
}

/// The new texts of the first `n` startup files, or why the first of them that is left alone is.
pub open spec fn updates_of(shown: Seq<Seq<char>>, found: Seq<Startup>, hook: Seq<char>, n: int) -> Result<Seq<Seq<char>>, Seq<char>>
    decreases n,
{
    if n <= 0 {
        Ok(Seq::empty())
    } else {
        match updates_of(shown, found, hook, n - 1) {
            Err(text) => Err(text),
            Ok(before) => match update_of(shown[n - 1], found[n - 1], hook) {
                Err(text) => Err(text),
                Ok(text) => Ok(before.push(text)),
            },
        }
    }
}

/// The new texts of all startup files. Where one of them is to be left alone, there are none, so that
/// every file is checked before any is written.
pub fn prepare_updates(shown: &Vec<String>, found: &Vec<Startup>, hook: &str) -> (r: Result<Vec<String>, Error>)
    requires
        shown@.len() == found@.len(),
    ensures
        match r {
            Ok(texts) => updates_of(views(shown@), found@, hook@, found@.len() as int) == Ok::<Seq<Seq<char>>, Seq<char>>(views(texts@)),
            Err(error) => updates_of(views(shown@), found@, hook@, found@.len() as int) == Err::<Seq<Seq<char>>, Seq<char>>(error@),
        },
{
    let ghost names = views(shown@);
    let mut texts: Vec<String> = Vec::new();
    assert(views(texts@) =~= Seq::empty());
    let mut i: usize = 0;
    while i < found.len()
        invariant
            names == views(shown@),
            shown@.len() == found@.len(),
            i <= found@.len(),
            updates_of(names, found@, hook@, i as int) == Ok::<Seq<Seq<char>>, Seq<char>>(views(texts@)),
        decreases found@.len() - i,
    {
        assert(names[i as int] == shown@[i as int]@);
        match prepare_update(shown[i].as_str(), &found[i], hook) {
            Ok(text) => {
                let ghost before = views(texts@);
                texts.push(text);
                assert(views(texts@) =~= before.push(text@));
            },
            Err(error) => {
                proof {
                    lemma_refused_for_good(names, found@, hook@, i as int + 1, found@.len() as int);
                }
                return Err(error);
            },
        }
        i = i + 1;
    }
    Ok(texts)
}

proof fn lemma_refused_for_good(shown: Seq<Seq<char>>, found: Seq<Startup>, hook: Seq<char>, n: int, m: int)
    requires
        0 <= n <= m,
        updates_of(shown, found, hook, n) is Err,
    ensures
        updates_of(shown, found, hook, m) == updates_of(shown, found, hook, n),
    decreases m,
{
    if n < m {
        lemma_refused_for_good(shown, found, hook, n, m - 1);
    }
}

/// Every startup file is checked before any is written: there are new texts only where each file can
/// have one, and then each has its own. Where one file is to be left alone, the first of these is why
/// all are.
pub proof fn lemma_one_bad_startup_file_stops_all(shown: Seq<Seq<char>>, found: Seq<Startup>, hook: Seq<char>, n: int, k: int)
    requires
        0 <= k < n,
    ensures
        match updates_of(shown, found, hook, n) {
            Ok(texts) => texts.len() == n && update_of(shown[k], found[k], hook) == Ok::<Seq<char>, Seq<char>>(texts[k]),
            Err(text) => update_of(shown[k], found[k], hook) is Err && (forall|l: int|
                0 <= l < k ==> update_of(#[trigger] shown[l], found[l], hook) is Ok) ==> update_of(shown[k], found[k], hook) == Err::<
                Seq<char>,
                Seq<char>,
            >(text),
        },
        update_of(shown[k], found[k], hook) is Err ==> updates_of(shown, found, hook, n) is Err,
    decreases n,
{
    if k < n - 1 {
        lemma_one_bad_startup_file_stops_all(shown, found, hook, n - 1, k);
    } else if updates_of(shown, found, hook, n - 1) is Ok {
        lemma_update_count(shown, found, hook, n - 1);
    } else {
        lemma_first_refusal(shown, found, hook, n - 1);
    }
}

proof fn lemma_update_count(shown: Seq<Seq<char>>, found: Seq<Startup>, hook: Seq<char>, n: int)
    requires
        0 <= n,
        updates_of(shown, found, hook, n) is Ok,
    ensures
        updates_of(shown, found, hook, n)->Ok_0.len() == n,
    decreases n,
{
    if n > 0 {
        lemma_update_count(shown, found, hook, n - 1);
    }
}

proof fn lemma_first_refusal(shown: Seq<Seq<char>>, found: Seq<Startup>, hook: Seq<char>, n: int)
    requires
        updates_of(shown, found, hook, n) is Err,
    ensures
        exists|l: int| 0 <= l < n && update_of(#[trigger] shown[l], found[l], hook) is Err,
    decreases n,
{
    if n > 0 {
        if updates_of(shown, found, hook, n - 1) is Err {
            lemma_first_refusal(shown, found, hook, n - 1);
        } else {
            assert(update_of(shown[n - 1], found[n - 1], hook) is Err);
        }
    }
}

// ---------------------------------------------------------------------------------------------
// The hook is one block

/// Whether a text holds no mark, once its last line is ended.
spec fn unmarked_line(line: Seq<char>) -> bool {
    marks(line.push('\n')).len() == 0
}

pub proof fn lemma_single_line(line: Seq<char>)
    requires
        one_line(line),
    ensures
        line_end(line.push('\n'), 0) == line.len() + 1,
        marks_from(line.push('\n'), line.len() as int + 1).len() == 0,
{
    let t = line.push('\n');
    assert forall|k: int| 0 <= k < t.len() - 1 implies t[k] != '\n' by {
        assert(t[k] == line[k]);
    }
    lemma_line_end_is(t, 0, t.len() as int);
}

/// A single line is no mark where it begins or ends otherwise.
proof fn lemma_no_mark(line: Seq<char>)
    requires
        one_line(line),
        line.len() > 0,
        line[0] != '#' || (line.last() != '>' && line.last() != '<' && line.last() != '\r'),
    ensures
        unmarked_line(line),
{
    let t = line.push('\n');
    lemma_single_line(line);
    reveal_strlit("# >>> filetrail completions >>>");
    reveal_strlit("# <<< filetrail completions <<<");
    let j = t.len() as int;
    lemma_trimmed(t, 0, j);
    let text = line_text(t, 0, j);
    if line[0] != '#' {
        if text.len() > 0 {
            assert(text[0] == line[0]);
            assert(folded(text[0]) != folded('#'));
        }
        assert(BEGIN@[0] == '#' && END@[0] == '#');
    } else {
        assert(t[j - 1] == '\n');
        assert(t[j - 2] == line[j - 2]);
        assert(line.last() != '\n');
        assert(trimmed(t, 0, j) == trimmed(t, 0, j - 1));
        assert(trimmed(t, 0, j - 1) == j - 1);
        assert(text =~= line);
        assert(BEGIN@[30] == '>' && END@[30] == '<');
        if same_ascii(text, BEGIN@) || same_ascii(text, END@) {
            assert(text.len() == 31);
            assert(folded(text[30]) == text[30]);
        }
    }
    assert(!same_ascii(text, BEGIN@));
    assert(!same_ascii(text, END@));
}

/// What stands in front of a text without marks, and behind it, makes none of its lines a mark, unless
/// it begins and ends as a mark does.
proof fn lemma_wrapped(front: Seq<char>, middle: Seq<char>, back: Seq<char>)
    requires
        marks(middle).len() == 0,
        one_line(front),
        one_line(back),
        front.len() > 0 ==> front[0] != '#',
        back.len() > 0 ==> back.last() != '>' && back.last() != '<' && back.last() != '\r',
    ensures
        unmarked_line(front + middle + back),
    decreases middle.len(),
{
    let all = front + middle + back;
    let n = line_end(middle, 0);
    if middle.len() > 0 {
        lemma_line_end(middle, 0);
    }
    if middle.len() > 0 && middle[n - 1] == '\n' {
        let head = middle.take(n);
        let rest = middle.skip(n);
        assert(head + rest =~= middle);
        assert(head.last() == middle[n - 1]);
        lemma_marks_joined(head, rest);
        assert(moved_marks(marks(rest), n).len() == marks(rest).len());
        let first = head.drop_last();
        assert(first.push('\n') =~= head);
        let line = front + first;
        assert(unmarked_line(line)) by {
            if front.len() > 0 {
                assert forall|k: int| 0 <= k < line.len() implies line[k] != '\n' by {
                    if k >= front.len() {
                        assert(line[k] == middle[k - front.len()]);
                    }
                }
                assert(line[0] == front[0]);
                lemma_no_mark(line);
            } else {
                assert(line =~= first);
            }
        }
        let none = Seq::<char>::empty();
        lemma_wrapped(none, rest, back);
        let tail = none + rest + back;
        assert(all.push('\n') =~= line.push('\n') + tail.push('\n'));
        lemma_marks_joined(line.push('\n'), tail.push('\n'));
        assert(moved_marks(marks(tail.push('\n')), line.push('\n').len() as int).len() == 0);
    } else {
        assert forall|k: int| 0 <= k < all.len() implies all[k] != '\n' by {
            if k >= front.len() && k < front.len() + middle.len() {
                assert(all[k] == middle[k - front.len()]);
            }
        }
        if front.len() > 0 {
            assert(all[0] == front[0]);
            lemma_no_mark(all);
        } else if back.len() > 0 {
            assert(all.last() == back.last());
            lemma_no_mark(all);
        } else {
            assert(all =~= middle);
            if middle.len() > 0 {
                lemma_marks_closed(middle);
            } else {
                assert(all =~= Seq::empty());
                lemma_empty_line();
            }
        }
    }
}

/// An empty line is no mark.
proof fn lemma_empty_line()
    ensures
        unmarked_line(Seq::empty()),
{
    let t = Seq::<char>::empty().push('\n');
    lemma_single_line(Seq::empty());
    reveal_strlit("# >>> filetrail completions >>>");
    reveal_strlit("# <<< filetrail completions <<<");
    lemma_trimmed(t, 0, 1);
    let text = line_text(t, 0, 1);
    assert(text.len() <= 1);
}

proof fn lemma_mark(line: Seq<char>)
    requires
        line == BEGIN@ || line == END@,
    ensures
        marks(line.push('\n')) == seq![Mark { begin: line == BEGIN@, from: 0, to: line.len() as int + 1 }],
        BEGIN@ != END@,
{
    reveal_strlit("# >>> filetrail completions >>>");
    reveal_strlit("# <<< filetrail completions <<<");
    assert(BEGIN@[2] != END@[2]);
    let t = line.push('\n');
    lemma_single_line(line);
    let j = t.len() as int;
    assert(t[j - 1] == '\n');
    assert(t[j - 2] == line[j - 2]);
    assert(trimmed(t, 0, j) == trimmed(t, 0, j - 1));
    assert(trimmed(t, 0, j - 1) == j - 1);
    assert(line_text(t, 0, j) =~= line);
    assert(!same_ascii(END@, BEGIN@)) by {
        assert(folded(END@[2]) != folded(BEGIN@[2]));
    }
    assert(marks(t) =~= seq![Mark { begin: line == BEGIN@, from: 0, to: line.len() as int + 1 }]);
}

/// The marks of inner lines after the first mark.
proof fn lemma_marks_of_body(lines: Seq<Seq<char>>)
    requires
        lines.len() > 0,
        lines[0] == BEGIN@,
        forall|k: int| 1 <= k < lines.len() ==> unmarked_line(#[trigger] lines[k]),
    ensures
        marks(lines_text(lines)) == seq![Mark { begin: true, from: 0, to: BEGIN@.len() as int + 1 }],
    decreases lines.len(),
{
    let init = lines.drop_last();
    lemma_lines_text(lines);
    lemma_lines_text(init);
    lemma_marks_joined(lines_text(init), lines.last().push('\n'));
    if lines.len() == 1 {
        lemma_mark(BEGIN@);
        assert(lines_text(init).len() == 0);
        assert(lines_text(init) + lines.last().push('\n') =~= lines.last().push('\n'));
    } else {
        lemma_marks_of_body(init);
        assert(moved_marks(marks(lines.last().push('\n')), lines_text(init).len() as int).len() == 0);
        assert(marks(lines_text(lines)) =~= marks(lines_text(init)));
    }
}

/// The hook that is installed is one block, so that installing it again replaces it: this needs no line
/// of how the shell is told to run the executable to be a mark itself.
pub proof fn lemma_an_installed_hook_is_one_block(shell: Shell, quoted: Seq<char>)
    requires
        shell != Shell::Other,
        marks(quoted).len() == 0,
    ensures
        is_hook(hook_text(shell, quoted)),
{
    let body = body_lines(shell, quoted);
    assert forall|k: int| 0 <= k < body.len() implies unmarked_line(#[trigger] body[k]) by {
        lemma_inner_lines(shell, quoted, k);
    }
    let head = seq![BEGIN@] + body;
    let all = head + seq![END@];
    assert forall|k: int| 1 <= k < head.len() implies unmarked_line(#[trigger] head[k]) by {
        assert(head[k] == body[k - 1]);
    }
    lemma_marks_of_body(head);
    lemma_lines_text(all);
    lemma_lines_text(head);
    assert(all.drop_last() =~= head);
    lemma_mark(END@);
    let a = lines_text(head);
    let b = END@.push('\n');
    lemma_marks_joined(a, b);
    let moved = moved_marks(marks(b), a.len() as int);
    assert(moved =~= seq![Mark { begin: false, from: a.len() as int, to: a.len() as int + END@.len() + 1 }]);
    assert(hook_text(shell, quoted) == a + b);
    assert(marks(a + b) =~= marks(a) + moved);
}

proof fn lemma_inner_lines(shell: Shell, quoted: Seq<char>, k: int)
    requires
        marks(quoted).len() == 0,
        0 <= k < body_lines(shell, quoted).len(),
    ensures
        unmarked_line(body_lines(shell, quoted)[k]),
{
    let line = body_lines(shell, quoted)[k];
    match shell {
        Shell::Bash => {
            reveal_strlit("if [ -n \"${BASH_VERSION-}\" ] && [ -x ");
            reveal_strlit(" ]; then");
            reveal_strlit("case $- in");
            reveal_strlit("*i*) eval \"$(");
            reveal_strlit(" completions bash)\" ;;");
            reveal_strlit("esac");
            reveal_strlit("fi");
            if k == 0 {
                lemma_wrapped("if [ -n \"${BASH_VERSION-}\" ] && [ -x "@, quoted, " ]; then"@);
            } else if k == 2 {
                lemma_wrapped("*i*) eval \"$("@, quoted, " completions bash)\" ;;"@);
            } else {
                lemma_no_mark(line);
            }
        },
        Shell::Zsh => {
            reveal_strlit("if [[ -o interactive && -x ");
            reveal_strlit(" ]]; then");
            reveal_strlit("if (( ! $+functions[compdef] )); then");
            reveal_strlit("autoload -Uz compinit");
            reveal_strlit("compinit -i");
            reveal_strlit("fi");
            reveal_strlit("if (( $+functions[compdef] )); then");
            reveal_strlit("eval \"$(");
            reveal_strlit(" completions zsh)\"");
            if k == 0 {
                lemma_wrapped("if [[ -o interactive && -x "@, quoted, " ]]; then"@);
            } else if k == 6 {
                lemma_wrapped("eval \"$("@, quoted, " completions zsh)\""@);
            } else {
                lemma_no_mark(line);
            }
        },
        Shell::Fish => {
            reveal_strlit("if test -x ");
            reveal_strlit(" completions fish | source");
            reveal_strlit("end");
            let none = Seq::<char>::empty();
            if k == 0 {
                lemma_wrapped("if test -x "@, quoted, none);
                assert("if test -x "@ + quoted + none =~= line);
            } else if k == 1 {
                lemma_wrapped(none, quoted, " completions fish | source"@);
                assert(none + quoted + " completions fish | source"@ =~= line);
            } else {
                lemma_no_mark(line);
            }
        },
        Shell::Other => {},
    }
}

/// Installing the hook in a startup file without marks keeps what the file held in front, and puts in
/// one block, whose first and last line are the marks to the letter.
pub proof fn lemma_an_installed_hook_stands_once(original: Seq<char>, shell: Shell, quoted: Seq<char>)
    requires
        marks(original).len() == 0,
        shell != Shell::Other,
        marks(quoted).len() == 0,
    ensures
        ({
            let updated = hooked(original, hook_text(shell, quoted))->Ok_0;
            let m = marks(updated);
            &&& hooked(original, hook_text(shell, quoted)) is Ok
            &&& original.is_prefix_of(updated)
            &&& one_hook(m)
            &&& line_text(updated, m[0].from, m[0].to) == "# >>> filetrail completions >>>"@
            &&& line_text(updated, m[1].from, m[1].to) == "# <<< filetrail completions <<<"@
            &&& m[1].to == updated.len()
        }),
{
    let hook = hook_text(shell, quoted);
    lemma_an_installed_hook_is_one_block(shell, quoted);
    let head = closed_line(original);
    let updated = hooked(original, hook)->Ok_0;
    let n = head.len() as int;
    if head != original {
        lemma_marks_closed(original);
    }
    assert(updated == head + hook);
    lemma_marks_joined(head, hook);
    assert(marks(updated) =~= moved_marks(marks(hook), n));
    assert(updated.subrange(0, original.len() as int) =~= original);
    lemma_hook_lines(shell, quoted);
    let first = marks(hook)[0];
    let last = marks(hook)[1];
    lemma_marks_within(hook, 0);
    assert(hook.subrange(first.from, first.to) =~= BEGIN@.push('\n'));
    lemma_marked_line(hook, first.from, first.to, BEGIN@);
    lemma_marked_line(hook, last.from, last.to, END@);
    lemma_trimmed_same(hook, updated, first.from, first.to, n);
    lemma_trimmed_same(hook, updated, last.from, last.to, n);
}

/// Where the marks of a hook stand in it.
proof fn lemma_hook_lines(shell: Shell, quoted: Seq<char>)
    requires
        shell != Shell::Other,
        marks(quoted).len() == 0,
    ensures
        ({
            let hook = hook_text(shell, quoted);
            let m = marks(hook);
            &&& m.len() == 2
            &&& 0 <= m[0].from < m[0].to <= hook.len()
            &&& 0 <= m[1].from < m[1].to <= hook.len()
            &&& hook.subrange(m[0].from, m[0].to) == BEGIN@.push('\n')
            &&& hook.subrange(m[1].from, m[1].to) == END@.push('\n')
        }),
{
    let body = body_lines(shell, quoted);
    let head = seq![BEGIN@] + body;
    let all = head + seq![END@];
    assert forall|k: int| 1 <= k < head.len() implies unmarked_line(#[trigger] head[k]) by {
        assert(head[k] == body[k - 1]);
        lemma_inner_lines(shell, quoted, k - 1);
    }
    lemma_marks_of_body(head);
    lemma_lines_text(all);
    lemma_lines_text(head);
    assert(all.drop_last() =~= head);
    lemma_mark(END@);
    let a = lines_text(head);
    let b = END@.push('\n');
    let hook = hook_text(shell, quoted);
    assert(hook == a + b);
    lemma_marks_joined(a, b);
    let moved = moved_marks(marks(b), a.len() as int);
    assert(moved[0] == (Mark { begin: false, from: a.len() as int, to: a.len() as int + END@.len() + 1 }));
    assert(marks(hook) =~= marks(a) + moved);
    lemma_begins_with_first(head);
    assert(hook.subrange(marks(hook)[0].from, marks(hook)[0].to) =~= BEGIN@.push('\n')) by {
        assert(a.take(BEGIN@.len() as int + 1) =~= BEGIN@.push('\n'));
        assert forall|k: int| 0 <= k < BEGIN@.len() + 1 implies hook[k] == BEGIN@.push('\n')[k] by {
            assert(a.take(BEGIN@.len() as int + 1)[k] == a[k]);
        }
    }
    assert(hook.subrange(marks(hook)[1].from, marks(hook)[1].to) =~= b);
}

/// Lines begin with the first of them.
proof fn lemma_begins_with_first(lines: Seq<Seq<char>>)
    requires
        lines.len() > 0,
    ensures
        lines_text(lines).len() >= lines[0].len() + 1,
        lines_text(lines).take(lines[0].len() as int + 1) == lines[0].push('\n'),
    decreases lines.len(),
{
    lemma_lines_text(lines);
    let init = lines.drop_last();
    if lines.len() == 1 {
        assert(lines_text(init) =~= Seq::empty());
        assert(lines_text(lines) =~= lines[0].push('\n'));
        assert(lines_text(lines).take(lines[0].len() as int + 1) =~= lines[0].push('\n'));
    } else {
        lemma_begins_with_first(init);
        assert(init[0] == lines[0]);
        let whole = lines_text(lines);
        let part = lines_text(init);
        assert(whole.take(lines[0].len() as int + 1) =~= part.take(lines[0].len() as int + 1));
    }
}

/// The text of a line that is a mark.
proof fn lemma_marked_line(s: Seq<char>, i: int, j: int, line: Seq<char>)
    requires
        0 <= i < j <= s.len(),
        s.subrange(i, j) == line.push('\n'),
        line == BEGIN@ || line == END@,
    ensures
        line_text(s, i, j) == line,
{
    reveal_strlit("# >>> filetrail completions >>>");
    reveal_strlit("# <<< filetrail completions <<<");
    let whole = s.subrange(i, j);
    assert(whole.len() == j - i);
    assert(whole.len() == line.len() + 1);
    assert(s[j - 1] == whole[j - 1 - i]);
    assert(s[j - 2] == whole[j - 2 - i]);
    assert(trimmed(s, i, j) == trimmed(s, i, j - 1));
    assert(trimmed(s, i, j - 1) == j - 1);
    assert(line_text(s, i, j) =~= line) by {
        assert forall|k: int| 0 <= k < line.len() implies line_text(s, i, j)[k] == line[k] by {
            assert(s.subrange(i, j)[k] == s[i + k]);
        }
    }
}

} // verus!
