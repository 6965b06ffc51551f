//! Text building blocks: characters, comparison, replacement and numbers.
use vstd::prelude::*;

verus! {

/// `String::push` appends one character.
pub assume_specification[ String::push ](s: &mut String, c: char)
    ensures
        final(s)@ == old(s)@.push(c),
;

/// The characters of `s`.
pub fn characters(s: &str) -> (r: Vec<char>)
    ensures
        r@ == s@,
{
    let mut out: Vec<char> = Vec::new();
    for c in it: s.chars()
        invariant
            it.seq() == s@,
            out@ == s@.take(it.index() as int),
    {
        out.push(c);
        assert(s@.take(it.index() + 1) == s@.take(it.index() as int).push(c));
    }
    assert(s@.take(s@.len() as int) == s@);
    out
}

/// The characters of `s` from `from` up to `to`, as a string.
pub fn slice(s: &Vec<char>, from: usize, to: usize) -> (r: String)
    requires
        from <= to <= s@.len(),
    ensures
        r@ == s@.subrange(from as int, to as int),
{
    let mut out = String::new();
    let mut i: usize = from;
    while i < to
        invariant
            from <= i <= to <= s@.len(),
            out@ == s@.subrange(from as int, i as int),
        decreases to - i,
    {
        out.push(s[i]);
        assert(s@.subrange(from as int, i + 1) == s@.subrange(from as int, i as int).push(s@[i as int]));
        i = i + 1;
    }
    out
}

/// Whether `a` comes before `b` in the order of their characters, looking from position `i` on.
pub open spec fn before_from(a: Seq<char>, b: Seq<char>, i: int) -> bool
    decreases a.len() - i,
{
    if i < 0 || i >= b.len() {
        false
    } else if i >= a.len() {
        true
    } else if a[i] != b[i] {
        a[i] < b[i]
    } else {
        before_from(a, b, i + 1)
    }
}

/// Whether `a` comes strictly before `b` in lexicographic order.
pub open spec fn before(a: Seq<char>, b: Seq<char>) -> bool {
    before_from(a, b, 0)
}

/// Whether `a` comes strictly before `b`.
pub fn is_before(a: &str, b: &str) -> (r: bool)
    ensures
        r == before(a@, b@),
{
    let x = characters(a);
    let y = characters(b);
    let mut i: usize = 0;
    while i < x.len() && i < y.len() && x[i] == y[i]
        invariant
            x@ == a@,
            y@ == b@,
            i <= x@.len(),
            i <= y@.len(),
            before(a@, b@) == before_from(a@, b@, i as int),
        decreases x@.len() - i,
    {
        i = i + 1;
    }
    if i >= y.len() {
        false
    } else if i >= x.len() {
        true
    } else {
        x[i] < y[i]
    }
}

/// Whether two texts hold the same characters.
pub fn same(a: &str, b: &str) -> (r: bool)
    ensures
        r == (a@ == b@),
{
    let x = characters(a);
    let y = characters(b);
    if x.len() != y.len() {
        return false;
    }
    let mut i: usize = 0;
    while i < x.len()
        invariant
            x@ == a@,
            y@ == b@,
            x@.len() == y@.len(),
            i <= x@.len(),
            forall|j: int| 0 <= j < i ==> x@[j] == y@[j],
        decreases x@.len() - i,
    {
        if x[i] != y[i] {
            return false;
        }
        i = i + 1;
    }
    assert(a@ =~= b@);
    true
}

/// The code of a character, with the ASCII capitals taken for small letters.
pub open spec fn folded(c: char) -> int {
    if 'A' <= c <= 'Z' {
        c as int + 32
    } else {
        c as int
    }
}

/// Whether two texts are equal when ASCII capitals and small letters are not told apart.
pub open spec fn same_ascii(a: Seq<char>, b: Seq<char>) -> bool {
    a.len() == b.len() && forall|i: int| 0 <= i < a.len() ==> folded(#[trigger] a[i]) == folded(b[i])
}

fn fold(c: char) -> (r: u32)
    ensures
        r == folded(c),
{
    if 'A' <= c && c <= 'Z' {
        c as u32 + 32
    } else {
        c as u32
    }
}

/// Whether two texts are equal when ASCII capitals and small letters are not told apart.
pub fn is_same_ascii(a: &str, b: &str) -> (r: bool)
    ensures
        r == same_ascii(a@, b@),
{
    let x = characters(a);
    let y = characters(b);
    if x.len() != y.len() {
        return false;
    }
    let mut i: usize = 0;
    while i < x.len()
        invariant
            x@ == a@,
            y@ == b@,
            x@.len() == y@.len(),
            i <= x@.len(),
            forall|j: int| 0 <= j < i ==> folded(#[trigger] a@[j]) == folded(b@[j]),
        decreases x@.len() - i,
    {
        if fold(x[i]) != fold(y[i]) {
            return false;
        }
        i = i + 1;
    }
    true
}

/// No text comes before itself.
pub proof fn lemma_before_irreflexive(a: Seq<char>, i: int)
    requires
        0 <= i,
    ensures
        !before_from(a, a, i),
    decreases a.len() - i,
{
    if i < a.len() {
        lemma_before_irreflexive(a, i + 1);
    }
}

/// The order of texts is transitive.
pub proof fn lemma_before_transitive(a: Seq<char>, b: Seq<char>, c: Seq<char>, i: int)
    requires
        0 <= i,
        before_from(a, b, i),
        before_from(b, c, i),
    ensures
        before_from(a, c, i),
    decreases a.len() - i,
{
    if i < a.len() && a[i] == b[i] && b[i] == c[i] {
        lemma_before_transitive(a, b, c, i + 1);
    }
}

/// Two texts that agree up to position `i` are equal or ordered.
pub proof fn lemma_before_total(a: Seq<char>, b: Seq<char>, i: int)
    requires
        0 <= i <= a.len(),
        i <= b.len(),
        a.take(i) == b.take(i),
    ensures
        a == b || before_from(a, b, i) || before_from(b, a, i),
    decreases a.len() - i,
{
    if i < a.len() && i < b.len() {
        if a[i] == b[i] {
            assert(a.take(i + 1) == a.take(i).push(a[i]));
            assert(b.take(i + 1) == b.take(i).push(b[i]));
            lemma_before_total(a, b, i + 1);
        }
    } else if a.len() == b.len() {
        assert(a.take(i) == a);
        assert(b.take(i) == b);
    }
}

/// `s` with every character replaced by the text that `f` gives for it.
pub open spec fn mapped(s: Seq<char>, f: spec_fn(char) -> Seq<char>) -> Seq<char>
    decreases s.len(),
{
    if s.len() == 0 {
        Seq::empty()
    } else {
        mapped(s.drop_last(), f) + f(s.last())
    }
}

/// Whether `pattern` stands in `s` at position `i`.
pub open spec fn stands_at(s: Seq<char>, pattern: Seq<char>, i: int) -> bool {
    0 <= i && i + pattern.len() <= s.len() && s.subrange(i, i + pattern.len()) == pattern
}

/// `s` from position `i` on, with the occurrences of `pattern`, found from left to right
/// without overlap, replaced by `with`.
pub open spec fn replaced_from(s: Seq<char>, pattern: Seq<char>, with: Seq<char>, i: int) -> Seq<char>
    decreases s.len() - i,
{
    if i < 0 || i >= s.len() || pattern.len() == 0 {
        Seq::empty()
    } else if stands_at(s, pattern, i) {
        with + replaced_from(s, pattern, with, i + pattern.len())
    } else {
        seq![s[i]] + replaced_from(s, pattern, with, i + 1)
    }
}

/// `s` with every occurrence of `pattern` replaced by `with`.
pub open spec fn replaced(s: Seq<char>, pattern: Seq<char>, with: Seq<char>) -> Seq<char> {
    replaced_from(s, pattern, with, 0)
}

fn is_at(s: &Vec<char>, pattern: &Vec<char>, i: usize) -> (r: bool)
    requires
        i <= s@.len(),
    ensures
        r == stands_at(s@, pattern@, i as int),
{
    if pattern.len() > s.len() - i {
        return false;
    }
    let length: usize = s.len();
    let mut k: usize = 0;
    while k < pattern.len()
        invariant
            k <= pattern@.len(),
            length == s@.len(),
            i + pattern@.len() <= length,
            forall|j: int| 0 <= j < k ==> s@[i + j] == pattern@[j],
        decreases pattern@.len() - k,
    {
        if s[i + k] != pattern[k] {
            assert(s@.subrange(i as int, i + pattern@.len())[k as int] != pattern@[k as int]);
            return false;
        }
        k = k + 1;
    }
    assert(s@.subrange(i as int, i + pattern@.len()) =~= pattern@);
    true
}

/// Replaces every occurrence of `pattern` in `s` by `with`.
pub fn replace(s: &str, pattern: &str, with: &str) -> (r: String)
    requires
        pattern@.len() > 0,
    ensures
        r@ == replaced(s@, pattern@, with@),
{
    let text = characters(s);
    let wanted = characters(pattern);
    let mut out = String::new();
    let mut i: usize = 0;
    while i < text.len()
        invariant
            text@ == s@,
            wanted@ == pattern@,
            pattern@.len() > 0,
            i <= text@.len(),
            out@ + replaced_from(s@, pattern@, with@, i as int) == replaced(s@, pattern@, with@),
        decreases text@.len() - i,
    {
        let ghost rest = replaced_from(s@, pattern@, with@, i as int);
        let ghost before_step = out@;
        if is_at(&text, &wanted, i) {
            out.append(with);
            i = i + wanted.len();
            assert(before_step + rest == out@ + replaced_from(s@, pattern@, with@, i as int));
        } else {
            out.push(text[i]);
            i = i + 1;
            assert(before_step + rest == out@ + replaced_from(s@, pattern@, with@, i as int));
        }
    }
    assert(out@ + Seq::<char>::empty() == out@);
    out
}

/// The views of a list of strings.
pub open spec fn views(list: Seq<String>) -> Seq<Seq<char>> {
    list.map_values(|s: String| s@)
}

/// The texts of `list` with `separator` between neighbours.
pub open spec fn joined_lines(list: Seq<Seq<char>>, separator: Seq<char>) -> Seq<char>
    decreases list.len(),
{
    if list.len() == 0 {
        Seq::empty()
    } else if list.len() == 1 {
        list[0]
    } else {
        joined_lines(list.drop_last(), separator) + separator + list.last()
    }
}

/// Joins texts with a separator between neighbours.
pub fn join_lines(list: &Vec<String>, separator: &str) -> (r: String)
    ensures
        r@ == joined_lines(views(list@), separator@),
{
    let mut out = String::new();
    let mut i: usize = 0;
    assert(views(list@).take(0).len() == 0);
    while i < list.len()
        invariant
            i <= list@.len(),
            out@ == joined_lines(views(list@).take(i as int), separator@),
        decreases list@.len() - i,
    {
        if i > 0 {
            out.append(separator);
        }
        out.append(list[i].as_str());
        assert(views(list@).take(i + 1).drop_last() == views(list@).take(i as int));
        assert(views(list@).take(i + 1).last() == list@[i as int]@);
        assert(i == 0 ==> out@ == list@[0]@);
        i = i + 1;
    }
    assert(views(list@).take(list@.len() as int) == views(list@));
    out
}

/// The character of a decimal digit.
pub open spec fn digit(d: nat) -> char {
    if d == 0 { '0' } else if d == 1 { '1' } else if d == 2 { '2' } else if d == 3 { '3' }
    else if d == 4 { '4' } else if d == 5 { '5' } else if d == 6 { '6' } else if d == 7 { '7' }
    else if d == 8 { '8' } else { '9' }
}

/// A number in decimal notation.
pub open spec fn decimal(n: nat) -> Seq<char>
    decreases n,
{
    if n < 10 {
        seq![digit(n)]
    } else {
        decimal(n / 10).push(digit(n % 10))
    }
}

fn digit_character(d: u64) -> (r: char)
    requires
        d < 10,
    ensures
        r == digit(d as nat),
{
    match d {
        0 => '0',
        1 => '1',
        2 => '2',
        3 => '3',
        4 => '4',
        5 => '5',
        6 => '6',
        7 => '7',
        8 => '8',
        _ => '9',
    }
}

/// Writes a number in decimal notation.
pub fn number(n: u64) -> (r: String)
    ensures
        r@ == decimal(n as nat),
    decreases n,
{
    if n < 10 {
        let mut out = String::new();
        out.push(digit_character(n));
        assert(out@ =~= seq![digit(n as nat)]);
        out
    } else {
        let mut out = number(n / 10);
        out.push(digit_character(n % 10));
        out
    }
}

/// A number in decimal notation, with a sign where it is negative.
pub open spec fn signed_decimal(n: int) -> Seq<char> {
    if n < 0 {
        seq!['-'] + decimal((-n) as nat)
    } else {
        decimal(n as nat)
    }
}

/// Writes a number in decimal notation, with a sign where it is negative.
pub fn signed_number(n: i64) -> (r: String)
    ensures
        r@ == signed_decimal(n as int),
{
    if n < 0 {
        let mut out = String::new();
        out.push('-');
        assert(out@ =~= seq!['-']);
        out.append(number((-(n + 1)) as u64 + 1).as_str());
        out
    } else {
        number(n as u64)
    }
}

/// A copy of a list of strings.
pub fn copy_list(list: &Vec<String>) -> (r: Vec<String>)
    ensures
        views(r@) == views(list@),
{
    let mut out: Vec<String> = Vec::new();
    let mut i: usize = 0;
    while i < list.len()
        invariant
            i <= list@.len(),
            out@.len() == i,
            forall|j: int| 0 <= j < i ==> (#[trigger] out@[j])@ == list@[j]@,
        decreases list@.len() - i,
    {
        out.push(list[i].clone());
        i = i + 1;
    }
    assert(views(out@) =~= views(list@));
    out
}

/// Appends copies of texts.
pub fn push_all(out: &mut Vec<String>, list: &Vec<String>)
    ensures
        views(final(out)@) == views(old(out)@) + views(list@),
{
    let ghost start = views(out@);
    let mut i: usize = 0;
    while i < list.len()
        invariant
            i <= list@.len(),
            views(out@) == start + views(list@).take(i as int),
        decreases list@.len() - i,
    {
        let ghost prior = views(out@);
        out.push(list[i].clone());
        assert(views(out@) =~= prior.push(list@[i as int]@));
        assert(views(list@).take(i + 1) =~= views(list@).take(i as int).push(list@[i as int]@));
        i = i + 1;
    }
    assert(views(list@).take(i as int) =~= views(list@));
}

/// Whether a text is ASCII.
pub open spec fn ascii(s: Seq<char>) -> bool {
    forall|i: int| 0 <= i < s.len() ==> (#[trigger] s[i]) <= '\u{7f}'
}

/// A character with `a` to `z` for `A` to `Z`.
pub open spec fn lowered(c: char) -> char {
    if 'A' <= c <= 'Z' {
        (c as u32 + 32) as char
    } else {
        c
    }
}

/// What `str::to_lowercase` gives for a text that is not ASCII.
pub uninterp spec fn unicode_lowercase(s: Seq<char>) -> Seq<char>;

/// A text in lowercase. Of ASCII text only the letters `A` to `Z` change.
pub open spec fn lowercase(s: Seq<char>) -> Seq<char> {
    if ascii(s) {
        s.map_values(|c: char| lowered(c))
    } else {
        unicode_lowercase(s)
    }
}

/// `str::to_lowercase` replaces every character by its lowercase form: in ASCII text, `A` to `Z` by `a`
/// to `z`, and nothing else. The result depends on the text alone.
#[verifier::external_body]
pub(crate) fn to_lowercase(s: &str) -> (r: String)
    ensures
        ascii(s@) ==> r@ == s@.map_values(|c: char| lowered(c)),
        !ascii(s@) ==> r@ == unicode_lowercase(s@),
{
    s.to_lowercase()
}

/// In lowercase, ASCII texts are the same where they differ in capitals at most.
pub proof fn lemma_capitals_do_not_count(a: Seq<char>, b: Seq<char>)
    requires
        ascii(a),
        ascii(b),
    ensures
        lowercase(a) == lowercase(b) <==> same_ascii(a, b),
{
    let x = lowercase(a);
    let y = lowercase(b);
    assert forall|c: char| #[trigger] lowered(c) as int == folded(c) by {}
    if same_ascii(a, b) {
        assert forall|i: int| 0 <= i < x.len() implies x[i] == y[i] by {
            assert(folded(a[i]) == folded(b[i]));
            assert(lowered(a[i]) as int == lowered(b[i]) as int);
        }
        assert(x =~= y);
    }
    if x == y {
        assert(x.len() == a.len() && y.len() == b.len());
        assert forall|i: int| 0 <= i < a.len() implies folded(#[trigger] a[i]) == folded(b[i]) by {
            assert(x[i] == y[i]);
        }
    }
}

/// Whether a character is white space: one with the White_Space property of Unicode.
pub open spec fn whitespace(c: char) -> bool {
    ||| '\u{9}' <= c <= '\u{d}'
    ||| c == '\u{20}'
    ||| c == '\u{85}'
    ||| c == '\u{a0}'
    ||| c == '\u{1680}'
    ||| '\u{2000}' <= c <= '\u{200a}'
    ||| c == '\u{2028}'
    ||| c == '\u{2029}'
    ||| c == '\u{202f}'
    ||| c == '\u{205f}'
    ||| c == '\u{3000}'
}

fn is_whitespace(c: char) -> (r: bool)
    ensures
        r == whitespace(c),
{
    ('\u{9}' <= c && c <= '\u{d}') || c == '\u{20}' || c == '\u{85}' || c == '\u{a0}' || c == '\u{1680}' || ('\u{2000}' <= c && c
        <= '\u{200a}') || c == '\u{2028}' || c == '\u{2029}' || c == '\u{202f}' || c == '\u{205f}' || c == '\u{3000}'
}

/// Whether a text holds nothing but white space.
pub open spec fn blank(s: Seq<char>) -> bool {
    forall|i: int| 0 <= i < s.len() ==> whitespace(#[trigger] s[i])
}

/// Whether a text holds nothing but white space.
pub fn is_blank(s: &str) -> (r: bool)
    ensures
        r == blank(s@),
{
    let text = characters(s);
    let mut i: usize = 0;
    while i < text.len()
        invariant
            text@ == s@,
            i <= text@.len(),
            forall|k: int| 0 <= k < i ==> whitespace(#[trigger] s@[k]),
        decreases text@.len() - i,
    {
        if !is_whitespace(text[i]) {
            assert(!whitespace(s@[i as int]));
            return false;
        }
        i = i + 1;
    }
    true
}

/// The first position from `i` on that holds no white space.
pub open spec fn space_end(s: Seq<char>, i: int) -> int
    decreases s.len() - i,
{
    if 0 <= i < s.len() && whitespace(s[i]) {
        space_end(s, i + 1)
    } else {
        i
    }
}

/// The end of `s` up to `j` without the white space before it.
pub open spec fn space_start(s: Seq<char>, j: int) -> int
    decreases j,
{
    if 0 < j <= s.len() && whitespace(s[j - 1]) {
        space_start(s, j - 1)
    } else {
        j
    }
}

/// A text without the white space at its end.
pub open spec fn end_trimmed(s: Seq<char>) -> Seq<char> {
    s.take(space_start(s, s.len() as int))
}

/// A text without the white space at its ends.
pub open spec fn trimmed(s: Seq<char>) -> Seq<char> {
    end_trimmed(s).skip(space_end(end_trimmed(s), 0))
}

/// Takes the white space off the end of a text.
pub fn trim_end(s: &str) -> (r: String)
    ensures
        r@ == end_trimmed(s@),
{
    let text = characters(s);
    let mut j: usize = text.len();
    while j > 0 && is_whitespace(text[j - 1])
        invariant
            text@ == s@,
            j <= text@.len(),
            space_start(s@, s@.len() as int) == space_start(s@, j as int),
        decreases j,
    {
        j = j - 1;
    }
    let r = slice(&text, 0, j);
    assert(r@ =~= end_trimmed(s@));
    r
}

/// Takes the white space off both ends of a text.
pub fn trim(s: &str) -> (r: String)
    ensures
        r@ == trimmed(s@),
{
    let short = trim_end(s);
    let text = characters(short.as_str());
    let mut i: usize = 0;
    while i < text.len() && is_whitespace(text[i])
        invariant
            text@ == end_trimmed(s@),
            i <= text@.len(),
            space_end(text@, 0) == space_end(text@, i as int),
        decreases text@.len() - i,
    {
        i = i + 1;
    }
    let r = slice(&text, i, text.len());
    assert(r@ =~= trimmed(s@));
    r
}

/// Whether a text is a single line.
pub open spec fn one_line(s: Seq<char>) -> bool {
    forall|i: int| 0 <= i < s.len() ==> s[i] != '\n'
}

/// How many line breaks a text has.
pub open spec fn line_breaks(s: Seq<char>) -> nat
    decreases s.len(),
{
    if s.len() == 0 {
        0
    } else {
        line_breaks(s.drop_last()) + (if s.last() == '\n' { 1nat } else { 0nat })
    }
}

/// The line breaks of two texts add up.
pub proof fn lemma_line_breaks_add(a: Seq<char>, b: Seq<char>)
    ensures
        line_breaks(a + b) == line_breaks(a) + line_breaks(b),
    decreases b.len(),
{
    if b.len() == 0 {
        assert(a + b =~= a);
    } else {
        assert((a + b).drop_last() =~= a + b.drop_last());
        lemma_line_breaks_add(a, b.drop_last());
    }
}

/// A single line has no line break.
pub proof fn lemma_one_line(s: Seq<char>)
    requires
        one_line(s),
    ensures
        line_breaks(s) == 0,
    decreases s.len(),
{
    if s.len() > 0 {
        lemma_one_line(s.drop_last());
    }
}

/// Lines as they stand in a file, each with its line break.
pub open spec fn lines_text(lines: Seq<Seq<char>>) -> Seq<char>
    decreases lines.len(),
{
    if lines.len() == 0 {
        Seq::empty()
    } else {
        lines_text(lines.drop_last()) + lines.last() + "\n"@
    }
}

/// Writes lines, each with its line break.
pub fn write_lines(lines: &Vec<String>) -> (r: String)
    ensures
        r@ == lines_text(views(lines@)),
{
    let mut out = String::new();
    let mut i: usize = 0;
    assert(views(lines@).take(0).len() == 0);
    while i < lines.len()
        invariant
            i <= lines@.len(),
            out@ == lines_text(views(lines@).take(i as int)),
        decreases lines@.len() - i,
    {
        out.append(lines[i].as_str());
        out.append("\n");
        assert(views(lines@).take(i + 1).drop_last() =~= views(lines@).take(i as int));
        assert(views(lines@).take(i + 1).last() == lines@[i as int]@);
        i = i + 1;
    }
    assert(views(lines@).take(i as int) =~= views(lines@));
    out
}

/// Lines end in a line break, and the last stands behind the others.
pub proof fn lemma_lines_text(lines: Seq<Seq<char>>)
    ensures
        lines_text(lines).len() == 0 || lines_text(lines).last() == '\n',
        lines.len() > 0 ==> lines_text(lines) == lines_text(lines.drop_last()) + lines.last().push('\n'),
{
    if lines.len() > 0 {
        reveal_strlit("\n");
        assert("\n"@ =~= seq!['\n']);
        assert(lines_text(lines) =~= lines_text(lines.drop_last()) + lines.last().push('\n'));
    }
}

/// Lines have as many line breaks as there are lines.
pub proof fn lemma_line_breaks_of_lines(lines: Seq<Seq<char>>)
    requires
        forall|k: int| 0 <= k < lines.len() ==> one_line(#[trigger] lines[k]),
    ensures
        line_breaks(lines_text(lines)) == lines.len(),
    decreases lines.len(),
{
    if lines.len() > 0 {
        let init = lines.drop_last();
        assert forall|k: int| 0 <= k < init.len() implies one_line(#[trigger] init[k]) by {
            assert(init[k] == lines[k]);
        }
        lemma_line_breaks_of_lines(init);
        lemma_lines_text(lines);
        let last = lines.last().push('\n');
        assert(last.drop_last() =~= lines.last());
        lemma_one_line(lines[lines.len() - 1]);
        lemma_line_breaks_add(lines_text(init), last);
    }
}

/// Lines stand one after the other.
pub proof fn lemma_lines_in_two(a: Seq<Seq<char>>, b: Seq<Seq<char>>)
    ensures
        lines_text(a + b) == lines_text(a) + lines_text(b),
    decreases b.len(),
{
    if b.len() == 0 {
        assert(a + b =~= a);
        assert(lines_text(a) + lines_text(b) =~= lines_text(a));
    } else {
        assert((a + b).drop_last() =~= a + b.drop_last());
        lemma_lines_in_two(a, b.drop_last());
        assert(lines_text(a + b) =~= lines_text(a) + lines_text(b));
    }
}

} // verus!
