//! What is written into startup files and service definitions, and where they stand.
use vstd::prelude::*;

use crate::completion::{
    below_home, chosen_directory, expression, hook_text, hooked, lemma_line_end_is, lemma_marks_joined, lemma_single_line,
    lemma_trimmed, line_text, login_profile, login_profiles, marks, marks_from, moved_marks, path_shown, startup_paths,
    trimmed as line_trimmed, update_of, Mark, Resolved, Shell, Startup, BEGIN, END,
};
use crate::escape::{escaped, written, Inside};
use crate::fingerprint::{blake3_hex, Look};
use crate::laws::wording::lemma_mapping_characters;
use crate::path::{joined, lemma_stripped, names, parts, stripped, under};
use crate::service::{definition, identity_of, launch, place, reload, switch, InvocationView};
use crate::text::{folded, lemma_lines_in_two, lemma_lines_text, lines_text, mapped, one_line, same_ascii};
use vstd::utf8::encode_utf8;

verus! {

// ---------------------------------------------------------------------------------------------
// Marks

/// A line without the carriage returns at its end.
pub open spec fn bare(line: Seq<char>) -> Seq<char>
    decreases line.len(),
{
    if line.len() > 0 && line.last() == '\r' {
        bare(line.drop_last())
    } else {
        line
    }
}

/// Whether a line begins a hook.
pub open spec fn is_begin(line: Seq<char>) -> bool {
    same_ascii(bare(line), "# >>> filetrail completions >>>"@)
}

/// Whether a line ends a hook.
pub open spec fn is_end(line: Seq<char>) -> bool {
    same_ascii(bare(line), "# <<< filetrail completions <<<"@)
}

/// Which of the lines begin a hook and which end one, in order.
pub open spec fn kinds(lines: Seq<Seq<char>>) -> Seq<bool>
    decreases lines.len(),
{
    if lines.len() == 0 {
        Seq::empty()
    } else if is_begin(lines.last()) {
        kinds(lines.drop_last()).push(true)
    } else if is_end(lines.last()) {
        kinds(lines.drop_last()).push(false)
    } else {
        kinds(lines.drop_last())
    }
}

/// Whether all lines are single ones.
pub open spec fn are_lines(lines: Seq<Seq<char>>) -> bool {
    forall|k: int| 0 <= k < lines.len() ==> one_line(#[trigger] lines[k])
}

/// Whether all lines are single ones that neither begin nor end a hook.
pub open spec fn are_plain(lines: Seq<Seq<char>>) -> bool {
    are_lines(lines) && forall|k: int| 0 <= k < lines.len() ==> !is_begin(#[trigger] lines[k]) && !is_end(lines[k])
}

proof fn lemma_bare(line: Seq<char>, t: Seq<char>, j: int)
    requires
        one_line(line),
        0 <= j <= line.len() <= t.len(),
        t.take(line.len() as int) == line,
    ensures
        t.subrange(0, line_trimmed(t, 0, j)) == bare(line.take(j)),
    decreases j,
{
    lemma_trimmed(t, 0, j);
    if j > 0 {
        let part = line.take(j);
        assert(t[j - 1] == t.take(line.len() as int)[j - 1]);
        assert(part.last() == line[j - 1]);
        assert(t[j - 1] == line[j - 1]);
        assert(part.drop_last() =~= line.take(j - 1));
        if t[j - 1] == '\r' {
            lemma_bare(line, t, j - 1);
        } else {
            assert(t.subrange(0, j) =~= part);
        }
    } else {
        assert(t.subrange(0, 0) =~= line.take(0));
    }
}

/// The marks of a single line, with its line break or without.
proof fn lemma_mark_of(line: Seq<char>)
    requires
        one_line(line),
    ensures
        ({
            let n = line.len() as int;
            let m = marks(line.push('\n'));
            &&& is_begin(line) ==> m == seq![Mark { begin: true, from: 0, to: n + 1 }]
            &&& !is_begin(line) && is_end(line) ==> m == seq![Mark { begin: false, from: 0, to: n + 1 }]
            &&& !is_begin(line) && !is_end(line) ==> m.len() == 0
            &&& !is_begin(line) && !is_end(line) ==> marks(line).len() == 0
        }),
{
    let t = line.push('\n');
    let n = line.len() as int;
    lemma_single_line(line);
    assert(t.take(n) =~= line);
    assert(line.take(n) =~= line);
    lemma_bare(line, t, n);
    assert(t[n] == '\n');
    assert(line_trimmed(t, 0, n + 1) == line_trimmed(t, 0, n));
    assert(line_text(t, 0, n + 1) == bare(line));
    assert(marks_from(t, n + 1) =~= Seq::empty());
    assert(seq![Mark { begin: true, from: 0, to: n + 1 }] + Seq::<Mark>::empty() =~= seq![Mark { begin: true, from: 0, to: n + 1 }]);
    assert(seq![Mark { begin: false, from: 0, to: n + 1 }] + Seq::<Mark>::empty() =~= seq![Mark { begin: false, from: 0, to: n + 1 }]);
    if n > 0 {
        lemma_line_end_is(line, 0, n);
        lemma_bare(line, line, n);
        assert(line_text(line, 0, n) == bare(line));
        assert(marks_from(line, n) =~= Seq::empty());
    }
}

/// The marks of lines are those of each, in order.
pub proof fn lemma_marks_of_lines(lines: Seq<Seq<char>>)
    requires
        are_lines(lines),
    ensures
        marks(lines_text(lines)).len() == kinds(lines).len(),
        forall|k: int| 0 <= k < kinds(lines).len() ==> (#[trigger] marks(lines_text(lines))[k]).begin == kinds(lines)[k],
    decreases lines.len(),
{
    if lines.len() > 0 {
        let init = lines.drop_last();
        let last = lines.last();
        assert(one_line(last)) by {
            assert(last == lines[lines.len() - 1]);
        }
        assert(are_lines(init)) by {
            assert forall|k: int| 0 <= k < init.len() implies one_line(#[trigger] init[k]) by {
                assert(init[k] == lines[k]);
            }
        }
        lemma_marks_of_lines(init);
        lemma_lines_text(lines);
        lemma_lines_text(init);
        lemma_mark_of(last);
        let a = lines_text(init);
        let b = last.push('\n');
        lemma_marks_joined(a, b);
        let m = marks(lines_text(lines));
        assert(m == marks(a) + moved_marks(marks(b), a.len() as int));
        assert forall|k: int| 0 <= k < kinds(lines).len() implies (#[trigger] m[k]).begin == kinds(lines)[k] by {
            if k < kinds(init).len() {
                assert(m[k] == marks(a)[k]);
            }
        }
    } else {
        assert(marks(lines_text(lines)) =~= Seq::empty());
    }
}

proof fn lemma_plain(lines: Seq<Seq<char>>)
    requires
        are_plain(lines),
    ensures
        kinds(lines).len() == 0,
    decreases lines.len(),
{
    if lines.len() > 0 {
        let init = lines.drop_last();
        assert(lines.last() == lines[lines.len() - 1]);
        assert(are_plain(init)) by {
            assert forall|k: int| 0 <= k < init.len() implies one_line(#[trigger] init[k]) && !is_begin(init[k]) && !is_end(init[k]) by {
                assert(init[k] == lines[k]);
            }
        }
        lemma_plain(init);
    }
}

proof fn lemma_no_line_is_both(line: Seq<char>)
    ensures
        !(is_begin(line) && is_end(line)),
{
    reveal_strlit("# >>> filetrail completions >>>");
    reveal_strlit("# <<< filetrail completions <<<");
    if is_begin(line) && is_end(line) {
        assert(folded(bare(line)[2]) == folded('<'));
    }
}

/// A hook that stands in a startup file gives way to the new one, whatever lines it has, and what stands
/// around it stays as it is.
pub proof fn lemma_hooks_are_replaced(
    ahead: Seq<Seq<char>>,
    begin: Seq<char>,
    inner: Seq<Seq<char>>,
    end: Seq<char>,
    behind: Seq<Seq<char>>,
    hook: Seq<char>,
)
    requires
        are_plain(ahead),
        are_plain(inner),
        are_plain(behind),
        one_line(begin),
        one_line(end),
        is_begin(begin),
        is_end(end),
    ensures
        hooked(lines_text(ahead + seq![begin] + inner + seq![end] + behind), hook) == Ok::<Seq<char>, Seq<char>>(
            lines_text(ahead) + hook + lines_text(behind),
        ),
{
    let a = lines_text(ahead);
    let b = begin.push('\n');
    let m = lines_text(inner);
    let e = end.push('\n');
    let c = lines_text(behind);
    lemma_lines_in_two(ahead + seq![begin] + inner + seq![end], behind);
    lemma_lines_in_two(ahead + seq![begin] + inner, seq![end]);
    lemma_lines_in_two(ahead + seq![begin], inner);
    lemma_lines_in_two(ahead, seq![begin]);
    lemma_lines_text(seq![begin]);
    lemma_lines_text(seq![end]);
    lemma_lines_text(ahead);
    lemma_lines_text(inner);
    assert(seq![begin].drop_last() =~= Seq::empty());
    assert(seq![end].drop_last() =~= Seq::empty());
    assert(lines_text(seq![begin]) =~= b);
    assert(lines_text(seq![end]) =~= e);
    let s = lines_text(ahead + seq![begin] + inner + seq![end] + behind);
    assert(s =~= a + (b + (m + (e + c))));
    lemma_plain(ahead);
    lemma_plain(inner);
    lemma_plain(behind);
    lemma_marks_of_lines(ahead);
    lemma_marks_of_lines(inner);
    lemma_marks_of_lines(behind);
    lemma_mark_of(begin);
    lemma_mark_of(end);
    lemma_no_line_is_both(end);
    lemma_marks_joined(e, c);
    lemma_marks_joined(m, e + c);
    lemma_marks_joined(b, m + (e + c));
    lemma_marks_joined(a, b + (m + (e + c)));
    let list = marks(s);
    let from = a.len() as int;
    let to = from + b.len() + m.len() + e.len();
    assert(marks(e + c) =~= seq![Mark { begin: false, from: 0, to: e.len() as int }]);
    assert(list =~= seq![
        Mark { begin: true, from, to: from + b.len() },
        Mark { begin: false, from: from + b.len() + m.len(), to },
    ]);
    assert(s.take(from) =~= a);
    assert(s.skip(to) =~= c);
}

/// A startup file without a hook gets it at its end, on a line of its own.
pub proof fn lemma_hooks_are_added(ahead: Seq<Seq<char>>, rest: Seq<char>, hook: Seq<char>)
    requires
        are_plain(ahead),
        one_line(rest),
        !is_begin(rest),
        !is_end(rest),
    ensures
        rest.len() == 0 ==> hooked(lines_text(ahead) + rest, hook) == Ok::<Seq<char>, Seq<char>>(lines_text(ahead) + hook),
        rest.len() > 0 ==> hooked(lines_text(ahead) + rest, hook) == Ok::<Seq<char>, Seq<char>>(lines_text(ahead.push(rest)) + hook),
{
    let a = lines_text(ahead);
    lemma_lines_text(ahead);
    lemma_plain(ahead);
    lemma_marks_of_lines(ahead);
    lemma_mark_of(rest);
    lemma_marks_joined(a, rest);
    assert(marks(rest).len() == 0);
    assert(marks(a + rest) =~= Seq::empty());
    lemma_lines_text(ahead.push(rest));
    assert(ahead.push(rest).drop_last() =~= ahead);
    if rest.len() > 0 {
        assert((a + rest).last() == rest.last());
        assert(rest.last() != '\n');
        assert((a + rest).push('\n') =~= a + rest.push('\n'));
    } else {
        assert(a + rest =~= a);
    }
}

/// A startup file is left alone exactly where it has marks and these are not one that begins a hook and
/// then one that ends it.
pub proof fn lemma_broken_hooks_are_left_alone(lines: Seq<Seq<char>>, hook: Seq<char>)
    requires
        are_lines(lines),
    ensures
        hooked(lines_text(lines), hook) is Err <==> kinds(lines).len() > 0 && kinds(lines) != seq![true, false],
{
    lemma_marks_of_lines(lines);
    let m = marks(lines_text(lines));
    let list = kinds(lines);
    if list.len() == 2 {
        assert(m[0].begin == list[0]);
        assert(m[1].begin == list[1]);
        if list[0] && !list[1] {
            assert(list =~= seq![true, false]);
        } else {
            assert(seq![true, false][0] && !seq![true, false][1]);
        }
    }
}

// ---------------------------------------------------------------------------------------------
// Escaping

/// What is escaped, and how: inside of double quotes what a shell would take up, inside of single quotes
/// the quote itself.
pub proof fn lemma_what_shells_need_escaped(c: char)
    ensures
        c == '\\' || c == '"' || c == '$' || c == '`' ==> written(Inside::DoubleQuotes { fish: false }, c) == seq!['\\', c],
        c != '\\' && c != '"' && c != '$' && c != '`' ==> written(Inside::DoubleQuotes { fish: false }, c) == seq![c],
        c == '\\' || c == '"' || c == '$' ==> written(Inside::DoubleQuotes { fish: true }, c) == seq!['\\', c],
        c != '\\' && c != '"' && c != '$' ==> written(Inside::DoubleQuotes { fish: true }, c) == seq![c],
        c == '\'' ==> written(Inside::SingleQuotes, c) == seq!['\'', '\\', '\'', '\''],
        c != '\'' ==> written(Inside::SingleQuotes, c) == seq![c],
        c == '\'' || c == '\\' ==> written(Inside::FishQuotes, c) == seq!['\\', c],
        c != '\'' && c != '\\' ==> written(Inside::FishQuotes, c) == seq![c],
{
    reveal_strlit("'\\''");
    assert("'\\''"@ =~= seq!['\'', '\\', '\'', '\'']);
}

/// What is escaped, and how, in XML and in the units of systemd.
pub proof fn lemma_what_services_need_escaped(c: char)
    ensures
        written(Inside::Xml, '&') == "&amp;"@,
        written(Inside::Xml, '<') == "&lt;"@,
        written(Inside::Xml, '>') == "&gt;"@,
        written(Inside::Xml, '"') == "&quot;"@,
        written(Inside::Xml, '\'') == "&apos;"@,
        c != '&' && c != '<' && c != '>' && c != '"' && c != '\'' ==> written(Inside::Xml, c) == seq![c],
        c == '\\' || c == '"' ==> written(Inside::Systemd, c) == seq!['\\', c],
        c == '%' || c == '$' ==> written(Inside::Systemd, c) == seq![c, c],
        written(Inside::Systemd, '\n') == seq!['\\', 'n'],
        c != '\\' && c != '"' && c != '%' && c != '$' && c != '\n' ==> written(Inside::Systemd, c) == seq![c],
{
    reveal_strlit("\\n");
    assert("\\n"@ =~= seq!['\\', 'n']);
}

/// Texts are escaped character by character.
pub proof fn lemma_texts_are_escaped_throughout(inside: Inside, a: Seq<char>, b: Seq<char>, c: char)
    ensures
        escaped(inside, Seq::empty()) == Seq::<char>::empty(),
        escaped(inside, seq![c]) == written(inside, c),
        escaped(inside, a + b) == escaped(inside, a) + escaped(inside, b),
{
    lemma_mapping_characters(a, b, c, |c: char| written(inside, c));
}

// ---------------------------------------------------------------------------------------------
// Paths in hooks

/// What lies below the home directory is shown from there, going by its path, or by where the links
/// lead.
pub proof fn lemma_paths_are_shown_from_home(path: Seq<char>, home: Seq<char>, resolved: Resolved, tail: Seq<Seq<char>>)
    requires
        parts(home).len() > 0,
        parts(resolved.home@).len() > 0,
    ensures
        parts(path) == parts(home) + tail ==> {
            &&& below_home(path, home, None) is Some
            &&& below_home(path, home, Some(resolved)) == below_home(path, home, None)
            &&& names(below_home(path, home, None)->0) == tail
        },
        !parts(home).is_prefix_of(parts(path)) ==> below_home(path, home, None) is None,
        !parts(home).is_prefix_of(parts(path)) && parts(resolved.path@) == parts(resolved.home@) + tail ==> {
            &&& below_home(path, home, Some(resolved)) is Some
            &&& names(below_home(path, home, Some(resolved))->0) == tail
        },
        !parts(home).is_prefix_of(parts(path)) && !parts(resolved.home@).is_prefix_of(parts(resolved.path@)) ==> below_home(
            path,
            home,
            Some(resolved),
        ) is None,
{
    if parts(path) == parts(home) + tail {
        lemma_tail(path, home, tail);
    }
    if parts(resolved.path@) == parts(resolved.home@) + tail {
        lemma_tail(resolved.path@, resolved.home@, tail);
    }
}

proof fn lemma_tail(path: Seq<char>, home: Seq<char>, tail: Seq<Seq<char>>)
    requires
        parts(home).len() > 0,
        parts(path) == parts(home) + tail,
    ensures
        under(path, home),
        stripped(path, home) is Some,
        names(stripped(path, home)->0) == tail,
{
    let n = parts(home).len() as int;
    assert(parts(path).subrange(0, n) =~= parts(home));
    lemma_stripped(path, home);
    let rest = stripped(path, home)->0;
    assert((parts(home) + names(rest)).skip(n) =~= names(rest));
    assert((parts(home) + tail).skip(n) =~= tail);
}

/// How a path is shown: with `$HOME` for the home directory.
pub proof fn lemma_how_paths_are_shown(path: Seq<char>, home: Seq<char>, resolved: Option<Resolved>, rest: Seq<char>)
    ensures
        path_shown(path, None, resolved) == path,
        below_home(path, home, resolved) is None ==> path_shown(path, Some(home), resolved) == path,
        below_home(path, home, resolved) == Some(rest) && rest.len() == 0 ==> path_shown(path, Some(home), resolved) == "$HOME"@,
        below_home(path, home, resolved) == Some(rest) && rest.len() > 0 ==> path_shown(path, Some(home), resolved) == "$HOME/"@ + rest,
{
}

/// How a shell is told to run the executable: in double quotes below `$HOME`, or in single quotes by its
/// whole path, in each case with what that shell needs escaped.
pub proof fn lemma_how_the_executable_is_run(binary: Seq<char>, home: Seq<char>, resolved: Option<Resolved>, rest: Seq<char>)
    ensures
        below_home(binary, home, resolved) == Some(rest) && rest.len() > 0 ==> {
            &&& expression(Shell::Bash, binary, home, resolved) == "\"$HOME/"@ + escaped(Inside::DoubleQuotes { fish: false }, rest) + "\""@
            &&& expression(Shell::Zsh, binary, home, resolved) == "\"$HOME/"@ + escaped(Inside::DoubleQuotes { fish: false }, rest) + "\""@
            &&& expression(Shell::Fish, binary, home, resolved) == "\"$HOME/"@ + escaped(Inside::DoubleQuotes { fish: true }, rest) + "\""@
        },
        below_home(binary, home, resolved) == Some(rest) && rest.len() == 0 ==> {
            &&& expression(Shell::Bash, binary, home, resolved) == "\"$HOME\""@
            &&& expression(Shell::Zsh, binary, home, resolved) == "\"$HOME\""@
            &&& expression(Shell::Fish, binary, home, resolved) == "\"$HOME\""@
        },
        below_home(binary, home, resolved) is None ==> {
            &&& expression(Shell::Bash, binary, home, resolved) == "'"@ + escaped(Inside::SingleQuotes, binary) + "'"@
            &&& expression(Shell::Zsh, binary, home, resolved) == "'"@ + escaped(Inside::SingleQuotes, binary) + "'"@
            &&& expression(Shell::Fish, binary, home, resolved) == "'"@ + escaped(Inside::FishQuotes, binary) + "'"@
        },
{
    reveal_strlit("\"$HOME/");
    reveal_strlit("\"$HOME");
    reveal_strlit("\"$HOME\"");
    reveal_strlit("/");
    reveal_strlit("");
    reveal_strlit("\"");
    assert("\"$HOME/"@ =~= "\"$HOME"@ + "/"@);
    assert("\"$HOME\""@ =~= "\"$HOME"@ + ""@ + Seq::<char>::empty() + "\""@);
    if below_home(binary, home, resolved) == Some(rest) && rest.len() == 0 {
        assert(rest =~= Seq::empty());
        assert(mapped(rest, |c: char| written(Inside::DoubleQuotes { fish: true }, c)) =~= Seq::empty());
        assert(mapped(rest, |c: char| written(Inside::DoubleQuotes { fish: false }, c)) =~= Seq::empty());
    }
}

// ---------------------------------------------------------------------------------------------
// Startup files

/// The hook of each shell.
pub proof fn lemma_what_hooks_say(quoted: Seq<char>)
    ensures
        hook_text(Shell::Bash, quoted) == lines_text(
            seq![
                "# >>> filetrail completions >>>"@,
                "if [ -n \"${BASH_VERSION-}\" ] && [ -x "@ + quoted + " ]; then"@,
                "case $- in"@,
                "*i*) eval \"$("@ + quoted + " completions bash)\" ;;"@,
                "esac"@,
                "fi"@,
                "# <<< filetrail completions <<<"@,
            ],
        ),
        hook_text(Shell::Zsh, quoted) == lines_text(
            seq![
                "# >>> filetrail completions >>>"@,
                "if [[ -o interactive && -x "@ + quoted + " ]]; then"@,
                "if (( ! $+functions[compdef] )); then"@,
                "autoload -Uz compinit"@,
                "compinit -i"@,
                "fi"@,
                "if (( $+functions[compdef] )); then"@,
                "eval \"$("@ + quoted + " completions zsh)\""@,
                "fi"@,
                "fi"@,
                "# <<< filetrail completions <<<"@,
            ],
        ),
        hook_text(Shell::Fish, quoted) == lines_text(
            seq![
                "# >>> filetrail completions >>>"@,
                "if test -x "@ + quoted,
                quoted + " completions fish | source"@,
                "end"@,
                "# <<< filetrail completions <<<"@,
            ],
        ),
{
    assert(seq![BEGIN@] + crate::completion::body_lines(Shell::Bash, quoted) + seq![END@] =~= seq![
        "# >>> filetrail completions >>>"@,
        "if [ -n \"${BASH_VERSION-}\" ] && [ -x "@ + quoted + " ]; then"@,
        "case $- in"@,
        "*i*) eval \"$("@ + quoted + " completions bash)\" ;;"@,
        "esac"@,
        "fi"@,
        "# <<< filetrail completions <<<"@,
    ]);
    assert(seq![BEGIN@] + crate::completion::body_lines(Shell::Zsh, quoted) + seq![END@] =~= seq![
        "# >>> filetrail completions >>>"@,
        "if [[ -o interactive && -x "@ + quoted + " ]]; then"@,
        "if (( ! $+functions[compdef] )); then"@,
        "autoload -Uz compinit"@,
        "compinit -i"@,
        "fi"@,
        "if (( $+functions[compdef] )); then"@,
        "eval \"$("@ + quoted + " completions zsh)\""@,
        "fi"@,
        "fi"@,
        "# <<< filetrail completions <<<"@,
    ]);
    assert(seq![BEGIN@] + crate::completion::body_lines(Shell::Fish, quoted) + seq![END@] =~= seq![
        "# >>> filetrail completions >>>"@,
        "if test -x "@ + quoted,
        quoted + " completions fish | source"@,
        "end"@,
        "# <<< filetrail completions <<<"@,
    ]);
}

/// The login profile of Bash is the first that stands there, and else the first of all; one that cannot
/// be looked at before that is why none is found.
pub proof fn lemma_the_first_login_profile_counts(profiles: Seq<Seq<char>>, looks: Seq<Look>, i: int, k: int)
    requires
        0 <= i <= k <= profiles.len(),
        forall|j: int| i <= j < k ==> #[trigger] looks[j] is Missing,
    ensures
        k == profiles.len() ==> login_profile(profiles, looks, i) == Ok::<Seq<char>, Seq<char>>(profiles[0]),
        k < profiles.len() ==> match looks[k] {
            Look::Missing => true,
            Look::Failed(error) => login_profile(profiles, looks, i) == Err::<Seq<char>, Seq<char>>(error@),
            _ => login_profile(profiles, looks, i) == Ok::<Seq<char>, Seq<char>>(profiles[k]),
        },
    decreases k - i,
{
    if i < k {
        assert(looks[i] is Missing);
        lemma_the_first_login_profile_counts(profiles, looks, i + 1, k);
    }
}

/// Which startup files each shell has.
pub proof fn lemma_which_startup_files_there_are(home: Seq<char>, other: Seq<char>, zsh: Option<Seq<char>>, config: Option<Seq<char>>, looks: Seq<Look>)
    requires
        other.len() > 0,
    ensures
        login_profiles(home) == seq![joined(home, ".bash_profile"@), joined(home, ".bash_login"@), joined(home, ".profile"@)],
        login_profile(login_profiles(home), looks, 0) is Ok ==> startup_paths(Shell::Bash, home, zsh, config, looks) == Ok::<Seq<Seq<char>>, Seq<char>>(
            seq![joined(home, ".bashrc"@), login_profile(login_profiles(home), looks, 0)->Ok_0],
        ),
        login_profile(login_profiles(home), looks, 0) is Err ==> startup_paths(Shell::Bash, home, zsh, config, looks) == Err::<Seq<Seq<char>>, Seq<char>>(
            login_profile(login_profiles(home), looks, 0)->Err_0,
        ),
        startup_paths(Shell::Zsh, home, None, config, looks) == Ok::<Seq<Seq<char>>, Seq<char>>(seq![joined(home, ".zshrc"@)]),
        startup_paths(Shell::Zsh, home, Some(other), config, looks) == Ok::<Seq<Seq<char>>, Seq<char>>(seq![joined(other, ".zshrc"@)]),
        startup_paths(Shell::Fish, home, zsh, None, looks) == Ok::<Seq<Seq<char>>, Seq<char>>(
            seq![
                joined(joined(joined(home, ".config"@), "fish"@), "completions/filetrail.fish"@),
                joined(joined(joined(home, ".config"@), "fish"@), "functions/filetrail.fish"@),
            ],
        ),
        startup_paths(Shell::Fish, home, zsh, Some(other), looks) == Ok::<Seq<Seq<char>>, Seq<char>>(
            seq![joined(joined(other, "fish"@), "completions/filetrail.fish"@), joined(joined(other, "fish"@), "functions/filetrail.fish"@)],
        ),
        startup_paths(Shell::Other, home, zsh, config, looks) is Err,
{
}

/// The environment names a directory only where it names something.
pub proof fn lemma_empty_names_name_nothing(value: Seq<char>, fallback: Seq<char>)
    ensures
        chosen_directory(None, fallback) == fallback,
        value.len() == 0 ==> chosen_directory(Some(value), fallback) == fallback,
        value.len() > 0 ==> chosen_directory(Some(value), fallback) == value,
{
}

/// A startup file is made where there is none and gets its hook where it has a text. Of every other, and
/// of one with a broken hook, the user is told why it is left alone.
pub proof fn lemma_what_becomes_of_a_startup_file(shown: Seq<char>, found: Startup, hook: Seq<char>)
    ensures
        found is Missing ==> update_of(shown, found, hook) == Ok::<Seq<char>, Seq<char>>(hook),
        match found {
            Startup::Missing => true,
            Startup::Text { shown: resolved, text } => match hooked(text@, hook) {
                Ok(new) => update_of(shown, found, hook) == Ok::<Seq<char>, Seq<char>>(new),
                Err(why) => update_of(shown, found, hook) == Err::<Seq<char>, Seq<char>>(
                    "invalid FileTrail completion block in "@ + resolved@ + ": "@ + why,
                ),
            },
            Startup::Failed(error) => update_of(shown, found, hook) == Err::<Seq<char>, Seq<char>>(error@),
            Startup::Unresolved(error) => update_of(shown, found, hook) == Err::<Seq<char>, Seq<char>>("cannot resolve "@ + shown + ": "@ + error@),
            Startup::Irregular => update_of(shown, found, hook) == Err::<Seq<char>, Seq<char>>(shown + " is not a regular file"@),
            Startup::Unreadable(error) => update_of(shown, found, hook) == Err::<Seq<char>, Seq<char>>("cannot read "@ + shown + ": "@ + error@),
        },
{
    assert(marks(Seq::<char>::empty()) =~= Seq::empty());
    assert(Seq::<char>::empty() + hook =~= hook);
}

// ---------------------------------------------------------------------------------------------
// Services

/// Which programs are run: systemd reads its units again and switches the unit, launchd takes the
/// definition in.
pub proof fn lemma_which_programs_are_run(root: Seq<char>, verb: Seq<char>, domain: Seq<char>, location: Seq<char>)
    ensures
        reload() == (InvocationView { program: "systemctl"@, arguments: seq!["--user"@, "daemon-reload"@] }),
        switch(verb, root) == (InvocationView {
            program: "systemctl"@,
            arguments: seq!["--user"@, verb, "--now"@, identity_of(root) + ".service"@],
        }),
        launch(verb, domain, location) == (InvocationView { program: "launchctl"@, arguments: seq![verb, domain, location] }),
{
}

/// The service of a data directory is named by the hash of its path, and its definition stands where the
/// system looks for it.
pub proof fn lemma_where_services_are_defined(root: Seq<char>, home: Seq<char>, config: Seq<char>, other: Option<Seq<char>>)
    ensures
        identity_of(root) == "filetrail-"@ + blake3_hex(encode_utf8(root)).take(12),
        place(root, Some(home), other, true) == Ok::<Seq<char>, Seq<char>>(
            joined(joined(home, "Library/LaunchAgents"@), "filetrail-"@ + blake3_hex(encode_utf8(root)).take(12) + ".plist"@),
        ),
        place(root, Some(home), Some(config), false) == Ok::<Seq<char>, Seq<char>>(
            joined(joined(config, "systemd/user"@), "filetrail-"@ + blake3_hex(encode_utf8(root)).take(12) + ".service"@),
        ),
        place(root, None, other, true) is Err,
        place(root, None, other, false) is Err,
        place(root, Some(home), None, false) is Err,
{
}

/// What a unit of systemd says: it runs the executable with the data directory, and again where it
/// fails.
pub proof fn lemma_what_units_say(root: Seq<char>, executable: Seq<char>)
    ensures
        definition(root, executable, false) == lines_text(
            seq![
                "[Unit]"@,
                "Description=Filetrail file synchronization"@,
                ""@,
                "[Service]"@,
                "Type=simple"@,
                "ExecStart="@ + ("\""@ + escaped(Inside::Systemd, executable) + "\""@) + " --data-dir "@ + ("\""@ + escaped(Inside::Systemd, root) + "\""@)
                    + " daemon run"@,
                "Restart=on-failure"@,
                "RestartSec=3"@,
                ""@,
                "[Install]"@,
                "WantedBy=default.target"@,
            ],
        ),
{
}

/// What a definition for launchd says: it runs the executable with the data directory, at once and for
/// good, and its errors go to the data directory.
pub proof fn lemma_what_definitions_say(root: Seq<char>, executable: Seq<char>)
    ensures
        definition(root, executable, true)
            == "<?xml version=\"1.0\" encoding=\"UTF-8\"?>\n<!DOCTYPE plist PUBLIC \"-//Apple//DTD PLIST 1.0//EN\" \"http://www.apple.com/DTDs/PropertyList-1.0.dtd\">\n<plist version=\"1.0\"><dict>\n<key>Label</key><string>"@
            + identity_of(root) + "</string>\n<key>ProgramArguments</key><array><string>"@ + escaped(Inside::Xml, executable)
            + "</string><string>--data-dir</string><string>"@ + escaped(Inside::Xml, root)
            + "</string><string>daemon</string><string>run</string></array>\n<key>RunAtLoad</key><true/>\n<key>KeepAlive</key><true/>\n<key>StandardErrorPath</key><string>"@
            + escaped(Inside::Xml, joined(root, "service-error.log"@)) + "</string>\n</dict></plist>\n"@,
{
}

} // verus!
