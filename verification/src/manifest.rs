//! Lists of sources.
use vstd::prelude::*;

use crate::error::{outcome, Error};
use crate::text::{characters, decimal, number, views};

verus! {

/// The words that `shlex::split` finds in a line, where its quoting is complete.
pub uninterp spec fn shell_words(line: Seq<char>) -> Option<Seq<Seq<char>>>;

/// `shlex::split` splits a line into words as a shell does, with quotes, escapes and comments, and
/// gives none where a quote or an escape is left open. The result depends on the line alone.
#[verifier::external_body]
fn split(line: &str) -> (r: Option<Vec<String>>)
    ensures
        match r {
            Some(words) => shell_words(line@) == Some(views(words@)),
            None => shell_words(line@) is None,
        },
{
    shlex::split(line)
}

/// Whether a text holds a character.
pub open spec fn holds(s: Seq<char>, c: char) -> bool {
    exists|i: int| 0 <= i < s.len() && s[i] == c
}

/// What the words of a line stand for: nothing, a source, or an error.
pub open spec fn line_source(words: Option<Seq<Seq<char>>>) -> Result<Option<Seq<char>>, Seq<char>> {
    match words {
        None => Err("invalid quoting or trailing escape in file list"@),
        Some(words) => if words.len() == 0 {
            Ok(None)
        } else if words.len() != 1 {
            Err("expected one source per line; quote paths containing spaces; custom targets are not supported"@)
        } else if words[0].len() == 0 || holds(words[0], '\0') {
            Err("source must be a nonempty path without NUL characters"@)
        } else {
            Ok(Some(words[0]))
        },
    }
}

/// What a reading gives, over views.
pub open spec fn reading(r: Result<Option<String>, Error>) -> Result<Option<Seq<char>>, Seq<char>> {
    match r {
        Ok(Some(text)) => Ok(Some(text@)),
        Ok(None) => Ok(None),
        Err(error) => Err(error@),
    }
}

/// Reads the source that the words of a line stand for.
pub fn parse_words(words: &Option<Vec<String>>) -> (r: Result<Option<String>, Error>)
    ensures
        reading(r) == line_source(
            match words {
                Some(words) => Some(views(words@)),
                None => None,
            },
        ),
{
    let words = match words {
        Some(words) => words,
        None => return Err(Error::new("invalid quoting or trailing escape in file list")),
    };
    assert(views(words@).len() == words@.len());
    if words.len() == 0 {
        return Ok(None);
    }
    if words.len() != 1 {
        return Err(
            Error::new("expected one source per line; quote paths containing spaces; custom targets are not supported"),
        );
    }
    let text = characters(words[0].as_str());
    assert(views(words@)[0] == text@);
    let mut nul = false;
    let mut i: usize = 0;
    while i < text.len()
        invariant
            i <= text@.len(),
            nul == exists|k: int| 0 <= k < i && text@[k] == '\0',
        decreases text@.len() - i,
    {
        if text[i] == '\0' {
            nul = true;
        }
        i = i + 1;
    }
    if text.len() == 0 || nul {
        return Err(Error::new("source must be a nonempty path without NUL characters"));
    }
    Ok(Some(words[0].clone()))
}

/// Reads one source per line, with quotes for white space in paths. The line is only split into
/// words: nothing in it is run or expanded.
pub fn parse_line(line: &str) -> (r: Result<Option<String>, Error>)
    ensures
        reading(r) == line_source(shell_words(line@)),
{
    parse_words(&split(line))
}

/// A failure told with the line of the list that it is about.
pub fn at_line(error: Error, list: &str, line: u64) -> (r: Error)
    ensures
        r@ == line_failure(list@, line as nat, error@),
{
    error.within(list.to_owned().concat(":").concat(number(line).as_str()).as_str())
}

/// The text of a failure on a line of a list.
pub open spec fn line_failure(list: Seq<char>, line: nat, text: Seq<char>) -> Seq<char> {
    list + ":"@ + decimal(line) + ": "@ + text
}

/// Reads a line of a list.
pub fn list_step(list: &str, line: u64, text: &str) -> (r: Result<Option<String>, Error>)
    ensures
        match line_source(shell_words(text@)) {
            Err(failure) => r is Err && r->Err_0@ == line_failure(list@, line as nat, failure),
            Ok(source) => reading(r) == Ok::<Option<Seq<char>>, Seq<char>>(source),
        },
{
    match parse_line(text) {
        Ok(source) => Ok(source),
        Err(error) => Err(at_line(error, list, line)),
    }
}

/// The sources that the lines of a list stand for, from line `i` on, where `resolved` tells for each
/// line where its source lies: the first failure is the result.
pub open spec fn gathered(
    list: Seq<char>,
    lines: Seq<Result<Option<Seq<char>>, Seq<char>>>,
    resolved: Seq<Result<Seq<char>, Seq<char>>>,
    i: int,
) -> Result<Seq<Seq<char>>, Seq<char>>
    decreases lines.len() - i,
{
    if i < 0 || i >= lines.len() {
        Ok(Seq::empty())
    } else {
        match lines[i] {
            Err(text) => Err(line_failure(list, (i + 1) as nat, text)),
            Ok(None) => gathered(list, lines, resolved, i + 1),
            Ok(Some(_)) => match resolved[i] {
                Err(text) => Err(line_failure(list, (i + 1) as nat, text)),
                Ok(place) => match gathered(list, lines, resolved, i + 1) {
                    Err(text) => Err(text),
                    Ok(rest) => Ok(seq![place] + rest),
                },
            },
        }
    }
}

/// What the lines of a list stand for.
pub open spec fn line_sources(lines: Seq<Seq<char>>) -> Seq<Result<Option<Seq<char>>, Seq<char>>> {
    lines.map_values(|line: Seq<char>| line_source(shell_words(line)))
}

/// What results say, over views.
pub open spec fn outcomes(list: Seq<Result<String, Error>>) -> Seq<Result<Seq<char>, Seq<char>>> {
    list.map_values(|r: Result<String, Error>| outcome(r))
}

/// Gathers the sources of a list. Its lines are numbered from 1 on, those without a source are passed
/// over, and the first failure is the result. `resolved` tells for each line where its source lies.
pub fn gather(list: &str, lines: &Vec<String>, resolved: &Vec<Result<String, Error>>) -> (r: Result<Vec<String>, Error>)
    requires
        resolved@.len() == lines@.len(),
    ensures
        match r {
            Ok(sources) => gathered(list@, line_sources(views(lines@)), outcomes(resolved@), 0) == Ok::<Seq<Seq<char>>, Seq<char>>(
                views(sources@),
            ),
            Err(error) => gathered(list@, line_sources(views(lines@)), outcomes(resolved@), 0) == Err::<Seq<Seq<char>>, Seq<char>>(error@),
        },
{
    let ghost all = line_sources(views(lines@));
    let ghost places = outcomes(resolved@);
    let count: usize = lines.len();
    let mut sources: Vec<String> = Vec::new();
    let mut i: usize = 0;
    assert(views(sources@) =~= Seq::<Seq<char>>::empty());
    proof {
        match gathered(list@, all, places, 0) {
            Ok(rest) => assert(views(sources@) + rest =~= rest),
            Err(_) => {},
        }
    }
    while i < lines.len()
        invariant
            all == line_sources(views(lines@)),
            places == outcomes(resolved@),
            count == lines@.len(),
            resolved@.len() == lines@.len(),
            i <= lines@.len(),
            gathered(list@, all, places, 0) == (match gathered(list@, all, places, i as int) {
                Ok(rest) => Ok(views(sources@) + rest),
                Err(text) => Err(text),
            }),
        decreases lines@.len() - i,
    {
        assert(all[i as int] == line_source(shell_words(lines@[i as int]@)));
        assert(places[i as int] == outcome(resolved@[i as int]));
        let line: u64 = i as u64 + 1;
        match list_step(list, line, lines[i].as_str()) {
            Err(error) => return Err(error),
            Ok(None) => (),
            Ok(Some(_)) => match &resolved[i] {
                Err(error) => return Err(at_line(Error { text: error.text.clone() }, list, line)),
                Ok(place) => {
                    let ghost prior = views(sources@);
                    sources.push(place.clone());
                    proof {
                        assert(views(sources@) =~= prior.push(place@));
                        match gathered(list@, all, places, i + 1) {
                            Ok(rest) => assert(prior + (seq![place@] + rest) =~= views(sources@) + rest),
                            Err(_) => {},
                        }
                    }
                },
            },
        }
        i = i + 1;
    }
    assert(views(sources@) + Seq::<Seq<char>>::empty() =~= views(sources@));
    Ok(sources)
}

/// A list is taken as a whole or not at all: where a line fails, the result is a failure.
pub proof fn lemma_one_bad_line_refuses_the_list(
    list: Seq<char>,
    lines: Seq<Result<Option<Seq<char>>, Seq<char>>>,
    resolved: Seq<Result<Seq<char>, Seq<char>>>,
    from: int,
    i: int,
)
    requires
        0 <= from <= i < lines.len(),
        lines[i] is Err || (lines[i]->Ok_0 is Some && resolved[i] is Err),
    ensures
        gathered(list, lines, resolved, from) is Err,
    decreases i - from,
{
    if from < i {
        lemma_one_bad_line_refuses_the_list(list, lines, resolved, from + 1, i);
    }
}

} // verus!
