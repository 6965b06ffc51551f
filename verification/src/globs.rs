//! Exclusion patterns.
use vstd::prelude::*;
use vstd::utf8::encode_utf8;

use crate::error::Error;
use crate::text::views;

verus! {

#[verifier::external_type_specification]
#[verifier::external_body]
pub struct ExGlob(globset::Glob);

#[verifier::external_type_specification]
#[verifier::external_body]
pub struct ExGlobSet(globset::GlobSet);

/// Whether `globset::Glob::new` accepts a pattern, and the text of its error where it does not.
pub uninterp spec fn glob_parse(pattern: Seq<char>) -> Result<(), Seq<char>>;

/// Whether `globset::GlobSet::new` accepts patterns that were parsed, and the text of its error
/// where it does not.
pub uninterp spec fn glob_build(patterns: Seq<Seq<char>>) -> Result<(), Seq<char>>;

/// The pattern that a glob was made from.
pub uninterp spec fn glob_text(glob: globset::Glob) -> Seq<char>;

/// The patterns that a set of globs holds.
pub uninterp spec fn glob_patterns(set: globset::GlobSet) -> Seq<Seq<char>>;

/// Whether the glob made from a pattern matches a path, which is given by its bytes.
pub uninterp spec fn glob_matches(pattern: Seq<char>, path: Seq<u8>) -> bool;

/// `globset::Glob::new` parses a pattern with the default options. The outcome, and the text of
/// the error, depend on the pattern alone; the glob keeps the pattern.
#[verifier::external_body]
fn parse_glob(pattern: &str) -> (r: Result<globset::Glob, String>)
    ensures
        match r {
            Ok(glob) => glob_parse(pattern@) == Ok::<(), Seq<char>>(()) && glob_text(glob) == pattern@,
            Err(text) => glob_parse(pattern@) == Err::<(), Seq<char>>(text@),
        },
{
    globset::Glob::new(pattern).map_err(|error| error.to_string())
}

/// The patterns of a list of globs.
pub open spec fn glob_texts(globs: Seq<globset::Glob>) -> Seq<Seq<char>> {
    globs.map_values(|glob: globset::Glob| glob_text(glob))
}

/// `globset::GlobSet::new` compiles globs into one set. The outcome, and the text of the error,
/// depend on the patterns alone; the set holds the globs that it was given. A set of no globs is
/// always accepted.
#[verifier::external_body]
fn build_globs(globs: &Vec<globset::Glob>) -> (r: Result<globset::GlobSet, String>)
    ensures
        match r {
            Ok(set) => glob_build(glob_texts(globs@)) == Ok::<(), Seq<char>>(()) && glob_patterns(set) == glob_texts(globs@),
            Err(text) => glob_build(glob_texts(globs@)) == Err::<(), Seq<char>>(text@),
        },
        globs@.len() == 0 ==> r is Ok,
{
    globset::GlobSet::new(globs.iter()).map_err(|error| error.to_string())
}

/// Whether one of the patterns matches a path.
pub open spec fn matches_any(patterns: Seq<Seq<char>>, path: Seq<u8>) -> bool {
    exists|k: int| 0 <= k < patterns.len() && #[trigger] glob_matches(patterns[k], path)
}

/// `globset::GlobSet::is_match_candidate`, with the candidate that `globset::Candidate::from_bytes`
/// makes of the bytes of a path, tells whether any glob of the set matches the path.
#[verifier::external_body]
pub(crate) fn is_match(set: &globset::GlobSet, path: &[u8]) -> (r: bool)
    ensures
        r == (exists|k: int| 0 <= k < glob_patterns(*set).len() && #[trigger] glob_matches(glob_patterns(*set)[k], path@)),
{
    set.is_match_candidate(&globset::Candidate::from_bytes(path))
}

/// Why the patterns from position `i` on are refused one by one: the first that does not parse.
pub open spec fn parse_refusal(patterns: Seq<Seq<char>>, i: int) -> Option<Seq<char>>
    decreases patterns.len() - i,
{
    if i < 0 || i >= patterns.len() {
        None
    } else {
        match glob_parse(patterns[i]) {
            Err(text) => Some(text),
            Ok(_) => parse_refusal(patterns, i + 1),
        }
    }
}

/// Why patterns are refused: one does not parse, or they cannot be compiled together. Without
/// patterns there is no reason.
pub open spec fn refusal(patterns: Seq<Seq<char>>) -> Option<Seq<char>> {
    if patterns.len() == 0 {
        None
    } else {
        match parse_refusal(patterns, 0) {
            Some(text) => Some(text),
            None => match glob_build(patterns) {
                Err(text) => Some(text),
                Ok(_) => None,
            },
        }
    }
}

/// Compiles exclusion patterns.
pub fn exclusions(patterns: &[String]) -> (r: Result<globset::GlobSet, Error>)
    ensures
        match r {
            Ok(set) => refusal(views(patterns@)) is None && glob_patterns(set) == views(patterns@),
            Err(error) => refusal(views(patterns@)) == Some(error@),
        },
{
    let mut globs: Vec<globset::Glob> = Vec::new();
    let mut i: usize = 0;
    while i < patterns.len()
        invariant
            i <= patterns@.len(),
            globs@.len() == i,
            forall|k: int| 0 <= k < i ==> glob_text(#[trigger] globs@[k]) == patterns@[k]@,
            parse_refusal(views(patterns@), 0) == parse_refusal(views(patterns@), i as int),
        decreases patterns@.len() - i,
    {
        assert(views(patterns@)[i as int] == patterns@[i as int]@);
        match parse_glob(patterns[i].as_str()) {
            Ok(glob) => globs.push(glob),
            Err(text) => return Err(Error { text }),
        }
        i = i + 1;
    }
    assert(glob_texts(globs@) =~= views(patterns@));
    match build_globs(&globs) {
        Ok(set) => Ok(set),
        Err(text) => Err(Error { text }),
    }
}

/// Whether one of the paths is matched.
pub open spec fn matches_one_of(patterns: Seq<Seq<char>>, paths: Seq<Seq<char>>) -> bool {
    exists|k: int| 0 <= k < paths.len() && matches_any(patterns, encode_utf8(#[trigger] paths[k]))
}

/// Whether one of the paths is matched.
pub fn is_match_one_of(set: &globset::GlobSet, paths: &Vec<String>) -> (r: bool)
    ensures
        r == matches_one_of(glob_patterns(*set), views(paths@)),
{
    let mut i: usize = 0;
    while i < paths.len()
        invariant
            i <= paths@.len(),
            forall|k: int| 0 <= k < i ==> !matches_any(glob_patterns(*set), encode_utf8(#[trigger] views(paths@)[k])),
        decreases paths@.len() - i,
    {
        assert(views(paths@)[i as int] == paths@[i as int]@);
        if is_match(set, paths[i].as_str().as_bytes()) {
            assert(matches_any(glob_patterns(*set), encode_utf8(views(paths@)[i as int])));
            return true;
        }
        i = i + 1;
    }
    false
}

/// More patterns exclude more: a path that is matched stays matched when patterns are added.
pub proof fn lemma_more_patterns_match_more(patterns: Seq<Seq<char>>, added: Seq<Seq<char>>, path: Seq<u8>)
    requires
        matches_any(patterns, path),
    ensures
        matches_any(patterns + added, path),
        matches_any(added + patterns, path),
{
    let k = choose|k: int| 0 <= k < patterns.len() && #[trigger] glob_matches(patterns[k], path);
    assert((patterns + added)[k] == patterns[k]);
    assert((added + patterns)[added.len() + k] == patterns[k]);
}

} // verus!
