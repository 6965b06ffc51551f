//! Lists of sources.
use filetrail::error::Error;
use filetrail::manifest::{at_line, gather, list_step, parse_line, parse_words};

#[test]
fn parses_sources_quotes_escapes_and_comments() {
    for (line, source) in [
        ("~/.zshrc", "~/.zshrc"),
        (" /opt/scripts  ", "/opt/scripts"),
        ("\"My Notes\"", "My Notes"),
        ("My\\ Notes", "My Notes"),
        ("\"file\\\"name\"", "file\"name"),
        ("'hash#file' # comment", "hash#file"),
        ("\"$HOME/$(command)\"", "$HOME/$(command)"),
    ] {
        assert_eq!(
            parse_line(line).unwrap(),
            Some(source.to_owned()),
            "{line}"
        );
    }
    assert_eq!(parse_line("  # comment").unwrap(), None);
    assert_eq!(parse_line("   ").unwrap(), None);
}

#[test]
fn rejects_ambiguous_and_malformed_entries() {
    for line in [
        "a b c",
        "source target",
        "source\ttarget",
        "\"\"",
        "\"unterminated",
        "'unterminated",
        "source \\",
        "\"\" target",
        "source ''",
        "source\0",
    ] {
        assert!(parse_line(line).is_err(), "{line:?}");
    }
}

#[test]
fn each_error_has_its_text() {
    assert_eq!(parse_words(&None).unwrap_err().text, "invalid quoting or trailing escape in file list");
    assert_eq!(
        parse_words(&Some(vec!["a".to_owned(), "b".to_owned()])).unwrap_err().text,
        "expected one source per line; quote paths containing spaces; custom targets are not supported"
    );
    for word in ["", "a\0b"] {
        assert_eq!(
            parse_words(&Some(vec![word.to_owned()])).unwrap_err().text,
            "source must be a nonempty path without NUL characters"
        );
    }
    assert_eq!(parse_words(&Some(vec![])).unwrap(), None);
    assert_eq!(parse_words(&Some(vec!["a".to_owned()])).unwrap(), Some("a".to_owned()));
    assert_eq!(at_line(Error::new("bad"), "/l.txt", 12).text, "/l.txt:12: bad");
}

fn lines(text: &[&str]) -> Vec<String> {
    text.iter().map(|line| line.to_string()).collect()
}

#[test]
fn each_line_is_read_under_its_number() {
    assert_eq!(list_step("l", 7, "'a b'").unwrap(), Some("a b".to_owned()));
    assert_eq!(list_step("l", 7, "# nothing").unwrap(), None);
    assert_eq!(
        list_step("l", 7, "'open").unwrap_err().text,
        "l:7: invalid quoting or trailing escape in file list"
    );
}

#[test]
fn lists_are_gathered_or_refused_as_a_whole() {
    let found = |path: &str| -> Result<String, Error> { Ok(path.to_owned()) };
    let missing = || -> Result<String, Error> { Err(Error::new("no such file")) };
    let text = lines(&["a", "", "# comment", "b"]);
    assert_eq!(gather("l", &text, &vec![found("/a"), missing(), missing(), found("/b")]).unwrap(), ["/a", "/b"]);
    assert_eq!(
        gather("l", &text, &vec![found("/a"), missing(), missing(), missing()]).unwrap_err().text,
        "l:4: no such file"
    );
    let broken = lines(&["a", "b c", "d"]);
    assert_eq!(
        gather("l", &broken, &vec![found("/a"), missing(), missing()]).unwrap_err().text,
        "l:2: expected one source per line; quote paths containing spaces; custom targets are not supported"
    );
    assert_eq!(
        gather("l", &broken, &vec![missing(), missing(), missing()]).unwrap_err().text,
        "l:1: no such file"
    );
    assert!(gather("l", &vec![], &vec![]).unwrap().is_empty());
}
