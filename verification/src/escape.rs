//! Writing arbitrary text inside shell scripts and service definitions.
use vstd::prelude::*;

use crate::text::{characters, mapped};

verus! {

/// What a text is written into.
#[derive(Clone, Copy, Debug, PartialEq, Eq, Structural)]
pub enum Inside {
    /// Double quotes of a shell, in which a backquote has no meaning where `fish` is set.
    DoubleQuotes { fish: bool },
    /// Single quotes of a shell.
    SingleQuotes,
    /// Single quotes of fish.
    FishQuotes,
    /// XML text.
    Xml,
    /// A quoted argument of a systemd unit.
    Systemd,
}

/// How a character is written.
pub open spec fn written(inside: Inside, c: char) -> Seq<char> {
    match inside {
        Inside::DoubleQuotes { fish } => if c == '\\' || c == '"' || c == '$' || (c == '`' && !fish) {
            seq!['\\', c]
        } else {
            seq![c]
        },
        Inside::SingleQuotes => if c == '\'' {
            "'\\''"@
        } else {
            seq![c]
        },
        Inside::FishQuotes => if c == '\\' || c == '\'' {
            seq!['\\', c]
        } else {
            seq![c]
        },
        Inside::Xml => if c == '&' {
            "&amp;"@
        } else if c == '<' {
            "&lt;"@
        } else if c == '>' {
            "&gt;"@
        } else if c == '"' {
            "&quot;"@
        } else if c == '\'' {
            "&apos;"@
        } else {
            seq![c]
        },
        Inside::Systemd => if c == '\\' || c == '"' {
            seq!['\\', c]
        } else if c == '%' || c == '$' {
            seq![c, c]
        } else if c == '\n' {
            "\\n"@
        } else {
            seq![c]
        },
    }
}

/// How a text is written.
pub open spec fn escaped(inside: Inside, s: Seq<char>) -> Seq<char> {
    mapped(s, |c: char| written(inside, c))
}

fn write_one(out: &mut String, c: char)
    ensures
        final(out)@ == old(out)@ + seq![c],
{
    out.push(c);
    assert(out@ =~= old(out)@ + seq![c]);
}

fn write_two(out: &mut String, a: char, b: char)
    ensures
        final(out)@ == old(out)@ + seq![a, b],
{
    out.push(a);
    out.push(b);
    assert(out@ =~= old(out)@ + seq![a, b]);
}

fn write(out: &mut String, inside: Inside, c: char)
    ensures
        final(out)@ == old(out)@ + written(inside, c),
{
    match inside {
        Inside::DoubleQuotes { fish } => if c == '\\' || c == '"' || c == '$' || (c == '`' && !fish) {
            write_two(out, '\\', c);
        } else {
            write_one(out, c);
        },
        Inside::SingleQuotes => if c == '\'' {
            out.append("'\\''");
        } else {
            write_one(out, c);
        },
        Inside::FishQuotes => if c == '\\' || c == '\'' {
            write_two(out, '\\', c);
        } else {
            write_one(out, c);
        },
        Inside::Xml => if c == '&' {
            out.append("&amp;");
        } else if c == '<' {
            out.append("&lt;");
        } else if c == '>' {
            out.append("&gt;");
        } else if c == '"' {
            out.append("&quot;");
        } else if c == '\'' {
            out.append("&apos;");
        } else {
            write_one(out, c);
        },
        Inside::Systemd => if c == '\\' || c == '"' {
            write_two(out, '\\', c);
        } else if c == '%' || c == '$' {
            write_two(out, c, c);
        } else if c == '\n' {
            out.append("\\n");
        } else {
            write_one(out, c);
        },
    }
}

/// Writes a text so that it stands for itself.
pub fn escape(inside: Inside, s: &str) -> (r: String)
    ensures
        r@ == escaped(inside, s@),
{
    let text = characters(s);
    let ghost rule = |c: char| written(inside, c);
    let mut out = String::new();
    let mut i: usize = 0;
    assert(s@.take(0).len() == 0);
    while i < text.len()
        invariant
            text@ == s@,
            rule == (|c: char| written(inside, c)),
            i <= text@.len(),
            out@ == mapped(s@.take(i as int), rule),
        decreases text@.len() - i,
    {
        write(&mut out, inside, text[i]);
        assert(s@.take(i + 1).drop_last() =~= s@.take(i as int));
        assert(s@.take(i + 1).last() == s@[i as int]);
        i = i + 1;
    }
    assert(s@.take(i as int) =~= s@);
    out
}

/// A text written into XML holds no markup: no angle bracket and no quote.
pub proof fn lemma_xml_text_holds_no_markup(s: Seq<char>)
    ensures
        forall|i: int| 0 <= i < escaped(Inside::Xml, s).len() ==> {
            let c = #[trigger] escaped(Inside::Xml, s)[i];
            c != '<' && c != '>' && c != '"' && c != '\''
        },
    decreases s.len(),
{
    if s.len() > 0 {
        let rule = |c: char| written(Inside::Xml, c);
        lemma_xml_text_holds_no_markup(s.drop_last());
        reveal_strlit("&amp;");
        reveal_strlit("&lt;");
        reveal_strlit("&gt;");
        reveal_strlit("&quot;");
        reveal_strlit("&apos;");
        let head = escaped(Inside::Xml, s.drop_last());
        let tail = written(Inside::Xml, s.last());
        assert(escaped(Inside::Xml, s) == head + tail);
        assert forall|i: int| 0 <= i < (head + tail).len() implies {
            let c = #[trigger] (head + tail)[i];
            c != '<' && c != '>' && c != '"' && c != '\''
        } by {
            if i < head.len() {
                assert((head + tail)[i] == head[i]);
            } else {
                assert((head + tail)[i] == tail[i - head.len()]);
            }
        }
    }
}

/// A text written into a systemd unit stays on one line.
pub proof fn lemma_systemd_arguments_stay_on_one_line(s: Seq<char>)
    ensures
        forall|i: int| 0 <= i < escaped(Inside::Systemd, s).len() ==> #[trigger] escaped(Inside::Systemd, s)[i] != '\n',
    decreases s.len(),
{
    if s.len() > 0 {
        lemma_systemd_arguments_stay_on_one_line(s.drop_last());
        reveal_strlit("\\n");
        let head = escaped(Inside::Systemd, s.drop_last());
        let tail = written(Inside::Systemd, s.last());
        assert(escaped(Inside::Systemd, s) == head + tail);
        assert forall|i: int| 0 <= i < (head + tail).len() implies #[trigger] (head + tail)[i] != '\n' by {
            if i >= head.len() {
                assert((head + tail)[i] == tail[i - head.len()]);
            } else {
                assert((head + tail)[i] == head[i]);
            }
        }
    }
}

/// A text is written from its first character on.
proof fn lemma_escaped_first(inside: Inside, s: Seq<char>)
    requires
        s.len() > 0,
    ensures
        escaped(inside, s) == written(inside, s[0]) + escaped(inside, s.skip(1)),
    decreases s.len(),
{
    let rule = |c: char| written(inside, c);
    let init = s.drop_last();
    let rest = s.skip(1);
    if s.len() == 1 {
        assert(init =~= Seq::empty());
        assert(rest =~= Seq::empty());
        assert(mapped(init, rule) =~= Seq::empty());
        assert(mapped(rest, rule) =~= Seq::empty());
        assert(escaped(inside, s) =~= written(inside, s[0]) + escaped(inside, rest));
    } else {
        lemma_escaped_first(inside, init);
        assert(init.skip(1) =~= rest.drop_last());
        assert(rest.last() == s.last());
        assert(escaped(inside, s) =~= written(inside, s[0]) + escaped(inside, rest));
    }
}

/// How a character is written tells which it is, whatever follows.
proof fn lemma_written_tells(inside: Inside, a: char, b: char, x: Seq<char>, y: Seq<char>)
    requires
        inside == Inside::Xml || inside == Inside::Systemd,
        written(inside, a) + x == written(inside, b) + y,
    ensures
        a == b,
        x == y,
{
    reveal_strlit("&amp;");
    reveal_strlit("&lt;");
    reveal_strlit("&gt;");
    reveal_strlit("&quot;");
    reveal_strlit("&apos;");
    reveal_strlit("\\n");
    let s = written(inside, a) + x;
    let t = written(inside, b) + y;
    let m = written(inside, a);
    let n = written(inside, b);
    assert(m.len() > 0 && n.len() > 0);
    assert(s[0] == m[0] && t[0] == n[0]);
    if a != b {
        if m.len() > 1 && n.len() > 1 {
            assert(s[1] == m[1] && t[1] == n[1]);
            if inside == Inside::Xml {
                assert(s[2] == m[2] && t[2] == n[2]);
            }
        }
    }
    assert(a == b);
    assert(s.len() == m.len() + x.len() && t.len() == m.len() + y.len());
    assert forall|i: int| 0 <= i < x.len() implies x[i] == y[i] by {
        assert(s[m.len() + i] == x[i]);
        assert(t[m.len() + i] == y[i]);
    }
    assert(x =~= y);
}

/// Writing a text into XML or into a systemd unit loses nothing: different texts are written
/// differently.
pub proof fn lemma_escaping_loses_nothing(inside: Inside, s: Seq<char>, t: Seq<char>)
    requires
        inside == Inside::Xml || inside == Inside::Systemd,
        escaped(inside, s) == escaped(inside, t),
    ensures
        s == t,
    decreases s.len(),
{
    reveal_strlit("&amp;");
    reveal_strlit("&lt;");
    reveal_strlit("&gt;");
    reveal_strlit("&quot;");
    reveal_strlit("&apos;");
    reveal_strlit("\\n");
    if s.len() > 0 {
        lemma_escaped_first(inside, s);
        assert(written(inside, s[0]).len() > 0);
    }
    if t.len() > 0 {
        lemma_escaped_first(inside, t);
        assert(written(inside, t[0]).len() > 0);
    }
    if s.len() > 0 && t.len() > 0 {
        lemma_written_tells(inside, s[0], t[0], escaped(inside, s.skip(1)), escaped(inside, t.skip(1)));
        lemma_escaping_loses_nothing(inside, s.skip(1), t.skip(1));
        assert(s =~= seq![s[0]] + s.skip(1));
        assert(t =~= seq![t[0]] + t.skip(1));
    } else {
        assert(s =~= t);
    }
}

} // verus!
