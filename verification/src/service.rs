//! Service definitions for launchd and systemd.
use vstd::prelude::*;
use vstd::utf8::encode_utf8;

use crate::config::{seen, Store};
use crate::error::{outcome, Error};
use crate::escape::{escape, escaped, lemma_escaping_loses_nothing, lemma_systemd_arguments_stay_on_one_line, Inside};
use crate::fingerprint::{blake3_hex, hash_text};
use crate::path::{join, joined};
use crate::text::{
    characters, join_lines, joined_lines, lemma_line_breaks_of_lines, lemma_lines_in_two, line_breaks, lines_text, one_line, slice,
    trim, trimmed, views, write_lines,
};

verus! {

/// The name of the service of a data directory, given the hash of its path.
pub open spec fn service_name(hash: Seq<char>) -> Seq<char> {
    "filetrail-"@ + hash.take(12)
}

/// The name of the service with the given hash.
pub fn named_by(hash: &str) -> (r: String)
    requires
        hash@.len() >= 12,
    ensures
        r@ == service_name(hash@),
{
    let digits = slice(&characters(hash), 0, 12);
    assert(digits@ =~= hash@.take(12));
    "filetrail-".to_owned().concat(digits.as_str())
}

/// The name of the service of a data directory.
pub open spec fn identity_of(root: Seq<char>) -> Seq<char> {
    service_name(blake3_hex(encode_utf8(root)))
}

/// The name of the service of a data directory.
pub fn identity(store: &Store) -> (r: String)
    ensures
        r@ == identity_of(store.root@),
{
    let hash = hash_text(store.root.as_str());
    named_by(hash.as_str())
}

/// The definition for launchd.
pub open spec fn plist(identity: Seq<char>, root: Seq<char>, executable: Seq<char>) -> Seq<char> {
    "<?xml version=\"1.0\" encoding=\"UTF-8\"?>\n<!DOCTYPE plist PUBLIC \"-//Apple//DTD PLIST 1.0//EN\" \"http://www.apple.com/DTDs/PropertyList-1.0.dtd\">\n<plist version=\"1.0\"><dict>\n<key>Label</key><string>"@
        + identity + "</string>\n<key>ProgramArguments</key><array><string>"@ + escaped(Inside::Xml, executable)
        + "</string><string>--data-dir</string><string>"@ + escaped(Inside::Xml, root)
        + "</string><string>daemon</string><string>run</string></array>\n<key>RunAtLoad</key><true/>\n<key>KeepAlive</key><true/>\n<key>StandardErrorPath</key><string>"@
        + escaped(Inside::Xml, joined(root, "service-error.log"@)) + "</string>\n</dict></plist>\n"@
}

/// An argument in a systemd unit.
pub open spec fn unit_argument(value: Seq<char>) -> Seq<char> {
    "\""@ + escaped(Inside::Systemd, value) + "\""@
}

/// The line of a systemd unit that runs the daemon.
pub open spec fn unit_command(root: Seq<char>, executable: Seq<char>) -> Seq<char> {
    "ExecStart="@ + unit_argument(executable) + " --data-dir "@ + unit_argument(root) + " daemon run"@
}

/// The lines of the definition for systemd.
pub open spec fn unit_lines(root: Seq<char>, executable: Seq<char>) -> Seq<Seq<char>> {
    seq![
        "[Unit]"@,
        "Description=Filetrail file synchronization"@,
        ""@,
        "[Service]"@,
        "Type=simple"@,
        unit_command(root, executable),
        "Restart=on-failure"@,
        "RestartSec=3"@,
        ""@,
        "[Install]"@,
        "WantedBy=default.target"@,
    ]
}

/// The definition for systemd.
pub open spec fn unit(root: Seq<char>, executable: Seq<char>) -> Seq<char> {
    lines_text(unit_lines(root, executable))
}

/// What a service is defined to run, given whether it is for launchd.
pub open spec fn definition(root: Seq<char>, executable: Seq<char>, macos: bool) -> Seq<char> {
    if macos {
        plist(identity_of(root), root, executable)
    } else {
        unit(root, executable)
    }
}

fn quote_argument(value: &str) -> (r: String)
    ensures
        r@ == unit_argument(value@),
{
    "\"".to_owned().concat(escape(Inside::Systemd, value).as_str()).concat("\"")
}

/// Writes the definition of the service that runs the daemon for a data directory.
pub fn render(store: &Store, executable: &str, macos: bool) -> (r: String)
    ensures
        r@ == definition(store.root@, executable@, macos),
{
    let root = store.root.as_str();
    if macos {
        let log = join(root, "service-error.log");
        "<?xml version=\"1.0\" encoding=\"UTF-8\"?>\n<!DOCTYPE plist PUBLIC \"-//Apple//DTD PLIST 1.0//EN\" \"http://www.apple.com/DTDs/PropertyList-1.0.dtd\">\n<plist version=\"1.0\"><dict>\n<key>Label</key><string>".to_owned().concat(
            identity(store).as_str(),
        ).concat("</string>\n<key>ProgramArguments</key><array><string>").concat(escape(Inside::Xml, executable).as_str()).concat(
            "</string><string>--data-dir</string><string>",
        ).concat(escape(Inside::Xml, root).as_str()).concat(
            "</string><string>daemon</string><string>run</string></array>\n<key>RunAtLoad</key><true/>\n<key>KeepAlive</key><true/>\n<key>StandardErrorPath</key><string>",
        ).concat(escape(Inside::Xml, log.as_str()).as_str()).concat("</string>\n</dict></plist>\n")
    } else {
        let command = "ExecStart=".to_owned().concat(quote_argument(executable).as_str()).concat(" --data-dir ").concat(
            quote_argument(root).as_str(),
        ).concat(" daemon run");
        let lines: Vec<String> = vec![
            "[Unit]".to_owned(),
            "Description=Filetrail file synchronization".to_owned(),
            "".to_owned(),
            "[Service]".to_owned(),
            "Type=simple".to_owned(),
            command,
            "Restart=on-failure".to_owned(),
            "RestartSec=3".to_owned(),
            "".to_owned(),
            "[Install]".to_owned(),
            "WantedBy=default.target".to_owned(),
        ];
        assert(views(lines@) =~= unit_lines(store.root@, executable@));
        write_lines(&lines)
    }
}

/// Where the definition of the service goes.
pub open spec fn place(root: Seq<char>, home: Option<Seq<char>>, config: Option<Seq<char>>, macos: bool) -> Result<Seq<char>, Seq<char>> {
    match home {
        None => Err("cannot determine home directory"@),
        Some(home) => if macos {
            Ok(joined(joined(home, "Library/LaunchAgents"@), identity_of(root) + ".plist"@))
        } else {
            match config {
                None => Err("cannot determine systemd user service directory"@),
                Some(config) => Ok(joined(joined(config, "systemd/user"@), identity_of(root) + ".service"@)),
            }
        },
    }
}

/// Where the definition of the service goes, given the home and the configuration directory of the
/// user.
pub fn location(store: &Store, home: Option<&str>, config: Option<&str>, macos: bool) -> (r: Result<String, Error>)
    ensures
        outcome(r) == place(store.root@, seen(home), seen(config), macos),
{
    let home = match home {
        Some(home) => home,
        None => return Err(Error::new("cannot determine home directory")),
    };
    if macos {
        let name = identity(store).concat(".plist");
        Ok(join(join(home, "Library/LaunchAgents").as_str(), name.as_str()))
    } else {
        match config {
            None => Err(Error::new("cannot determine systemd user service directory")),
            Some(config) => {
                let name = identity(store).concat(".service");
                Ok(join(join(config, "systemd/user").as_str(), name.as_str()))
            },
        }
    }
}

/// Whether a service may be installed where its definition goes.
pub fn install(location: &str, exists: bool) -> (r: Result<String, Error>)
    ensures
        outcome(r) == (if exists {
            Err::<Seq<char>, Seq<char>>("service already installed at "@ + location@ + "; uninstall it first"@)
        } else {
            Ok("installed "@ + location@)
        }),
{
    if exists {
        let text = "service already installed at ".to_owned().concat(location).concat("; uninstall it first");
        return Err(Error { text });
    }
    Ok("installed ".to_owned().concat(location))
}

/// Whether there is a service to uninstall.
pub fn uninstall(location: &str, exists: bool) -> (r: Result<String, Error>)
    ensures
        outcome(r) == (if exists {
            Ok::<Seq<char>, Seq<char>>("removed "@ + location@)
        } else {
            Err("service is not installed"@)
        }),
{
    if !exists {
        return Err(Error::new("service is not installed"));
    }
    Ok("removed ".to_owned().concat(location))
}

/// A program with its arguments.
pub struct Invocation {
    pub program: String,
    pub arguments: Vec<String>,
}

pub struct InvocationView {
    pub program: Seq<char>,
    pub arguments: Seq<Seq<char>>,
}

impl View for Invocation {
    type V = InvocationView;

    open spec fn view(&self) -> InvocationView {
        InvocationView { program: self.program@, arguments: views(self.arguments@) }
    }
}

pub open spec fn invocation_views(list: Seq<Invocation>) -> Seq<InvocationView> {
    list.map_values(|invocation: Invocation| invocation@)
}

fn systemctl_reload() -> (r: Invocation)
    ensures
        r@ == reload(),
{
    let arguments: Vec<String> = vec!["--user".to_owned(), "daemon-reload".to_owned()];
    assert(views(arguments@) =~= reload().arguments);
    Invocation { program: "systemctl".to_owned(), arguments }
}

/// Has systemd read its units again.
pub open spec fn reload() -> InvocationView {
    InvocationView { program: "systemctl"@, arguments: seq!["--user"@, "daemon-reload"@] }
}

/// Has systemd enable or disable the unit of a data directory, at once.
pub open spec fn switch(verb: Seq<char>, root: Seq<char>) -> InvocationView {
    InvocationView { program: "systemctl"@, arguments: seq!["--user"@, verb, "--now"@, identity_of(root) + ".service"@] }
}

/// Has launchd load or unload a definition.
pub open spec fn launch(verb: Seq<char>, domain: Seq<char>, location: Seq<char>) -> InvocationView {
    InvocationView { program: "launchctl"@, arguments: seq![verb, domain, location] }
}

fn systemctl_switch(verb: &str, store: &Store) -> (r: Invocation)
    ensures
        r@ == switch(verb@, store.root@),
{
    let name = identity(store).concat(".service");
    let arguments: Vec<String> = vec!["--user".to_owned(), verb.to_owned(), "--now".to_owned(), name];
    assert(views(arguments@) =~= switch(verb@, store.root@).arguments);
    Invocation { program: "systemctl".to_owned(), arguments }
}

fn launchctl(verb: &str, domain: &str, location: &str) -> (r: Invocation)
    ensures
        r@ == launch(verb@, domain@, location@),
{
    let arguments: Vec<String> = vec![verb.to_owned(), domain.to_owned(), location.to_owned()];
    assert(views(arguments@) =~= launch(verb@, domain@, location@).arguments);
    Invocation { program: "launchctl".to_owned(), arguments }
}

/// What is run once the definition is written.
pub fn after_install(store: &Store, macos: bool, domain: &str, location: &str) -> (r: Vec<Invocation>)
    ensures
        invocation_views(r@) == (if macos {
            seq![launch("bootstrap"@, domain@, location@)]
        } else {
            seq![reload(), switch("enable"@, store.root@)]
        }),
{
    let list: Vec<Invocation> = if macos {
        vec![launchctl("bootstrap", domain, location)]
    } else {
        vec![systemctl_reload(), systemctl_switch("enable", store)]
    };
    assert(invocation_views(list@) =~= (if macos {
        seq![launch("bootstrap"@, domain@, location@)]
    } else {
        seq![reload(), switch("enable"@, store.root@)]
    }));
    list
}

/// What is run before the definition is removed.
pub fn before_removal(store: &Store, macos: bool, domain: &str, location: &str) -> (r: Vec<Invocation>)
    ensures
        invocation_views(r@) == (if macos {
            seq![launch("bootout"@, domain@, location@)]
        } else {
            seq![switch("disable"@, store.root@)]
        }),
{
    let list: Vec<Invocation> = if macos {
        vec![launchctl("bootout", domain, location)]
    } else {
        vec![systemctl_switch("disable", store)]
    };
    assert(invocation_views(list@) =~= (if macos {
        seq![launch("bootout"@, domain@, location@)]
    } else {
        seq![switch("disable"@, store.root@)]
    }));
    list
}

/// What is run once the definition is removed.
pub fn after_removal(macos: bool) -> (r: Vec<Invocation>)
    ensures
        invocation_views(r@) == (if macos {
            seq![]
        } else {
            seq![reload()]
        }),
{
    let list: Vec<Invocation> = if macos {
        vec![]
    } else {
        vec![systemctl_reload()]
    };
    assert(invocation_views(list@) =~= (if macos {
        seq![]
    } else {
        seq![reload()]
    }));
    list
}

/// Whether a program did its work, given how it ended.
pub fn execute(invocation: &Invocation, success: bool, status: &str) -> (r: Result<(), Error>)
    ensures
        r is Ok <==> success,
        r is Err ==> r->Err_0@ == invocation@.program + " "@ + joined_lines(invocation@.arguments, " "@) + " failed: "@ + status@,
{
    if success {
        return Ok(());
    }
    let text = invocation.program.clone().concat(" ").concat(join_lines(&invocation.arguments, " ").as_str()).concat(" failed: ").concat(
        status,
    );
    Err(Error { text })
}

/// The domain of launchd that services of the user run in, given their number as a program prints it.
pub fn domain(output: &str) -> (r: String)
    ensures
        r@ == "gui/"@ + trimmed(output@),
{
    "gui/".to_owned().concat(trim(output).as_str())
}

// ---------------------------------------------------------------------------------------------
// Laws

/// What stands between the same texts is the same where the whole is.
proof fn lemma_between_same(a: Seq<char>, x: Seq<char>, y: Seq<char>, b: Seq<char>)
    requires
        a + x + b == a + y + b,
    ensures
        x == y,
{
    let s = a + x + b;
    let t = a + y + b;
    assert(s.len() == t.len());
    assert forall|i: int| 0 <= i < x.len() implies x[i] == y[i] by {
        assert(s[a.len() + i] == x[i]);
        assert(t[a.len() + i] == y[i]);
    }
    assert(x =~= y);
}

/// Quoting loses nothing: definitions for different executables are different.
pub proof fn lemma_definitions_tell_executables_apart(root: Seq<char>, x: Seq<char>, y: Seq<char>, macos: bool)
    requires
        definition(root, x, macos) == definition(root, y, macos),
    ensures
        x == y,
{
    if macos {
        let head = "<?xml version=\"1.0\" encoding=\"UTF-8\"?>\n<!DOCTYPE plist PUBLIC \"-//Apple//DTD PLIST 1.0//EN\" \"http://www.apple.com/DTDs/PropertyList-1.0.dtd\">\n<plist version=\"1.0\"><dict>\n<key>Label</key><string>"@
            + identity_of(root) + "</string>\n<key>ProgramArguments</key><array><string>"@;
        let tail = "</string><string>--data-dir</string><string>"@ + escaped(Inside::Xml, root)
            + "</string><string>daemon</string><string>run</string></array>\n<key>RunAtLoad</key><true/>\n<key>KeepAlive</key><true/>\n<key>StandardErrorPath</key><string>"@
            + escaped(Inside::Xml, joined(root, "service-error.log"@)) + "</string>\n</dict></plist>\n"@;
        assert(plist(identity_of(root), root, x) =~= head + escaped(Inside::Xml, x) + tail);
        assert(plist(identity_of(root), root, y) =~= head + escaped(Inside::Xml, y) + tail);
        lemma_between_same(head, escaped(Inside::Xml, x), escaped(Inside::Xml, y), tail);
        lemma_escaping_loses_nothing(Inside::Xml, x, y);
    } else {
        let (head, tail) = lemma_unit_around(root, x);
        let (same_head, same_tail) = lemma_unit_around(root, y);
        lemma_between_same(head, escaped(Inside::Systemd, x), escaped(Inside::Systemd, y), tail);
        lemma_escaping_loses_nothing(Inside::Systemd, x, y);
    }
}

/// What stands around the executable in a systemd unit.
spec fn unit_head() -> Seq<char> {
    lines_text(
        seq![
            "[Unit]"@,
            "Description=Filetrail file synchronization"@,
            ""@,
            "[Service]"@,
            "Type=simple"@,
        ],
    ) + "ExecStart="@ + "\""@
}

spec fn unit_tail(root: Seq<char>) -> Seq<char> {
    "\""@ + " --data-dir "@ + unit_argument(root) + " daemon run"@ + "\n"@ + lines_text(
        seq!["Restart=on-failure"@, "RestartSec=3"@, ""@, "[Install]"@, "WantedBy=default.target"@],
    )
}

proof fn lemma_unit_around(root: Seq<char>, executable: Seq<char>) -> (r: (Seq<char>, Seq<char>))
    ensures
        r.0 == unit_head(),
        r.1 == unit_tail(root),
        unit(root, executable) == r.0 + escaped(Inside::Systemd, executable) + r.1,
{
    let all = unit_lines(root, executable);
    let first = seq![
        "[Unit]"@,
        "Description=Filetrail file synchronization"@,
        ""@,
        "[Service]"@,
        "Type=simple"@,
    ];
    let last = seq!["Restart=on-failure"@, "RestartSec=3"@, ""@, "[Install]"@, "WantedBy=default.target"@];
    let command = unit_command(root, executable);
    assert(all =~= first.push(command) + last);
    lemma_lines_in_two(first.push(command), last);
    assert(first.push(command).drop_last() =~= first);
    let r = (unit_head(), unit_tail(root));
    assert(unit(root, executable) =~= r.0 + escaped(Inside::Systemd, executable) + r.1);
    r
}

/// A unit has eleven lines, whatever the paths hold: a line break in a path cannot add one.
pub proof fn lemma_a_unit_has_eleven_lines(root: Seq<char>, executable: Seq<char>)
    ensures
        line_breaks(unit(root, executable)) == 11,
        forall|k: int| 0 <= k < unit_lines(root, executable).len() ==> one_line(#[trigger] unit_lines(root, executable)[k]),
{
    reveal_strlit("[Unit]");
    reveal_strlit("Description=Filetrail file synchronization");
    reveal_strlit("");
    reveal_strlit("[Service]");
    reveal_strlit("Type=simple");
    reveal_strlit("Restart=on-failure");
    reveal_strlit("RestartSec=3");
    reveal_strlit("[Install]");
    reveal_strlit("WantedBy=default.target");
    lemma_the_command_is_one_line(root, executable);
    lemma_line_breaks_of_lines(unit_lines(root, executable));
}

proof fn lemma_the_command_is_one_line(root: Seq<char>, executable: Seq<char>)
    ensures
        one_line(unit_command(root, executable)),
{
    reveal_strlit("ExecStart=");
    reveal_strlit(" --data-dir ");
    reveal_strlit(" daemon run");
    lemma_argument_is_one_line(root);
    lemma_argument_is_one_line(executable);
}

proof fn lemma_argument_is_one_line(value: Seq<char>)
    ensures
        one_line(unit_argument(value)),
{
    reveal_strlit("\"");
    lemma_systemd_arguments_stay_on_one_line(value);
    let inner = escaped(Inside::Systemd, value);
    let all = unit_argument(value);
    assert forall|i: int| 0 <= i < all.len() implies all[i] != '\n' by {
        if 1 <= i < inner.len() + 1 {
            assert(all[i] == inner[i - 1]);
        }
    }
}

} // verus!
