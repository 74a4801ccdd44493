//! The command line: its help text and what each invocation asks for.
use vstd::prelude::*;

use crate::text::{chars_eq_str, chars_of, dec, lemma_parse_dec, parse_unsigned, parse_unsigned_vec};

verus! {

/// The help text.
pub const USAGE: &'static str = "omaportless \u{2014} named .localhost URLs for local dev servers\n\nUsage:\nomaportless status\nomaportless set-name <id> <hostname>\nomaportless unset-name <id>\nomaportless close <id>\nomaportless start | stop | install | uninstall\nomaportless enable-port80 | disable-port80\nomaportless daemon\n";

/// The help text.
pub fn usage() -> (r: &'static str)
    ensures
        r@ == USAGE@,
{
    USAGE
}

/// What an invocation asks for.
pub enum Command {
    Help,
    Status,
    SetName(String, String),
    UnsetName(String),
    Close(String),
    Install,
    Uninstall,
    Start,
    Stop,
    /// Redirect loopback :80, to the given port if one was readable.
    EnablePort80(Option<u16>),
    DisablePort80,
    Daemon,
    /// A command given too few arguments; holds the usage line to print.
    MissingArgs(String),
    /// A command that does not exist.
    Unknown(String),
}

/// A command as plain values.
pub enum CommandView {
    Help,
    Status,
    SetName(Seq<char>, Seq<char>),
    UnsetName(Seq<char>),
    Close(Seq<char>),
    Install,
    Uninstall,
    Start,
    Stop,
    EnablePort80(Option<u16>),
    DisablePort80,
    Daemon,
    MissingArgs(Seq<char>),
    Unknown(Seq<char>),
}

impl View for Command {
    type V = CommandView;

    open spec fn view(&self) -> CommandView {
        match self {
            Command::Help => CommandView::Help,
            Command::Status => CommandView::Status,
            Command::SetName(a, b) => CommandView::SetName(a@, b@),
            Command::UnsetName(a) => CommandView::UnsetName(a@),
            Command::Close(a) => CommandView::Close(a@),
            Command::Install => CommandView::Install,
            Command::Uninstall => CommandView::Uninstall,
            Command::Start => CommandView::Start,
            Command::Stop => CommandView::Stop,
            Command::EnablePort80(p) => CommandView::EnablePort80(*p),
            Command::DisablePort80 => CommandView::DisablePort80,
            Command::Daemon => CommandView::Daemon,
            Command::MissingArgs(m) => CommandView::MissingArgs(m@),
            Command::Unknown(a) => CommandView::Unknown(a@),
        }
    }
}

/// The port argument of `enable-port80`, when it reads as a port number.
pub open spec fn port_arg(args: Seq<Seq<char>>) -> Option<u16> {
    if args.len() >= 2 {
        match parse_unsigned(args[1], u16::MAX as nat) {
            Some(v) => Some(v as u16),
            None => None,
        }
    } else {
        None
    }
}

/// What the arguments after the program name ask for.
pub open spec fn command_of(args: Seq<Seq<char>>) -> CommandView {
    if args.len() == 0 {
        CommandView::Help
    } else {
        let a = args[0];
        if a == "-h"@ || a == "--help"@ || a == "help"@ {
            CommandView::Help
        } else if a == "status"@ {
            CommandView::Status
        } else if a == "set-name"@ {
            if args.len() < 3 {
                CommandView::MissingArgs("usage: omaportless set-name <id> <hostname>"@)
            } else {
                CommandView::SetName(args[1], args[2])
            }
        } else if a == "unset-name"@ {
            if args.len() < 2 {
                CommandView::MissingArgs("usage: omaportless unset-name <id>"@)
            } else {
                CommandView::UnsetName(args[1])
            }
        } else if a == "close"@ {
            if args.len() < 2 {
                CommandView::MissingArgs("usage: omaportless close <id>"@)
            } else {
                CommandView::Close(args[1])
            }
        } else if a == "install"@ {
            CommandView::Install
        } else if a == "uninstall"@ {
            CommandView::Uninstall
        } else if a == "start"@ {
            CommandView::Start
        } else if a == "stop"@ {
            CommandView::Stop
        } else if a == "enable-port80"@ || a == "install-redirect"@ {
            CommandView::EnablePort80(port_arg(args))
        } else if a == "disable-port80"@ || a == "uninstall-redirect"@ {
            CommandView::DisablePort80
        } else if a == "daemon"@ {
            CommandView::Daemon
        } else {
            CommandView::Unknown(a)
        }
    }
}

/// Asking root for the redirect passes the port on intact: the arguments
/// that `elevate_args` puts after the program (`install-redirect` and the
/// port) read back as a request to redirect to that same port, and
/// `uninstall-redirect` reads back as the request to remove it.
pub proof fn law_elevated_command_reads_back(port: u16)
    ensures
        command_of(seq!["install-redirect"@, dec(port as nat)]) == CommandView::EnablePort80(
            Some(port),
        ),
        command_of(seq!["install-redirect"@]) == CommandView::EnablePort80(None),
        command_of(seq!["uninstall-redirect"@]) == CommandView::DisablePort80,
{
    reveal_strlit("install-redirect");
    reveal_strlit("uninstall-redirect");
    reveal_strlit("enable-port80");
    reveal_strlit("disable-port80");
    reveal_strlit("-h");
    reveal_strlit("--help");
    reveal_strlit("help");
    reveal_strlit("status");
    reveal_strlit("set-name");
    reveal_strlit("unset-name");
    reveal_strlit("close");
    reveal_strlit("install");
    reveal_strlit("uninstall");
    reveal_strlit("start");
    reveal_strlit("stop");
    lemma_parse_dec(port as nat, u16::MAX as nat);
    let a1 = seq!["install-redirect"@, dec(port as nat)];
    let a2 = seq!["install-redirect"@];
    assert(a1[0] == "install-redirect"@);
    assert(a2[0] == "install-redirect"@);
    assert(port_arg(a1) == Some(port));
    assert(port_arg(a2) == None::<u16>);
    let a3 = seq!["uninstall-redirect"@];
    assert(a3[0] == "uninstall-redirect"@);
    assert(a3[0] != "enable-port80"@ && a3[0] != "install-redirect"@);
}

/// The arguments after a verb are what the verb acts on: `set-name <id>
/// <hostname>` renames `id` to `hostname`, `unset-name <id>` and `close <id>`
/// act on `id`, and too few arguments give the verb's usage line.
pub proof fn law_verb_arguments(args: Seq<Seq<char>>)
    ensures
        args.len() >= 3 && args[0] == "set-name"@ ==> command_of(args) == CommandView::SetName(
            args[1],
            args[2],
        ),
        args.len() >= 2 && args[0] == "unset-name"@ ==> command_of(args) == CommandView::UnsetName(
            args[1],
        ),
        args.len() >= 2 && args[0] == "close"@ ==> command_of(args) == CommandView::Close(args[1]),
        args.len() == 1 && args[0] == "unset-name"@ ==> command_of(args) is MissingArgs,
        args.len() < 3 && args.len() > 0 && args[0] == "set-name"@ ==> command_of(args) is MissingArgs,
{
    reveal_strlit("unset-name");
    reveal_strlit("set-name");
    reveal_strlit("close");
    reveal_strlit("-h");
    reveal_strlit("--help");
    reveal_strlit("help");
    reveal_strlit("status");
    assert("set-name"@.len() == 8 && "unset-name"@.len() == 10 && "close"@.len() == 5);
    assert("-h"@.len() == 2 && "--help"@.len() == 6 && "help"@.len() == 4 && "status"@.len()
        == 6);
    if args.len() > 0 && args[0] == "set-name"@ {
        assert(args[0] != "-h"@ && args[0] != "--help"@ && args[0] != "help"@);
        assert(args[0] != "status"@);
        if args.len() >= 3 {
            assert(command_of(args) == CommandView::SetName(args[1], args[2]));
        }
    }
    if args.len() > 0 && args[0] == "unset-name"@ {
        assert(args[0] != "-h"@ && args[0] != "--help"@ && args[0] != "help"@);
        assert(args[0] != "status"@ && args[0] != "set-name"@);
        if args.len() >= 2 {
            assert(command_of(args) == CommandView::UnsetName(args[1]));
        }
    }
}

/// Reads the arguments that follow the program name.
pub fn parse_command(args: &Vec<String>) -> (r: Command)
    ensures
        r@ == command_of(args@.map_values(|s: String| s@)),
{
    let ghost av = args@.map_values(|s: String| s@);
    if args.len() == 0 {
        return Command::Help;
    }
    assert(av[0] == args@[0]@);
    let a = chars_of(args[0].as_str());
    if chars_eq_str(&a, "-h") || chars_eq_str(&a, "--help") || chars_eq_str(&a, "help") {
        Command::Help
    } else if chars_eq_str(&a, "status") {
        Command::Status
    } else if chars_eq_str(&a, "set-name") {
        if args.len() < 3 {
            Command::MissingArgs(String::from_str("usage: omaportless set-name <id> <hostname>"))
        } else {
            assert(av[1] == args@[1]@ && av[2] == args@[2]@);
            Command::SetName(args[1].clone(), args[2].clone())
        }
    } else if chars_eq_str(&a, "unset-name") {
        if args.len() < 2 {
            Command::MissingArgs(String::from_str("usage: omaportless unset-name <id>"))
        } else {
            assert(av[1] == args@[1]@);
            Command::UnsetName(args[1].clone())
        }
    } else if chars_eq_str(&a, "close") {
        if args.len() < 2 {
            Command::MissingArgs(String::from_str("usage: omaportless close <id>"))
        } else {
            assert(av[1] == args@[1]@);
            Command::Close(args[1].clone())
        }
    } else if chars_eq_str(&a, "install") {
        Command::Install
    } else if chars_eq_str(&a, "uninstall") {
        Command::Uninstall
    } else if chars_eq_str(&a, "start") {
        Command::Start
    } else if chars_eq_str(&a, "stop") {
        Command::Stop
    } else if chars_eq_str(&a, "enable-port80") || chars_eq_str(&a, "install-redirect") {
        if args.len() >= 2 {
            assert(av[1] == args@[1]@);
            let p = chars_of(args[1].as_str());
            match parse_unsigned_vec(&p, 65535) {
                Some(v) => Command::EnablePort80(Some(v as u16)),
                None => Command::EnablePort80(None),
            }
        } else {
            Command::EnablePort80(None)
        }
    } else if chars_eq_str(&a, "disable-port80") || chars_eq_str(&a, "uninstall-redirect") {
        Command::DisablePort80
    } else if chars_eq_str(&a, "daemon") {
        Command::Daemon
    } else {
        Command::Unknown(args[0].clone())
    }
}

} // verus!
