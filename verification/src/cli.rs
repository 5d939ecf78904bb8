//! The decisions of the command line: when to show help, and which
//! subcommand an argument names.

use vstd::prelude::*;

use crate::text::str_eq;

verus! {

/// The arguments as texts.
pub open spec fn arg_views(args: Seq<String>) -> Seq<Seq<char>> {
    args.map_values(|s: String| s@)
}

/// Help is asked for: by `-h` or `--help` before any `--`, or by giving no
/// argument after the program's name.
pub open spec fn help_requested(args: Seq<Seq<char>>) -> bool {
    ||| args.len() <= 1
    ||| exists|i: int| 1 <= i < args.len() && (args[i] == "-h"@ || args[i] == "--help"@)
            && forall|j: int| 1 <= j < i ==> #[trigger] args[j] != "--"@
}

/// Whether the arguments (the program's name first) ask for help.
pub fn handle_help_flag(input: &[String]) -> (help: bool)
    requires
        input@.len() >= 1,
    ensures
        help == help_requested(arg_views(input@)),
{
    let ghost args = arg_views(input@);
    let mut i: usize = 1;
    while i < input.len()
        invariant
            1 <= i <= input@.len(),
            args == arg_views(input@),
            forall|j: int| 1 <= j < i ==> #[trigger] args[j] != "--"@ && args[j] != "-h"@ && args[j] != "--help"@,
        decreases input@.len() - i,
    {
        let arg = input[i].as_str();
        assert(args[i as int] == arg@);
        if str_eq(arg, "--") {
            proof {
                reveal_strlit("--");
                reveal_strlit("-h");
                reveal_strlit("--help");
                assert("--"@[1] != "-h"@[1]);
                assert("--"@.len() != "--help"@.len());
                if help_requested(args) && args.len() > 1 {
                    let k = choose|k: int| 1 <= k < args.len() && (args[k] == "-h"@ || args[k] == "--help"@)
                        && forall|j: int| 1 <= j < k ==> #[trigger] args[j] != "--"@;
                    if k > i {
                        assert(args[i as int] != "--"@);
                    }
                }
            }
            return input.len() == 1;
        }
        if str_eq(arg, "-h") || str_eq(arg, "--help") {
            return true;
        }
        i += 1;
    }
    proof {
        if help_requested(args) && args.len() > 1 {
            let k = choose|k: int| 1 <= k < args.len() && (args[k] == "-h"@ || args[k] == "--help"@)
                && forall|j: int| 1 <= j < k ==> #[trigger] args[j] != "--"@;
            assert(args[k] != "-h"@ && args[k] != "--help"@);
        }
    }
    input.len() == 1
}

/// What the first free argument asks the program to do.
#[derive(Clone, Copy, Debug, PartialEq, Eq, Structural)]
pub enum Subcommand {
    I3Shell,
    Shortcuts,
    Keyspaces,
    Sh,
    ListSubcommands,
    DebugShortcuts,
    Unknown,
}

/// The names of the subcommands, as the `subcommands` subcommand lists them.
pub const SUBCOMMAND_NAMES: [&'static str; 9] = ["debug-shortcuts", "i3-shell", "shortcuts", "shortcut", "s", "keyspaces", "keyspace", "k", "sh"];

pub open spec fn subcommand_of(name: Option<Seq<char>>) -> Subcommand {
    match name {
        None => Subcommand::DebugShortcuts,
        Some(n) => if n == "i3-shell"@ {
            Subcommand::I3Shell
        } else if n == "shortcuts"@ || n == "shortcut"@ || n == "s"@ {
            Subcommand::Shortcuts
        } else if n == "keyspaces"@ || n == "keyspace"@ || n == "k"@ {
            Subcommand::Keyspaces
        } else if n == "sh"@ {
            Subcommand::Sh
        } else if n == "subcommands"@ {
            Subcommand::ListSubcommands
        } else if n == "debug-shortcuts"@ {
            Subcommand::DebugShortcuts
        } else {
            Subcommand::Unknown
        },
    }
}

/// The subcommand named by the first free argument (listing shortcuts for debugging when there is none).
pub fn choose_subcommand(first: Option<&str>) -> (sub: Subcommand)
    ensures
        sub == subcommand_of(match first { None => None, Some(s) => Some(s@) }),
{
    match first {
        None => Subcommand::DebugShortcuts,
        Some(n) => if str_eq(n, "i3-shell") {
            Subcommand::I3Shell
        } else if str_eq(n, "shortcuts") || str_eq(n, "shortcut") || str_eq(n, "s") {
            Subcommand::Shortcuts
        } else if str_eq(n, "keyspaces") || str_eq(n, "keyspace") || str_eq(n, "k") {
            Subcommand::Keyspaces
        } else if str_eq(n, "sh") {
            Subcommand::Sh
        } else if str_eq(n, "subcommands") {
            Subcommand::ListSubcommands
        } else if str_eq(n, "debug-shortcuts") {
            Subcommand::DebugShortcuts
        } else {
            Subcommand::Unknown
        },
    }
}

} // verus!
