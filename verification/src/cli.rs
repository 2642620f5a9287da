//! The command line of the recovery tools: which command the arguments
//! select, once they have been parsed, and what the process exits with.
//!
//! The commands are `debug persisted <path>`, `debug entries <address>`,
//! `debug node <address>` and `restore <address>`.

use vstd::prelude::*;
use vstd::string::StringExecFns;
use crate::error::Error;

verus! {

/// What parsing the arguments found: the chain of subcommands that matched,
/// outermost first, and the values given to the last of them, each under the
/// name of its argument.
#[derive(Debug, Clone, PartialEq, Eq)]
pub struct CliMatches {
    /// The names of the subcommands that matched, outermost first.
    pub subcommands: Vec<String>,
    /// The arguments of the innermost subcommand: name and value.
    pub values: Vec<(String, String)>,
}

/// A command of the recovery tools.
#[derive(Debug, Clone, PartialEq, Eq)]
pub enum Command {
    /// List what the log directory at this path holds.
    DebugPersisted(String),
    /// List the log entries of the running node at this address.
    DebugEntries(String),
    /// Describe the state of the running node at this address.
    DebugNode(String),
    /// Have the running node at this address recompute its snapshot
    /// metadata.
    Restore(String),
}

/// A command as a mathematical value.
pub enum CommandView {
    /// List what the log directory at this path holds.
    DebugPersisted(Seq<char>),
    /// List the log entries of the running node at this address.
    DebugEntries(Seq<char>),
    /// Describe the state of the running node at this address.
    DebugNode(Seq<char>),
    /// Have the running node at this address recompute its snapshot
    /// metadata.
    Restore(Seq<char>),
}

impl View for Command {
    type V = CommandView;

    open spec fn view(&self) -> CommandView {
        match self {
            Command::DebugPersisted(p) => CommandView::DebugPersisted(p@),
            Command::DebugEntries(a) => CommandView::DebugEntries(a@),
            Command::DebugNode(a) => CommandView::DebugNode(a@),
            Command::Restore(a) => CommandView::Restore(a@),
        }
    }
}

/// The names in `v` as sequences of characters.
pub open spec fn names_view(v: Seq<String>) -> Seq<Seq<char>> {
    Seq::new(v.len(), |i: int| v[i]@)
}

/// The pairs in `v` as sequences of characters.
pub open spec fn values_view(v: Seq<(String, String)>) -> Seq<(Seq<char>, Seq<char>)> {
    Seq::new(v.len(), |i: int| (v[i].0@, v[i].1@))
}

/// The first value given under `name`, if any is.
pub open spec fn value_of(values: Seq<(Seq<char>, Seq<char>)>, name: Seq<char>) -> Option<Seq<char>>
    decreases values.len(),
{
    if values.len() == 0 {
        None
    } else if values[0].0 == name {
        Some(values[0].1)
    } else {
        value_of(values.drop_first(), name)
    }
}

/// The command that the matches select, if they select one.
///
/// A subcommand that is not one of the tools', one that lacks its argument,
/// and no subcommand at all select nothing.
pub open spec fn selected(subcommands: Seq<Seq<char>>, values: Seq<(Seq<char>, Seq<char>)>)
    -> Option<CommandView> {
    if subcommands.len() == 2 && subcommands[0] == "debug"@ {
        if subcommands[1] == "entries"@ {
            match value_of(values, "address"@) {
                Some(a) => Some(CommandView::DebugEntries(a)),
                None => None,
            }
        } else if subcommands[1] == "node"@ {
            match value_of(values, "address"@) {
                Some(a) => Some(CommandView::DebugNode(a)),
                None => None,
            }
        } else if subcommands[1] == "persisted"@ {
            match value_of(values, "path"@) {
                Some(p) => Some(CommandView::DebugPersisted(p)),
                None => None,
            }
        } else {
            None
        }
    } else if subcommands.len() == 1 && subcommands[0] == "restore"@ {
        match value_of(values, "address"@) {
            Some(a) => Some(CommandView::Restore(a)),
            None => None,
        }
    } else {
        None
    }
}

/// Whether `text` reads `word`.
fn reads(text: &String, word: &str) -> (r: bool)
    ensures
        r == (text@ == word@),
{
    let other = String::from_str(word);
    *text == other
}

/// Looks up the first value given under `name`.
fn find_value(values: &Vec<(String, String)>, name: &str) -> (r: Option<String>)
    ensures
        match value_of(values_view(values@), name@) {
            Some(v) => r matches Some(found) && found@ == v,
            None => r is None,
        },
{
    let ghost all = values_view(values@);
    let n: usize = values.len();
    let mut i: usize = 0;
    assert(all.subrange(0, n as int) == all);
    while i < n
        invariant
            all == values_view(values@),
            n == values@.len(),
            i <= n,
            value_of(all.subrange(i as int, n as int), name@) == value_of(all, name@),
        decreases n - i,
    {
        proof {
            let left = all.subrange(i as int, n as int);
            assert(left[0] == all[i as int]);
            assert(left.drop_first() == all.subrange(i + 1, n as int));
        }
        if reads(&values[i].0, name) {
            return Some(values[i].1.clone());
        }
        i = i + 1;
    }
    None
}

/// Selects the command to carry out from what parsing the arguments found.
pub fn cli_handler(matches: &CliMatches) -> (r: Option<Command>)
    ensures
        match selected(names_view(matches.subcommands@), values_view(matches.values@)) {
            Some(c) => r matches Some(command) && command@ == c,
            None => r is None,
        },
{
    let names = &matches.subcommands;
    let ghost chain = names_view(names@);
    if names.len() == 2 && reads(&names[0], "debug") {
        assert(chain[0] == names@[0]@ && chain[1] == names@[1]@);
        if reads(&names[1], "entries") {
            match find_value(&matches.values, "address") {
                Some(a) => Some(Command::DebugEntries(a)),
                None => None,
            }
        } else if reads(&names[1], "node") {
            match find_value(&matches.values, "address") {
                Some(a) => Some(Command::DebugNode(a)),
                None => None,
            }
        } else if reads(&names[1], "persisted") {
            match find_value(&matches.values, "path") {
                Some(p) => Some(Command::DebugPersisted(p)),
                None => None,
            }
        } else {
            None
        }
    } else if names.len() == 1 && reads(&names[0], "restore") {
        assert(chain[0] == names@[0]@);
        match find_value(&matches.values, "address") {
            Some(a) => Some(Command::Restore(a)),
            None => None,
        }
    } else {
        proof {
            if names@.len() > 0 {
                assert(chain[0] == names@[0]@);
            }
        }
        None
    }
}

/// The status that the process exits with: zero when the command succeeded,
/// and one when anything went wrong.
pub fn exit_code(result: &Result<(), Error>) -> (code: u8)
    ensures
        code == (if result is Ok {
            0u8
        } else {
            1u8
        }),
{
    match result {
        Ok(_) => 0,
        Err(_) => 1,
    }
}

} // verus!
