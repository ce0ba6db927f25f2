//! The commands of the line protocol and how a line is read as one.
//!
//! A line is trimmed and split at its first space. The part before, put in
//! upper case, names the command; the part after holds its arguments.

use crate::text::{find_char, find_char_from, str_eq, string_of, trim_chars, trimmed, uppercase};
use vstd::prelude::*;

verus! {

/// A command whose arguments are missing.
#[derive(Debug, Clone, Copy, PartialEq, Eq, Structural)]
pub enum Usage {
    Insert,
    InsertOrUpdate,
    InsertOrUpdateMany,
    Get,
    Delete,
    DeleteMany,
    Query,
}

/// A request of a client.
#[derive(Debug)]
pub enum Command {
    Insert { key: String, json: String },
    InsertOrUpdate { key: String, json: String },
    InsertOrUpdateMany { json: String },
    Get { key: String },
    Delete { key: String },
    DeleteMany { json: String },
    DeleteAll,
    List,
    Query { expr: String },
    Exit,
    Usage(Usage),
    Unknown,
}

/// A request of a client, as texts.
pub enum CommandView {
    Insert { key: Seq<char>, json: Seq<char> },
    InsertOrUpdate { key: Seq<char>, json: Seq<char> },
    InsertOrUpdateMany { json: Seq<char> },
    Get { key: Seq<char> },
    Delete { key: Seq<char> },
    DeleteMany { json: Seq<char> },
    DeleteAll,
    List,
    Query { expr: Seq<char> },
    Exit,
    Usage(Usage),
    Unknown,
}

impl View for Command {
    type V = CommandView;

    open spec fn view(&self) -> CommandView {
        match self {
            Command::Insert { key, json } => CommandView::Insert { key: key@, json: json@ },
            Command::InsertOrUpdate { key, json } => CommandView::InsertOrUpdate {
                key: key@,
                json: json@,
            },
            Command::InsertOrUpdateMany { json } => CommandView::InsertOrUpdateMany { json: json@ },
            Command::Get { key } => CommandView::Get { key: key@ },
            Command::Delete { key } => CommandView::Delete { key: key@ },
            Command::DeleteMany { json } => CommandView::DeleteMany { json: json@ },
            Command::DeleteAll => CommandView::DeleteAll,
            Command::List => CommandView::List,
            Command::Query { expr } => CommandView::Query { expr: expr@ },
            Command::Exit => CommandView::Exit,
            Command::Usage(u) => CommandView::Usage(*u),
            Command::Unknown => CommandView::Unknown,
        }
    }
}

impl Usage {
    /// The line that tells how the command is used.
    pub fn line(&self) -> (r: &'static str)
        ensures
            r@ == self.line_spec(),
    {
        match self {
            Usage::Insert => "ERR Usage: INSERT <key> <value>\n",
            Usage::InsertOrUpdate => "ERR Usage: INSERT_OR_UPDATE <key> <value>\n",
            Usage::InsertOrUpdateMany => "ERR Usage: INSERT_OR_UPDATE_MANY <[key, value]...>\n",
            Usage::Get => "ERR Usage: GET <key>\n",
            Usage::Delete => "ERR Usage: DELETE <key>\n",
            Usage::DeleteMany => "ERR Usage: DELETE_MANY <[key1, key2, ...]>\n",
            Usage::Query => "ERR Usage: QUERY <conditions>\n",
        }
    }

    pub open spec fn line_spec(&self) -> Seq<char> {
        match self {
            Usage::Insert => "ERR Usage: INSERT <key> <value>\n"@,
            Usage::InsertOrUpdate => "ERR Usage: INSERT_OR_UPDATE <key> <value>\n"@,
            Usage::InsertOrUpdateMany => "ERR Usage: INSERT_OR_UPDATE_MANY <[key, value]...>\n"@,
            Usage::Get => "ERR Usage: GET <key>\n"@,
            Usage::Delete => "ERR Usage: DELETE <key>\n"@,
            Usage::DeleteMany => "ERR Usage: DELETE_MANY <[key1, key2, ...]>\n"@,
            Usage::Query => "ERR Usage: QUERY <conditions>\n"@,
        }
    }
}

/// What stands before the first space of a text; the whole text if it has
/// no space.
pub open spec fn head_of(t: Seq<char>) -> Seq<char> {
    t.subrange(0, find_char(t, ' ', 0))
}

/// What stands after the first space of a text, if it has a space.
pub open spec fn rest_of(t: Seq<char>) -> Option<Seq<char>> {
    let at = find_char(t, ' ', 0);
    if at < t.len() {
        Some(t.subrange(at + 1, t.len() as int))
    } else {
        None
    }
}

/// A key and what follows it: the arguments trimmed and split at their
/// first space.
pub open spec fn key_and_value(args: Seq<char>) -> Option<(Seq<char>, Seq<char>)> {
    match rest_of(trimmed(args)) {
        Some(value) => Some((head_of(trimmed(args)), value)),
        None => None,
    }
}

/// The command with the given name, in upper case, and arguments.
pub open spec fn command_named_spec(name: Seq<char>, args: Option<Seq<char>>) -> CommandView {
    if name == "INSERT"@ {
        match args {
            Some(a) => match key_and_value(a) {
                Some((key, json)) => CommandView::Insert { key, json },
                None => CommandView::Usage(Usage::Insert),
            },
            None => CommandView::Usage(Usage::Insert),
        }
    } else if name == "INSERT_OR_UPDATE"@ {
        match args {
            Some(a) => match key_and_value(a) {
                Some((key, json)) => CommandView::InsertOrUpdate { key, json },
                None => CommandView::Usage(Usage::InsertOrUpdate),
            },
            None => CommandView::Usage(Usage::InsertOrUpdate),
        }
    } else if name == "INSERT_OR_UPDATE_MANY"@ {
        match args {
            Some(json) => CommandView::InsertOrUpdateMany { json },
            None => CommandView::Usage(Usage::InsertOrUpdateMany),
        }
    } else if name == "GET"@ {
        match args {
            Some(key) => CommandView::Get { key },
            None => CommandView::Usage(Usage::Get),
        }
    } else if name == "DELETE"@ {
        match args {
            Some(key) => if key == "ALL"@ {
                CommandView::DeleteAll
            } else {
                CommandView::Delete { key }
            },
            None => CommandView::Usage(Usage::Delete),
        }
    } else if name == "DELETE_MANY"@ {
        match args {
            Some(json) => CommandView::DeleteMany { json },
            None => CommandView::Usage(Usage::DeleteMany),
        }
    } else if name == "LIST"@ {
        CommandView::List
    } else if name == "QUERY"@ {
        match args {
            Some(a) => CommandView::Query { expr: trimmed(a) },
            None => CommandView::Usage(Usage::Query),
        }
    } else if name == "EXIT"@ {
        CommandView::Exit
    } else {
        CommandView::Unknown
    }
}

/// The command that a line spells.
pub open spec fn command_of(line: Seq<char>) -> CommandView {
    command_named_spec(uppercase(head_of(trimmed(line))), rest_of(trimmed(line)))
}

/// The text of an optional string.
pub open spec fn text_of(s: Option<String>) -> Option<Seq<char>> {
    match s {
        Some(s) => Some(s@),
        None => None,
    }
}

/// Splits characters at their first space.
fn split_head(chars: &Vec<char>) -> (r: (String, Option<String>))
    ensures
        r.0@ == head_of(chars@),
        match r.1 {
            Some(rest) => rest_of(chars@) == Some(rest@),
            None => rest_of(chars@) is None,
        },
{
    let at = find_char_from(chars, ' ', 0);
    let head = string_of(chars, 0, at);
    if at < chars.len() {
        (head, Some(string_of(chars, at + 1, chars.len())))
    } else {
        (head, None)
    }
}

/// Trims the arguments and splits them at their first space.
fn split_key_and_value(args: &str) -> (r: Option<(String, String)>)
    ensures
        match r {
            Some(p) => key_and_value(args@) == Some((p.0@, p.1@)),
            None => key_and_value(args@) is None,
        },
{
    let chars = trim_chars(args);
    let (key, rest) = split_head(&chars);
    match rest {
        Some(value) => Some((key, value)),
        None => None,
    }
}

/// Picks the command, given the upper-case form of its name and its
/// arguments.
pub fn command_named(name: &str, args: Option<String>) -> (c: Command)
    ensures
        c@ == command_named_spec(name@, text_of(args)),
{
    if str_eq(name, "INSERT") {
        match args {
            Some(a) => match split_key_and_value(a.as_str()) {
                Some((key, json)) => Command::Insert { key, json },
                None => Command::Usage(Usage::Insert),
            },
            None => Command::Usage(Usage::Insert),
        }
    } else if str_eq(name, "INSERT_OR_UPDATE") {
        match args {
            Some(a) => match split_key_and_value(a.as_str()) {
                Some((key, json)) => Command::InsertOrUpdate { key, json },
                None => Command::Usage(Usage::InsertOrUpdate),
            },
            None => Command::Usage(Usage::InsertOrUpdate),
        }
    } else if str_eq(name, "INSERT_OR_UPDATE_MANY") {
        match args {
            Some(json) => Command::InsertOrUpdateMany { json },
            None => Command::Usage(Usage::InsertOrUpdateMany),
        }
    } else if str_eq(name, "GET") {
        match args {
            Some(key) => Command::Get { key },
            None => Command::Usage(Usage::Get),
        }
    } else if str_eq(name, "DELETE") {
        match args {
            Some(key) => if str_eq(key.as_str(), "ALL") {
                Command::DeleteAll
            } else {
                Command::Delete { key }
            },
            None => Command::Usage(Usage::Delete),
        }
    } else if str_eq(name, "DELETE_MANY") {
        match args {
            Some(json) => Command::DeleteMany { json },
            None => Command::Usage(Usage::DeleteMany),
        }
    } else if str_eq(name, "LIST") {
        Command::List
    } else if str_eq(name, "QUERY") {
        match args {
            Some(a) => {
                let chars = trim_chars(a.as_str());
                assert(chars@.subrange(0, chars.len() as int) =~= chars@);
                Command::Query { expr: string_of(&chars, 0, chars.len()) }
            },
            None => Command::Usage(Usage::Query),
        }
    } else if str_eq(name, "EXIT") {
        Command::Exit
    } else {
        Command::Unknown
    }
}

/// Reads a line as a command.
pub fn parse_command(line: &str) -> (c: Command)
    ensures
        c@ == command_of(line@),
{
    let chars = trim_chars(line);
    let (head, args) = split_head(&chars);
    let name = head.as_str().to_uppercase();
    command_named(name.as_str(), args)
}

} // verus!
