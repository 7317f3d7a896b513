//! The commands of the prompt.

use vstd::prelude::*;
use crate::extractor::bytes_of;
use crate::rows::{trim, trimmed};
use crate::text::stands_at;

verus! {

/// What the user can ask for.
#[derive(Clone, Copy, Debug, PartialEq, Eq, Structural)]
pub enum Command {
    /// A list of the commands.
    Help,
    /// The links on a page.
    Links,
    /// A shortest path from one page to another.
    Path,
    /// The page furthest away from a page.
    Furthest,
    /// The greatest number of steps needed to reach a page.
    Max,
    /// An estimate of the diameter of the graph.
    Diameter,
    /// The end of the session.
    Exit,
    /// Anything else.
    Invalid,
}

/// The graph that a command is answered from.
#[derive(Clone, Copy, Debug, PartialEq, Eq, Structural)]
pub enum GraphSide {
    /// The command needs no graph.
    Neither,
    /// The graph of the links from each page.
    Forward,
    /// The graph of the links to each page.
    Reverse,
}

/// The command that the line `typed` asks for: the line, without the white
/// space around it, is the command's name.
pub open spec fn command_of(typed: Seq<u8>) -> Command {
    let word = trimmed(typed);
    if word == bytes_of("help") {
        Command::Help
    } else if word == bytes_of("links") {
        Command::Links
    } else if word == bytes_of("path") {
        Command::Path
    } else if word == bytes_of("furthest") {
        Command::Furthest
    } else if word == bytes_of("max") {
        Command::Max
    } else if word == bytes_of("diameter") {
        Command::Diameter
    } else if word == bytes_of("exit") || word == bytes_of("quit") {
        Command::Exit
    } else {
        Command::Invalid
    }
}

fn is_word(line: &[u8], from: usize, to: usize, word: &str) -> (r: bool)
    requires
        from <= to <= line@.len(),
    ensures
        r == (line@.subrange(from as int, to as int) == bytes_of(word)),
{
    let bytes = word.as_bytes();
    let r = to - from == bytes.len() && stands_at(line, from, to, bytes);
    proof {
        let part = line@.subrange(from as int, to as int);
        if to - from == bytes@.len() {
            assert(part.take(bytes@.len() as int) =~= part);
        }
    }
    r
}

impl Command {
    /// The graph that the command is answered from: the reverse graph for
    /// the greatest number of steps to a page, the forward graph for the
    /// other queries.
    pub open spec fn spec_graph_side(self) -> GraphSide {
        match self {
            Command::Links | Command::Path | Command::Furthest | Command::Diameter => GraphSide::Forward,
            Command::Max => GraphSide::Reverse,
            Command::Help | Command::Exit | Command::Invalid => GraphSide::Neither,
        }
    }

    /// The number of pages that the command asks the user for.
    pub open spec fn spec_pages_asked(self) -> usize {
        match self {
            Command::Path => 2,
            Command::Links | Command::Furthest | Command::Max => 1,
            Command::Help | Command::Diameter | Command::Exit | Command::Invalid => 0,
        }
    }

    /// The graph that the command is answered from.
    pub fn graph_side(self) -> (r: GraphSide)
        ensures
            r == self.spec_graph_side(),
    {
        match self {
            Command::Links | Command::Path | Command::Furthest | Command::Diameter => GraphSide::Forward,
            Command::Max => GraphSide::Reverse,
            Command::Help | Command::Exit | Command::Invalid => GraphSide::Neither,
        }
    }

    /// The number of pages that the command asks the user for.
    pub fn pages_asked(self) -> (r: usize)
        ensures
            r == self.spec_pages_asked(),
    {
        match self {
            Command::Path => 2,
            Command::Links | Command::Furthest | Command::Max => 1,
            Command::Help | Command::Diameter | Command::Exit | Command::Invalid => 0,
        }
    }

    /// Reads the command that the line `typed` asks for.
    pub fn parse(typed: &[u8]) -> (r: Command)
        ensures
            r == command_of(typed@),
    {
        let (from, to) = trim(typed);
        if is_word(typed, from, to, "help") {
            Command::Help
        } else if is_word(typed, from, to, "links") {
            Command::Links
        } else if is_word(typed, from, to, "path") {
            Command::Path
        } else if is_word(typed, from, to, "furthest") {
            Command::Furthest
        } else if is_word(typed, from, to, "max") {
            Command::Max
        } else if is_word(typed, from, to, "diameter") {
            Command::Diameter
        } else if is_word(typed, from, to, "exit") || is_word(typed, from, to, "quit") {
            Command::Exit
        } else {
            Command::Invalid
        }
    }
}

} // verus!
