//! Command-line level data: note categories, commands and their arguments.
//! Parsing terminal arguments into these types is the binary's job; the
//! library only defines what a parsed invocation looks like.

use vstd::prelude::*;

verus! {

/// The note categories, each with its own cadence and storage convention.
#[derive(Clone, Copy, Debug, PartialEq, Eq, Structural)]
pub enum NoteType {
    Daily,
    Monthly,
    Yearly,
    Someday,
}

impl Default for NoteType {
    /// The category used when none is named.
    fn default() -> (r: Self)
        ensures
            r == NoteType::Daily,
    {
        NoteType::Daily
    }
}

/// What of a note is listed: everything, or only its open tasks.
#[derive(Clone, Copy, Debug, PartialEq, Eq, Structural)]
pub enum ListType {
    Contents,
    Tasks,
}

impl Default for ListType {
    fn default() -> (r: Self)
        ensures
            r == ListType::Contents,
    {
        ListType::Contents
    }
}

/// Arguments of the edit command.
#[derive(Clone, Copy, Debug, PartialEq, Eq, Structural)]
pub struct EditArgs {
    pub note_type: NoteType,
}

impl Default for EditArgs {
    fn default() -> (r: Self)
        ensures
            r.note_type == NoteType::Daily,
    {
        EditArgs { note_type: NoteType::Daily }
    }
}

/// Arguments of the list command.
#[derive(Clone, Copy, Debug, PartialEq, Eq, Structural)]
pub struct ListArgs {
    pub note_type: NoteType,
    pub list_type: ListType,
}

impl Default for ListArgs {
    fn default() -> (r: Self)
        ensures
            r.note_type == NoteType::Daily && r.list_type == ListType::Contents,
    {
        ListArgs { note_type: NoteType::Daily, list_type: ListType::Contents }
    }
}

/// Arguments of the append command: the category and the words of the line to
/// append.
#[derive(Clone, Debug)]
pub struct AppendArgs {
    pub note_type: NoteType,
    pub content: Vec<Vec<u8>>,
}

/// One parsed subcommand.
#[derive(Clone, Debug)]
pub enum Cmd {
    Edit(EditArgs),
    Append(AppendArgs),
    Sync,
    Init,
    Search { query: Vec<u8> },
    List(ListArgs),
}

/// A whole parsed invocation.
#[derive(Clone, Debug)]
pub struct Cli {
    pub root: Option<Vec<u8>>,
    pub editor: Option<Vec<u8>>,
    pub cmd: Option<Cmd>,
}

impl Cli {
    /// The command to run: the named subcommand, or editing the daily note
    /// when none was named.
    pub fn command(self) -> (r: Cmd)
        ensures
            match self.cmd {
                Some(c) => r == c,
                None => (r matches Cmd::Edit(a) && a.note_type == NoteType::Daily),
            },
    {
        match self.cmd {
            Some(c) => c,
            None => Cmd::Edit(EditArgs::default()),
        }
    }
}

} // verus!
